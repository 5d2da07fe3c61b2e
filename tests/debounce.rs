use notify_debouncer_mini::{
    tick_interval, ConfigError, DebounceDataInner, DebouncedEvent, DebouncedEventKind,
    DebouncedEvents, EventData,
};

const MS: u128 = 1_000_000;

fn paths(ps: &[&str]) -> Vec<String> {
    ps.iter().map(|p| p.to_string()).collect()
}

fn ev(path: &str, kind: DebouncedEventKind) -> DebouncedEvent {
    DebouncedEvent::new(path.to_string(), kind)
}

fn sorted(mut v: Vec<DebouncedEvent>) -> Vec<DebouncedEvent> {
    v.sort_by(|a, b| a.path.cmp(&b.path));
    v
}

fn only_events(batches: Vec<DebouncedEvents>) -> Vec<DebouncedEvent> {
    assert_eq!(batches.len(), 1);
    match batches.into_iter().next().unwrap() {
        Ok(v) => v,
        Err(_) => panic!("expected an event batch"),
    }
}

#[test]
fn default_tick_is_a_quarter_of_the_timeout() {
    assert_eq!(tick_interval(200 * MS, None), Ok(50 * MS));
    assert_eq!(tick_interval(7, None), Ok(1));
    assert_eq!(tick_interval(0, None), Ok(0));
}

#[test]
fn tick_up_to_the_timeout_is_accepted() {
    assert_eq!(tick_interval(200 * MS, Some(10 * MS)), Ok(10 * MS));
    assert_eq!(tick_interval(200 * MS, Some(200 * MS)), Ok(200 * MS));
}

#[test]
fn tick_above_the_timeout_is_refused() {
    assert_eq!(
        tick_interval(200 * MS, Some(201 * MS)),
        Err(ConfigError::TickAboveTimeout { tick: 201 * MS, timeout: 200 * MS })
    );
}

#[test]
fn new_entry_has_equal_times() {
    let d = EventData::new_any(42);
    assert_eq!(d, EventData { insert: 42, update: 42 });
    let e = DebouncedEvent::new("/x".to_string(), DebouncedEventKind::AnyContinuous);
    assert_eq!(e.path, "/x");
    assert_eq!(e.kind, DebouncedEventKind::AnyContinuous);
}

#[test]
fn new_store_is_empty() {
    let s = DebounceDataInner::new(200 * MS);
    assert_eq!(s.timeout(), 200 * MS);
    assert_eq!(s.len(), 0);
    assert_eq!(s.error_count(), 0);
}

#[test]
fn add_event_inserts_then_refreshes() {
    let mut s = DebounceDataInner::new(200 * MS);
    s.add_event(paths(&["/a"]), 10);
    assert_eq!(s.get(&"/a".to_string()), Some(EventData { insert: 10, update: 10 }));
    s.add_event(paths(&["/a"]), 30);
    assert_eq!(s.len(), 1);
    assert_eq!(s.get(&"/a".to_string()), Some(EventData { insert: 10, update: 30 }));
    assert_eq!(s.get(&"/b".to_string()), None);
}

#[test]
fn repeated_path_in_one_event_has_one_entry() {
    let mut s = DebounceDataInner::new(100);
    s.add_event(paths(&["/a", "/b", "/a"]), 5);
    assert_eq!(s.len(), 2);
    assert_eq!(s.get(&"/a".to_string()), Some(EventData { insert: 5, update: 5 }));
}

#[test]
fn quiet_path_is_emitted_once_and_removed() {
    let mut s = DebounceDataInner::new(100);
    s.add_event(paths(&["/a"]), 0);
    assert!(s.debounced_events(99).is_empty());
    assert_eq!(s.len(), 1);
    assert_eq!(s.debounced_events(100), vec![ev("/a", DebouncedEventKind::Any)]);
    assert_eq!(s.len(), 0);
    assert!(s.debounced_events(1000).is_empty());
}

#[test]
fn continuous_path_keeps_its_entry() {
    let mut s = DebounceDataInner::new(100);
    s.add_event(paths(&["/a"]), 0);
    s.add_event(paths(&["/a"]), 60);
    assert_eq!(s.debounced_events(120), vec![ev("/a", DebouncedEventKind::AnyContinuous)]);
    assert_eq!(s.get(&"/a".to_string()), Some(EventData { insert: 0, update: 60 }));
    assert_eq!(s.debounced_events(150), vec![ev("/a", DebouncedEventKind::AnyContinuous)]);
    assert_eq!(s.debounced_events(160), vec![ev("/a", DebouncedEventKind::Any)]);
    assert_eq!(s.len(), 0);
}

#[test]
fn clock_behind_an_entry_counts_as_no_time() {
    let mut s = DebounceDataInner::new(100);
    s.add_event(paths(&["/a"]), 500);
    assert!(s.debounced_events(0).is_empty());
    assert_eq!(s.len(), 1);
}

#[test]
fn zero_timeout_emits_at_once() {
    let mut s = DebounceDataInner::new(0);
    s.add_event(paths(&["/a"]), 7);
    assert_eq!(s.debounced_events(7), vec![ev("/a", DebouncedEventKind::Any)]);
}

#[test]
fn errors_are_drained_in_order() {
    let mut s = DebounceDataInner::new(100);
    s.add_error(notify::Error::generic("one"));
    s.add_error(notify::Error::generic("two"));
    assert_eq!(s.error_count(), 2);
    let errs = s.errors();
    let texts: Vec<String> = errs.iter().map(|e| e.to_string()).collect();
    assert_eq!(texts, vec!["one".to_string(), "two".to_string()]);
    assert_eq!(s.error_count(), 0);
    assert!(s.errors().is_empty());
}

#[test]
fn raw_event_or_error_goes_to_its_queue() {
    let mut s = DebounceDataInner::new(100);
    s.add_raw_event(Ok(paths(&["/a", "/b"])), 3);
    s.add_raw_event(Err(notify::Error::generic("lost")), 4);
    assert_eq!(s.len(), 2);
    assert_eq!(s.error_count(), 1);
    assert_eq!(s.get(&"/b".to_string()), Some(EventData { insert: 3, update: 3 }));
}

#[test]
fn tick_with_nothing_ready_makes_no_call() {
    let mut s = DebounceDataInner::new(100);
    assert!(s.tick(50).is_empty());
    s.add_event(paths(&["/a"]), 0);
    assert!(s.tick(50).is_empty());
}

#[test]
fn tick_sends_events_then_errors() {
    let mut s = DebounceDataInner::new(100);
    s.add_event(paths(&["/a"]), 0);
    s.add_error(notify::Error::generic("e"));
    let b = s.tick(100);
    assert_eq!(b.len(), 2);
    match &b[0] {
        Ok(v) => assert_eq!(v, &vec![ev("/a", DebouncedEventKind::Any)]),
        Err(_) => panic!("events come first"),
    }
    match &b[1] {
        Ok(_) => panic!("errors come second"),
        Err(e) => assert_eq!(e.len(), 1),
    }
    assert_eq!(s.len(), 0);
    assert_eq!(s.error_count(), 0);
}

#[test]
fn isolated_event_fires_between_timeout_and_one_tick_later() {
    let timeout = 200 * MS;
    let tick = tick_interval(timeout, None).unwrap();
    let mut s = DebounceDataInner::new(timeout);
    let t0 = 13 * MS;
    s.add_event(paths(&["/p"]), t0);
    let mut now = 0;
    let mut fired_at = None;
    while fired_at.is_none() {
        now += tick;
        let b = s.tick(now);
        if !b.is_empty() {
            assert_eq!(only_events(b), vec![ev("/p", DebouncedEventKind::Any)]);
            fired_at = Some(now);
        }
    }
    let at = fired_at.unwrap();
    assert!(at >= t0 + timeout && at < t0 + timeout + tick);
    assert_eq!(s.len(), 0);
}

#[test]
fn one_raw_event_with_three_paths_gives_three_any() {
    let mut s = DebounceDataInner::new(100);
    s.add_event(paths(&["/c", "/a", "/b"]), 0);
    assert_eq!(s.len(), 3);
    let out = sorted(s.debounced_events(100));
    assert_eq!(
        out,
        vec![
            ev("/a", DebouncedEventKind::Any),
            ev("/b", DebouncedEventKind::Any),
            ev("/c", DebouncedEventKind::Any),
        ]
    );
    assert_eq!(s.len(), 0);
}

#[test]
fn errors_between_ticks_come_as_one_batch() {
    let mut s = DebounceDataInner::new(100);
    assert!(s.tick(10).is_empty());
    for i in 0..4 {
        s.add_error(notify::Error::generic(&format!("e{}", i)));
    }
    let b = s.tick(20);
    assert_eq!(b.len(), 1);
    match &b[0] {
        Ok(_) => panic!("expected an error batch"),
        Err(e) => {
            let texts: Vec<String> = e.iter().map(|x| x.to_string()).collect();
            assert_eq!(texts, vec!["e0", "e1", "e2", "e3"]);
        }
    }
    assert_eq!(s.error_count(), 0);
    assert!(s.tick(30).is_empty());
}

#[test]
fn single_event_scenario_with_default_tick() {
    let timeout = 200 * MS;
    let tick = tick_interval(timeout, None).unwrap();
    assert_eq!(tick, 50 * MS);
    let mut s = DebounceDataInner::new(timeout);
    s.add_event(paths(&["/a"]), 0);
    for k in 1..4u128 {
        assert!(s.tick(k * tick).is_empty());
    }
    let b = s.tick(4 * tick);
    assert_eq!(only_events(b), vec![ev("/a", DebouncedEventKind::Any)]);
    assert_eq!(s.len(), 0);
    assert!(s.tick(5 * tick).is_empty());
}

#[test]
fn continuous_event_scenario_with_default_tick() {
    let timeout = 200 * MS;
    let tick = tick_interval(timeout, None).unwrap();
    let mut s = DebounceDataInner::new(timeout);
    let stop_at = 600 * MS;
    let mut next_event: u128 = 0;
    let mut now: u128 = 0;
    let mut last_event: u128 = 0;
    let mut saw_any = false;
    while !saw_any {
        now += tick;
        while next_event <= now && next_event <= stop_at {
            s.add_event(paths(&["/a"]), next_event);
            last_event = next_event;
            next_event += 30 * MS;
        }
        let b = s.tick(now);
        if now < timeout {
            assert!(b.is_empty());
        } else if now - last_event < timeout {
            assert_eq!(only_events(b), vec![ev("/a", DebouncedEventKind::AnyContinuous)]);
        } else {
            assert_eq!(only_events(b), vec![ev("/a", DebouncedEventKind::Any)]);
            saw_any = true;
        }
    }
    assert_eq!(last_event, 600 * MS);
    assert_eq!(now, 800 * MS);
    assert_eq!(s.len(), 0);
}
