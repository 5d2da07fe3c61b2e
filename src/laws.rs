use vstd::prelude::*;

use crate::event::{elapsed, verdict, DebouncedEventKind, EventData};
use crate::store::{
    batches, emitted, has_path, keys_unique, lemma_emitted_members, lemma_retained_members,
    lemma_touch_unique, retained, touch, touch_all, BatchView, DebounceDataInner, Entry,
};

verus! {

/// In a cache with unique paths, the entry for `p` is the only one with that path.
proof fn lemma_unique_entry(s: Seq<Entry>, p: Seq<char>, d: EventData)
    requires
        keys_unique(s),
        s.contains((p, d)),
    ensures
        forall|x: Entry| #[trigger] s.contains(x) && x.0 == p ==> x.1 == d,
{
    let i = choose|i: int| 0 <= i < s.len() && s[i] == (p, d);
    assert forall|x: Entry| #[trigger] s.contains(x) && x.0 == p implies x.1 == d by {
        let j = choose|j: int| 0 <= j < s.len() && s[j] == x;
        assert(s[i].0 == s[j].0);
    }
}

/// What one tick does to a cached path: with `d` its timing, the tick emits
/// for it exactly `verdict(d)`, and keeps it, unchanged, unless that is `Any`.
proof fn lemma_tick_entry(s: Seq<Entry>, p: Seq<char>, d: EventData, now: u128, timeout: u128)
    requires
        keys_unique(s),
        s.contains((p, d)),
    ensures
        forall|k: DebouncedEventKind|
            #[trigger] emitted(s, now, timeout).contains((p, k)) <==> verdict(d, now, timeout)
                == Some(k),
        verdict(d, now, timeout) == Some(DebouncedEventKind::Any) ==> !has_path(
            retained(s, now, timeout),
            p,
        ),
        verdict(d, now, timeout) != Some(DebouncedEventKind::Any) ==> retained(
            s,
            now,
            timeout,
        ).contains((p, d)),
{
    lemma_unique_entry(s, p, d);
    lemma_emitted_members(s, now, timeout);
    lemma_retained_members(s, now, timeout);
    let i = choose|i: int| 0 <= i < s.len() && s[i] == (p, d);
    assert forall|k: DebouncedEventKind|
        #[trigger] emitted(s, now, timeout).contains((p, k)) <==> verdict(d, now, timeout) == Some(
            k,
        ) by {
        if emitted(s, now, timeout).contains((p, k)) {
            let j = choose|j: int|
                0 <= j < s.len() && #[trigger] s[j].0 == p && verdict(s[j].1, now, timeout) == Some(
                    k,
                );
            assert(s.contains(s[j]));
        }
        if verdict(d, now, timeout) == Some(k) {
            assert(s[i].0 == p);
        }
    }
    let r = retained(s, now, timeout);
    if verdict(d, now, timeout) == Some(DebouncedEventKind::Any) {
        if has_path(r, p) {
            let j = choose|j: int| 0 <= j < r.len() && #[trigger] r[j].0 == p;
            assert(r.contains(r[j]));
        }
    }
}

proof fn lemma_touch_entries(s: Seq<Entry>, p: Seq<char>, now: u128)
    requires
        keys_unique(s),
    ensures
        forall|x: Entry| x.0 != p ==> (#[trigger] touch(s, p, now).contains(x) <==> s.contains(x)),
        forall|d: EventData|
            s.contains((p, d)) ==> touch(s, p, now).contains(
                (p, EventData { insert: d.insert, update: now }),
            ),
        !has_path(s, p) ==> touch(s, p, now).contains((p, EventData { insert: now, update: now })),
        touch(s, p, now).len() >= 1,
{
    let t = touch(s, p, now);
    assert forall|x: Entry| x.0 != p implies (#[trigger] t.contains(x) <==> s.contains(x)) by {
        if t.contains(x) {
            let i = choose|i: int| 0 <= i < t.len() && t[i] == x;
            if has_path(s, p) {
                assert(s[i] == x);
            } else {
                assert(i < s.len());
                assert(s[i] == x);
            }
        }
        if s.contains(x) {
            let i = choose|i: int| 0 <= i < s.len() && s[i] == x;
            assert(t[i] == x);
        }
    }
    assert forall|d: EventData| s.contains((p, d)) implies t.contains(
        (p, EventData { insert: d.insert, update: now }),
    ) by {
        let i = choose|i: int| 0 <= i < s.len() && s[i] == (p, d);
        assert(s[i].0 == p);
        assert(t[i] == (p, EventData { insert: d.insert, update: now }));
    }
    if !has_path(s, p) {
        assert(t[s.len() as int] == (p, EventData { insert: now, update: now }));
    }
}

/// A single raw event for a path that is not cached, at `t0`: a tick at any
/// `now` from `t0` on emits nothing for the path before the timeout has
/// passed, and keeps it cached with both times at `t0`; from then on a tick
/// emits `Any` for it, and nothing else for it, and drops it from the cache.
pub proof fn isolated_event_law(store: DebounceDataInner, p: Seq<char>, t0: u128, now: u128)
    requires
        store.wf(),
        !has_path(store.entries(), p),
        t0 <= now,
    ensures
        ({
            let s = touch_all(store.entries(), seq![p], t0);
            let t = store.timeout_spec();
            &&& now - t0 >= t ==> {
                &&& emitted(s, now, t).contains((p, DebouncedEventKind::Any))
                &&& !emitted(s, now, t).contains((p, DebouncedEventKind::AnyContinuous))
                &&& !has_path(retained(s, now, t), p)
            }
            &&& now - t0 < t ==> {
                &&& !emitted(s, now, t).contains((p, DebouncedEventKind::Any))
                &&& !emitted(s, now, t).contains((p, DebouncedEventKind::AnyContinuous))
                &&& retained(s, now, t).contains((p, EventData { insert: t0, update: t0 }))
            }
        }),
{
    let e = store.entries();
    assert(seq![p].drop_last() =~= Seq::<Seq<char>>::empty());
    let s = touch_all(e, seq![p], t0);
    assert(seq![p].last() == p);
    assert(touch_all(e, Seq::<Seq<char>>::empty(), t0) == e);
    assert(s == touch(e, p, t0));
    lemma_touch_unique(e, p, t0);
    lemma_touch_entries(e, p, t0);
    let d = EventData { insert: t0, update: t0 };
    assert(elapsed(now, t0) == now - t0);
    lemma_tick_entry(s, p, d, now, store.timeout_spec());
}

/// A path under sustained modification: a further raw event keeps the time
/// the path entered the cache and refreshes its update time; while the last
/// event lies less than the timeout back and the path has been cached for at
/// least the timeout, every tick emits `AnyContinuous` for it and keeps it
/// unchanged; once the last event lies the timeout back, the tick emits `Any`
/// and drops it.
pub proof fn continuous_law(
    store: DebounceDataInner,
    p: Seq<char>,
    d: EventData,
    at: u128,
    now: u128,
)
    requires
        store.wf(),
        store.entries().contains((p, d)),
    ensures
        touch_all(store.entries(), seq![p], at).contains(
            (p, EventData { insert: d.insert, update: at }),
        ),
        ({
            let s = store.entries();
            let t = store.timeout_spec();
            &&& (elapsed(now, d.update) < t && elapsed(now, d.insert) >= t) ==> {
                &&& emitted(s, now, t).contains((p, DebouncedEventKind::AnyContinuous))
                &&& !emitted(s, now, t).contains((p, DebouncedEventKind::Any))
                &&& retained(s, now, t).contains((p, d))
            }
            &&& elapsed(now, d.update) >= t ==> {
                &&& emitted(s, now, t).contains((p, DebouncedEventKind::Any))
                &&& !emitted(s, now, t).contains((p, DebouncedEventKind::AnyContinuous))
                &&& !has_path(retained(s, now, t), p)
            }
        }),
{
    let e = store.entries();
    assert(seq![p].drop_last() =~= Seq::<Seq<char>>::empty());
    assert(seq![p].last() == p);
    assert(touch_all(e, Seq::<Seq<char>>::empty(), at) == e);
    assert(touch_all(e, seq![p], at) == touch(e, p, at));
    lemma_touch_entries(e, p, at);
    lemma_tick_entry(e, p, d, now, store.timeout_spec());
}

proof fn lemma_touch_all_entries(s: Seq<Entry>, paths: Seq<Seq<char>>, now: u128)
    requires
        keys_unique(s),
    ensures
        keys_unique(touch_all(s, paths, now)),
        forall|q: Seq<char>|
            #[trigger] paths.contains(q) ==> (exists|d: EventData|
                touch_all(s, paths, now).contains((q, d))),
        forall|x: Entry|
            paths.contains(x.0) && #[trigger] touch_all(s, paths, now).contains(x) ==> x.1.update
                == now,
        forall|x: Entry|
            !paths.contains(x.0) ==> (#[trigger] touch_all(s, paths, now).contains(x)
                <==> s.contains(x)),
    decreases paths.len(),
{
    if paths.len() > 0 {
        let front = paths.drop_last();
        let p = paths.last();
        lemma_touch_all_entries(s, front, now);
        let r = touch_all(s, front, now);
        let t = touch_all(s, paths, now);
        lemma_touch_unique(r, p, now);
        lemma_touch_entries(r, p, now);
        assert(exists|d: EventData| t.contains((p, d))) by {
            if has_path(r, p) {
                let i = choose|i: int| 0 <= i < r.len() && #[trigger] r[i].0 == p;
                assert(r.contains((p, r[i].1)));
                assert(t.contains((p, EventData { insert: r[i].1.insert, update: now })));
            } else {
                assert(t.contains((p, EventData { insert: now, update: now })));
            }
        }
        assert forall|x: Entry| x.0 == p && #[trigger] t.contains(x) implies x.1.update == now by {
            if has_path(r, p) {
                let i = choose|i: int| 0 <= i < r.len() && #[trigger] r[i].0 == p;
                assert(r.contains((p, r[i].1)));
                lemma_unique_entry(t, p, EventData { insert: r[i].1.insert, update: now });
            } else {
                lemma_unique_entry(t, p, EventData { insert: now, update: now });
            }
        }
        assert forall|q: Seq<char>| #[trigger] paths.contains(q) implies (exists|d: EventData|
            t.contains((q, d))) by {
            if q != p {
                let j = choose|j: int| 0 <= j < paths.len() && paths[j] == q;
                assert(front[j] == q);
                assert(front.contains(q));
                let d = choose|d: EventData| r.contains((q, d));
                assert(t.contains((q, d)));
            }
        }
        assert forall|x: Entry| paths.contains(x.0) && #[trigger] t.contains(x) implies x.1.update
            == now by {
            if x.0 != p {
                let j = choose|j: int| 0 <= j < paths.len() && paths[j] == x.0;
                assert(front[j] == x.0);
                assert(r.contains(x));
            }
        }
        assert forall|x: Entry| !paths.contains(x.0) implies (#[trigger] t.contains(x)
            <==> s.contains(x)) by {
            assert(paths[paths.len() - 1] == p);
            if front.contains(x.0) {
                let j = choose|j: int| 0 <= j < front.len() && front[j] == x.0;
                assert(paths[j] == x.0);
            }
        }
    }
}

/// One raw event naming several distinct paths at `now` caches each of them
/// with its update time at `now`, and leaves the entries of all other paths
/// as they were; a tick once the timeout has passed since then emits `Any`
/// for each of them and drops each from the cache.
pub proof fn multi_path_law(
    store: DebounceDataInner,
    paths: Seq<Seq<char>>,
    now: u128,
    later: u128,
)
    requires
        store.wf(),
        paths.no_duplicates(),
    ensures
        ({
            let s = touch_all(store.entries(), paths, now);
            let t = store.timeout_spec();
            &&& keys_unique(s)
            &&& forall|q: Seq<char>|
                #[trigger] paths.contains(q) ==> exists|d: EventData|
                    s.contains((q, d)) && d.update == now
            &&& forall|x: Entry|
                !paths.contains(x.0) ==> (#[trigger] s.contains(x) <==> store.entries().contains(x))
            &&& elapsed(later, now) >= t ==> forall|q: Seq<char>| #[trigger]
                paths.contains(q) ==> {
                    &&& emitted(s, later, t).contains((q, DebouncedEventKind::Any))
                    &&& !has_path(retained(s, later, t), q)
                }
        }),
{
    let e = store.entries();
    let t = store.timeout_spec();
    lemma_touch_all_entries(e, paths, now);
    let s = touch_all(e, paths, now);
    assert forall|q: Seq<char>| #[trigger] paths.contains(q) implies exists|d: EventData|
        s.contains((q, d)) && d.update == now by {
        let d = choose|d: EventData| s.contains((q, d));
        assert(s.contains((q, d)));
    }
    if elapsed(later, now) >= t {
        assert forall|q: Seq<char>| #[trigger] paths.contains(q) implies {
            &&& emitted(s, later, t).contains((q, DebouncedEventKind::Any))
            &&& !has_path(retained(s, later, t), q)
        } by {
            let d = choose|d: EventData| s.contains((q, d));
            assert(s.contains((q, d)));
            assert(d.update == now);
            lemma_tick_entry(s, q, d, later, t);
        }
    }
}

/// Errors buffered since the last tick, which drained the buffer, come out
/// of the next tick as exactly one batch, the last one, holding all of them in
/// the order in which they arrived.
pub proof fn error_batch_law(store: DebounceDataInner, es: Seq<notify::Error>, now: u128)
    requires
        store.pending_errors().len() == 0,
        es.len() > 0,
    ensures
        ({
            let b = batches(
                emitted(store.entries(), now, store.timeout_spec()),
                store.pending_errors() + es,
            );
            &&& b.len() >= 1
            &&& b.last() == BatchView::Err(es)
            &&& forall|i: int| 0 <= i < b.len() - 1 ==> (#[trigger] b[i]) is Ok
        }),
{
    assert(store.pending_errors() + es =~= es);
}

} // verus!
