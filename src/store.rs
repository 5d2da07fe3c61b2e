use vstd::prelude::*;

use crate::event::{verdict, verdict_of, DebouncedEvent, DebouncedEventKind, EventData};

verus! {

/// A cached path with its timing state, as the contracts see it.
pub type Entry = (Seq<char>, EventData);

/// Whether some entry of `s` is for path `p`.
pub open spec fn has_path(s: Seq<Entry>, p: Seq<char>) -> bool {
    exists|i: int| 0 <= i < s.len() && #[trigger] s[i].0 == p
}

/// No path has two entries.
pub open spec fn keys_unique(s: Seq<Entry>) -> bool {
    forall|i: int, j: int|
        0 <= i < s.len() && 0 <= j < s.len() && i != j ==> #[trigger] s[i].0 != #[trigger] s[j].0
}

/// A raw event for `p` at `now`: an existing entry has its update time
/// refreshed, a new path is appended with both times set to `now`.
pub open spec fn touch(s: Seq<Entry>, p: Seq<char>, now: u128) -> Seq<Entry> {
    if has_path(s, p) {
        Seq::new(
            s.len(),
            |i: int|
                if s[i].0 == p {
                    (p, EventData { insert: s[i].1.insert, update: now })
                } else {
                    s[i]
                },
        )
    } else {
        s.push((p, EventData { insert: now, update: now }))
    }
}

/// The paths of one raw event, applied in order.
pub open spec fn touch_all(s: Seq<Entry>, paths: Seq<Seq<char>>, now: u128) -> Seq<Entry>
    decreases paths.len(),
{
    if paths.len() == 0 {
        s
    } else {
        touch(touch_all(s, paths.drop_last(), now), paths.last(), now)
    }
}

/// The events that a tick at `now` emits for the entries `s`, in their order.
pub open spec fn emitted(s: Seq<Entry>, now: u128, timeout: u128) -> Seq<
    (Seq<char>, DebouncedEventKind),
>
    decreases s.len(),
{
    if s.len() == 0 {
        Seq::empty()
    } else {
        let rest = emitted(s.drop_last(), now, timeout);
        match verdict(s.last().1, now, timeout) {
            Some(k) => rest.push((s.last().0, k)),
            None => rest,
        }
    }
}

/// The entries that stay cached after a tick at `now`: all but the quiet ones,
/// unchanged and in their order.
pub open spec fn retained(s: Seq<Entry>, now: u128, timeout: u128) -> Seq<Entry>
    decreases s.len(),
{
    if s.len() == 0 {
        Seq::empty()
    } else {
        let rest = retained(s.drop_last(), now, timeout);
        if verdict(s.last().1, now, timeout) == Some(DebouncedEventKind::Any) {
            rest
        } else {
            rest.push(s.last())
        }
    }
}

pub(crate) proof fn lemma_touch_unique(s: Seq<Entry>, p: Seq<char>, now: u128)
    requires
        keys_unique(s),
    ensures
        keys_unique(touch(s, p, now)),
        has_path(touch(s, p, now), p),
        forall|q: Seq<char>| has_path(s, q) ==> has_path(touch(s, p, now), q),
{
    let t = touch(s, p, now);
    if has_path(s, p) {
        assert forall|q: Seq<char>| has_path(s, q) implies has_path(t, q) by {
            let i = choose|i: int| 0 <= i < s.len() && #[trigger] s[i].0 == q;
            assert(t[i].0 == q);
        }
        let i = choose|i: int| 0 <= i < s.len() && #[trigger] s[i].0 == p;
        assert(t[i].0 == p);
    } else {
        assert forall|q: Seq<char>| has_path(s, q) implies has_path(t, q) by {
            let i = choose|i: int| 0 <= i < s.len() && #[trigger] s[i].0 == q;
            assert(t[i].0 == q);
        }
        assert(t[s.len() as int].0 == p);
    }
}

/// An event is emitted for a path exactly when an entry of that path gets a
/// verdict, and then with that verdict as its kind.
pub(crate) proof fn lemma_emitted_members(s: Seq<Entry>, now: u128, timeout: u128)
    ensures
        forall|x: (Seq<char>, DebouncedEventKind)|
            #[trigger] emitted(s, now, timeout).contains(x) <==> exists|i: int|
                0 <= i < s.len() && #[trigger] s[i].0 == x.0 && verdict(s[i].1, now, timeout)
                    == Some(x.1),
    decreases s.len(),
{
    if s.len() > 0 {
        let d = s.drop_last();
        lemma_emitted_members(d, now, timeout);
        let e = emitted(s, now, timeout);
        let r = emitted(d, now, timeout);
        assert forall|x: (Seq<char>, DebouncedEventKind)| #[trigger] e.contains(x) implies exists|i: int|
            0 <= i < s.len() && #[trigger] s[i].0 == x.0 && verdict(s[i].1, now, timeout) == Some(
                x.1,
            ) by {
            if r.contains(x) {
                let i = choose|i: int|
                    0 <= i < d.len() && #[trigger] d[i].0 == x.0 && verdict(d[i].1, now, timeout)
                        == Some(x.1);
                assert(s[i] == d[i]);
            } else {
                let j = choose|j: int| 0 <= j < e.len() && e[j] == x;
                assert(j == r.len());
                assert(s[s.len() - 1].0 == x.0);
            }
        }
        assert forall|x: (Seq<char>, DebouncedEventKind)| (exists|i: int|
            0 <= i < s.len() && #[trigger] s[i].0 == x.0 && verdict(s[i].1, now, timeout) == Some(
                x.1,
            )) implies #[trigger] e.contains(x) by {
            let i = choose|i: int|
                0 <= i < s.len() && #[trigger] s[i].0 == x.0 && verdict(s[i].1, now, timeout)
                    == Some(x.1);
            if i < s.len() - 1 {
                assert(d[i] == s[i]);
                assert(r.contains(x));
                let j = choose|j: int| 0 <= j < r.len() && r[j] == x;
                assert(e[j] == x);
            } else {
                assert(e[r.len() as int] == x);
            }
        }
    }
}

/// The retained entries are exactly those that are not quiet.
pub(crate) proof fn lemma_retained_members(s: Seq<Entry>, now: u128, timeout: u128)
    ensures
        forall|x: Entry|
            #[trigger] retained(s, now, timeout).contains(x) <==> (s.contains(x) && verdict(
                x.1,
                now,
                timeout,
            ) != Some(DebouncedEventKind::Any)),
    decreases s.len(),
{
    if s.len() > 0 {
        let d = s.drop_last();
        lemma_retained_members(d, now, timeout);
        let e = retained(s, now, timeout);
        let r = retained(d, now, timeout);
        assert forall|x: Entry| #[trigger] e.contains(x) implies s.contains(x) && verdict(
            x.1,
            now,
            timeout,
        ) != Some(DebouncedEventKind::Any) by {
            if r.contains(x) {
                let i = choose|i: int| 0 <= i < d.len() && d[i] == x;
                assert(s[i] == x);
            } else {
                let j = choose|j: int| 0 <= j < e.len() && e[j] == x;
                assert(j == r.len());
                assert(s[s.len() - 1] == x);
            }
        }
        assert forall|x: Entry| s.contains(x) && verdict(x.1, now, timeout) != Some(
            DebouncedEventKind::Any,
        ) implies #[trigger] e.contains(x) by {
            let i = choose|i: int| 0 <= i < s.len() && s[i] == x;
            if i < s.len() - 1 {
                assert(d[i] == s[i]);
                assert(r.contains(x));
                let j = choose|j: int| 0 <= j < r.len() && r[j] == x;
                assert(e[j] == x);
            } else {
                assert(e[r.len() as int] == x);
            }
        }
    }
}

pub(crate) proof fn lemma_retained_unique(s: Seq<Entry>, now: u128, timeout: u128)
    requires
        keys_unique(s),
    ensures
        keys_unique(retained(s, now, timeout)),
    decreases s.len(),
{
    if s.len() > 0 {
        let d = s.drop_last();
        assert(keys_unique(d)) by {
            assert forall|i: int, j: int|
                0 <= i < d.len() && 0 <= j < d.len() && i != j implies #[trigger] d[i].0
                != #[trigger] d[j].0 by {
                assert(d[i] == s[i] && d[j] == s[j]);
            }
        }
        lemma_retained_unique(d, now, timeout);
        lemma_retained_members(d, now, timeout);
        let r = retained(d, now, timeout);
        let e = retained(s, now, timeout);
        if verdict(s.last().1, now, timeout) != Some(DebouncedEventKind::Any) {
            assert forall|i: int, j: int|
                0 <= i < e.len() && 0 <= j < e.len() && i != j implies #[trigger] e[i].0
                != #[trigger] e[j].0 by {
                if i < r.len() && j < r.len() {
                    assert(e[i] == r[i] && e[j] == r[j]);
                } else {
                    let k = if i < r.len() { i } else { j };
                    assert(e[k] == r[k]);
                    assert(r.contains(r[k]));
                    let m = choose|m: int| 0 <= m < d.len() && d[m] == r[k];
                    assert(s[m] == d[m]);
                    assert(s[s.len() - 1] == s.last());
                }
            }
        }
    }
}

/// What one tick hands to the consumer: a batch of events or a batch of
/// backend errors.
pub type DebouncedEvents = Result<Vec<DebouncedEvent>, Vec<notify::Error>>;

/// A batch as the contracts see it.
pub type BatchView = Result<Seq<(Seq<char>, DebouncedEventKind)>, Seq<notify::Error>>;

pub open spec fn batch_view(b: DebouncedEvents) -> BatchView {
    match b {
        Ok(v) => Ok(v@.map_values(|ev: DebouncedEvent| ev@)),
        Err(v) => Err(v@),
    }
}

/// The consumer calls of one tick: the events, if any, then the errors, if
/// any, each as a batch of its own.
pub open spec fn batches(
    events: Seq<(Seq<char>, DebouncedEventKind)>,
    errs: Seq<notify::Error>,
) -> Seq<BatchView> {
    let first: Seq<BatchView> = if events.len() > 0 {
        seq![Ok(events)]
    } else {
        Seq::empty()
    };
    if errs.len() > 0 {
        first.push(Err(errs))
    } else {
        first
    }
}

/// The cache of paths awaiting emission, the quiet timeout, and the backend
/// errors waiting for the next tick.
pub struct DebounceDataInner {
    d: Vec<(String, EventData)>,
    timeout: u128,
    e: Vec<notify::Error>,
}

impl DebounceDataInner {
    /// The cached entries, in the order in which their paths first arrived.
    pub closed spec fn entries(&self) -> Seq<Entry> {
        self.d@.map_values(|x: (String, EventData)| (x.0@, x.1))
    }

    pub closed spec fn timeout_spec(&self) -> u128 {
        self.timeout
    }

    /// The buffered backend errors, oldest first.
    pub closed spec fn pending_errors(&self) -> Seq<notify::Error> {
        self.e@
    }

    /// Each cached path has one entry.
    pub open spec fn wf(&self) -> bool {
        keys_unique(self.entries())
    }

    /// An empty cache with the given quiet timeout, in nanoseconds.
    pub fn new(timeout: u128) -> (r: Self)
        ensures
            r.wf(),
            r.entries() == Seq::<Entry>::empty(),
            r.timeout_spec() == timeout,
            r.pending_errors() == Seq::<notify::Error>::empty(),
    {
        let r = Self { d: Vec::new(), timeout, e: Vec::new() };
        assert(r.entries() =~= Seq::<Entry>::empty());
        r
    }

    /// The quiet timeout, in nanoseconds.
    pub fn timeout(&self) -> (r: u128)
        ensures
            r == self.timeout_spec(),
    {
        self.timeout
    }

    /// The number of cached paths.
    pub fn len(&self) -> (r: usize)
        ensures
            r == self.entries().len(),
    {
        self.d.len()
    }

    /// The number of buffered backend errors.
    pub fn error_count(&self) -> (r: usize)
        ensures
            r == self.pending_errors().len(),
    {
        self.e.len()
    }

    /// Where the entry for `p` stands, if `p` is cached.
    fn find(&self, p: &String) -> (r: Option<usize>)
        ensures
            match r {
                Some(j) => j < self.entries().len() && self.entries()[j as int].0 == p@,
                None => !has_path(self.entries(), p@),
            },
    {
        let mut j: usize = 0;
        while j < self.d.len()
            invariant
                j <= self.d.len(),
                forall|k: int| 0 <= k < j ==> self.entries()[k].0 != p@,
            decreases self.d.len() - j,
        {
            if self.d[j].0 == *p {
                return Some(j);
            }
            j = j + 1;
        }
        None
    }

    /// The timing state of `p`, if `p` is cached.
    pub fn get(&self, p: &String) -> (r: Option<EventData>)
        requires
            self.wf(),
        ensures
            match r {
                Some(d) => self.entries().contains((p@, d)),
                None => !has_path(self.entries(), p@),
            },
    {
        match self.find(p) {
            Some(j) => {
                assert(self.entries()[j as int] == (p@, self.d@[j as int].1));
                Some(self.d[j].1)
            },
            None => None,
        }
    }

    /// Records a raw event naming `paths` at `now`: each cached path has its
    /// update time refreshed, each new one is cached with both times at `now`.
    pub fn add_event(&mut self, paths: Vec<String>, now: u128)
        requires
            old(self).wf(),
        ensures
            final(self).wf(),
            final(self).entries() == touch_all(
                old(self).entries(),
                paths@.map_values(|p: String| p@),
                now,
            ),
            final(self).timeout_spec() == old(self).timeout_spec(),
            final(self).pending_errors() == old(self).pending_errors(),
    {
        let ghost start = self.entries();
        let ghost views = paths@.map_values(|p: String| p@);
        let mut i: usize = 0;
        while i < paths.len()
            invariant
                i <= paths.len(),
                views == paths@.map_values(|p: String| p@),
                self.wf(),
                self.entries() == touch_all(start, views.take(i as int), now),
                self.timeout_spec() == old(self).timeout_spec(),
                self.pending_errors() == old(self).pending_errors(),
            decreases paths.len() - i,
        {
            let ghost before = self.entries();
            let p = &paths[i];
            proof {
                assert(views.take(i + 1).drop_last() =~= views.take(i as int));
                lemma_touch_unique(before, p@, now);
            }
            match self.find(p) {
                Some(j) => {
                    let insert = self.d[j].1.insert;
                    let key = self.d[j].0.clone();
                    self.d.set(j, (key, EventData { insert, update: now }));
                    proof {
                        assert(has_path(before, p@));
                        assert forall|k: int| 0 <= k < before.len() && k != j implies
                            #[trigger] before[k].0 != p@ by {
                            assert(before[j as int].0 == p@);
                        }
                        assert(self.entries() =~= touch(before, p@, now));
                    }
                },
                None => {
                    self.d.push((p.clone(), EventData::new_any(now)));
                    proof {
                        assert(self.entries() =~= touch(before, p@, now));
                    }
                },
            }
            i = i + 1;
        }
        proof {
            assert(views.take(paths.len() as int) =~= views);
        }
    }

    /// Buffers a backend error for the next tick.
    pub fn add_error(&mut self, e: notify::Error)
        ensures
            final(self).pending_errors() == old(self).pending_errors().push(e),
            final(self).entries() == old(self).entries(),
            final(self).timeout_spec() == old(self).timeout_spec(),
    {
        self.e.push(e);
    }

    /// Hands out all buffered backend errors, oldest first, and empties the
    /// buffer.
    pub fn errors(&mut self) -> (r: Vec<notify::Error>)
        ensures
            r@ == old(self).pending_errors(),
            final(self).pending_errors() == Seq::<notify::Error>::empty(),
            final(self).entries() == old(self).entries(),
            final(self).timeout_spec() == old(self).timeout_spec(),
    {
        let mut v = Vec::new();
        std::mem::swap(&mut v, &mut self.e);
        v
    }

    /// Evaluates every cached path once at `now`: a quiet path yields `Any`
    /// and leaves the cache, a path cached for the whole timeout but still
    /// active yields `AnyContinuous` and stays, any other path stays silently.
    pub fn debounced_events(&mut self, now: u128) -> (r: Vec<DebouncedEvent>)
        requires
            old(self).wf(),
        ensures
            final(self).wf(),
            r@.map_values(|ev: DebouncedEvent| ev@) == emitted(
                old(self).entries(),
                now,
                old(self).timeout_spec(),
            ),
            final(self).entries() == retained(old(self).entries(), now, old(self).timeout_spec()),
            final(self).timeout_spec() == old(self).timeout_spec(),
            final(self).pending_errors() == old(self).pending_errors(),
    {
        let ghost start = self.entries();
        let mut cached: Vec<(String, EventData)> = Vec::new();
        std::mem::swap(&mut cached, &mut self.d);
        assert(cached@.map_values(|x: (String, EventData)| (x.0@, x.1)) == start);
        let mut events: Vec<DebouncedEvent> = Vec::new();
        let mut i: usize = 0;
        while i < cached.len()
            invariant
                i <= cached.len(),
                cached@.map_values(|x: (String, EventData)| (x.0@, x.1)) == start,
                events@.map_values(|ev: DebouncedEvent| ev@) == emitted(
                    start.take(i as int),
                    now,
                    self.timeout,
                ),
                self.entries() == retained(start.take(i as int), now, self.timeout),
                self.timeout == old(self).timeout,
                self.e == old(self).e,
            decreases cached.len() - i,
        {
            let path = &cached[i].0;
            let d = cached[i].1;
            proof {
                assert(start.take(i + 1).drop_last() =~= start.take(i as int));
                assert(start.take(i + 1).last() == (path@, d));
            }
            let ghost ev_before = events@.map_values(|ev: DebouncedEvent| ev@);
            let ghost kept_before = self.entries();
            match verdict_of(d, now, self.timeout) {
                Some(kind) => {
                    events.push(DebouncedEvent::new(path.clone(), kind));
                    if kind == DebouncedEventKind::AnyContinuous {
                        self.d.push((path.clone(), d));
                    }
                },
                None => {
                    self.d.push((path.clone(), d));
                },
            }
            proof {
                assert(events@.map_values(|ev: DebouncedEvent| ev@) =~= emitted(
                    start.take(i + 1),
                    now,
                    self.timeout,
                ));
                assert(self.entries() =~= retained(start.take(i + 1), now, self.timeout));
            }
            i = i + 1;
        }
        proof {
            assert(start.take(cached.len() as int) =~= start);
            lemma_retained_unique(start, now, self.timeout);
        }
        events
    }

    /// Records what the watcher backend reported at `now`: the paths of a raw
    /// event, or an error.
    pub fn add_raw_event(&mut self, raw: Result<Vec<String>, notify::Error>, now: u128)
        requires
            old(self).wf(),
        ensures
            final(self).wf(),
            final(self).timeout_spec() == old(self).timeout_spec(),
            match raw {
                Ok(paths) => {
                    &&& final(self).entries() == touch_all(
                        old(self).entries(),
                        paths@.map_values(|p: String| p@),
                        now,
                    )
                    &&& final(self).pending_errors() == old(self).pending_errors()
                },
                Err(e) => {
                    &&& final(self).entries() == old(self).entries()
                    &&& final(self).pending_errors() == old(self).pending_errors().push(e)
                },
            },
    {
        match raw {
            Ok(paths) => self.add_event(paths, now),
            Err(e) => self.add_error(e),
        }
    }

    /// One tick at `now`: drains the ready events and the buffered errors and
    /// returns the consumer calls to make, in order.
    pub fn tick(&mut self, now: u128) -> (r: Vec<DebouncedEvents>)
        requires
            old(self).wf(),
        ensures
            final(self).wf(),
            r@.map_values(|b: DebouncedEvents| batch_view(b)) == batches(
                emitted(old(self).entries(), now, old(self).timeout_spec()),
                old(self).pending_errors(),
            ),
            final(self).entries() == retained(old(self).entries(), now, old(self).timeout_spec()),
            final(self).pending_errors() == Seq::<notify::Error>::empty(),
            final(self).timeout_spec() == old(self).timeout_spec(),
    {
        let events = self.debounced_events(now);
        let errs = self.errors();
        let ghost ev = events@.map_values(|ev: DebouncedEvent| ev@);
        let ghost er = errs@;
        let mut r: Vec<DebouncedEvents> = Vec::new();
        if events.len() > 0 {
            r.push(Ok(events));
        }
        if errs.len() > 0 {
            r.push(Err(errs));
        }
        assert(r@.map_values(|b: DebouncedEvents| batch_view(b)) =~= batches(ev, er));
        r
    }
}

} // verus!
