use vstd::prelude::*;

verus! {

/// A debounced event kind.
#[derive(Clone, Copy, Debug, PartialEq, Eq, Hash, Structural)]
pub enum DebouncedEventKind {
    /// The path has been quiet for at least the timeout.
    Any,
    /// The path has been changing for at least the timeout and still is.
    AnyContinuous,
}

/// A debounced event.
///
/// Does not tell which kind of file system operation happened, only whether the
/// path went quiet or is still changing.
#[derive(Clone, Debug, PartialEq, Eq, Hash)]
pub struct DebouncedEvent {
    /// Event path
    pub path: String,
    /// Event kind
    pub kind: DebouncedEventKind,
}

impl View for DebouncedEvent {
    type V = (Seq<char>, DebouncedEventKind);

    open spec fn view(&self) -> (Seq<char>, DebouncedEventKind) {
        (self.path@, self.kind)
    }
}

impl DebouncedEvent {
    pub fn new(path: String, kind: DebouncedEventKind) -> (r: Self)
        ensures
            r.path == path,
            r.kind == kind,
    {
        Self { path, kind }
    }
}

/// Timing state of one cached path, in nanoseconds since the clock's origin.
#[derive(Clone, Copy, Debug, PartialEq, Eq, Structural)]
pub struct EventData {
    /// When the path entered the cache since its last `Any` emission.
    pub insert: u128,
    /// When the most recent raw event for the path arrived.
    pub update: u128,
}

impl EventData {
    /// The state of a path seen for the first time at `now`.
    pub fn new_any(now: u128) -> (r: Self)
        ensures
            r.insert == now,
            r.update == now,
    {
        Self { insert: now, update: now }
    }
}

/// Time from `since` to `now`; zero when `since` lies after `now`.
pub open spec fn elapsed(now: u128, since: u128) -> int {
    if now >= since {
        now - since
    } else {
        0
    }
}

/// What a tick at `now` makes of a path with timing `d`: `Any` once it has
/// been quiet for `timeout`, else `AnyContinuous` once it has been cached for
/// `timeout`, else nothing yet.
pub open spec fn verdict(d: EventData, now: u128, timeout: u128) -> Option<DebouncedEventKind> {
    if elapsed(now, d.update) >= timeout {
        Some(DebouncedEventKind::Any)
    } else if elapsed(now, d.insert) >= timeout {
        Some(DebouncedEventKind::AnyContinuous)
    } else {
        None
    }
}

pub(crate) fn elapsed_since(now: u128, since: u128) -> (r: u128)
    ensures
        r == elapsed(now, since),
{
    if now >= since {
        now - since
    } else {
        0
    }
}

pub(crate) fn verdict_of(d: EventData, now: u128, timeout: u128) -> (r: Option<DebouncedEventKind>)
    ensures
        r == verdict(d, now, timeout),
{
    if elapsed_since(now, d.update) >= timeout {
        Some(DebouncedEventKind::Any)
    } else if elapsed_since(now, d.insert) >= timeout {
        Some(DebouncedEventKind::AnyContinuous)
    } else {
        None
    }
}

} // verus!
