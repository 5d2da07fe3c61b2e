//! Debouncing of file system change notifications.
//!
//! Raw notifications are collected per path in a cache ([`DebounceDataInner`]);
//! on each tick the cache is drained into at most one "changed" signal per
//! quiet path, plus a repeating "still changing" signal for paths under
//! sustained modification. Times are nanoseconds since a caller-chosen origin.
mod backend;
mod config;
mod event;
mod laws;
mod store;

pub use config::{tick_interval, ConfigError};
pub use laws::{continuous_law, error_batch_law, isolated_event_law, multi_path_law};
pub use event::{elapsed, verdict, DebouncedEvent, DebouncedEventKind, EventData};
pub use store::{
    batch_view, batches, emitted, has_path, keys_unique, retained, touch, touch_all, BatchView,
    DebounceDataInner, DebouncedEvents, Entry,
};
