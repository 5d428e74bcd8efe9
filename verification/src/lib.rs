//! A bounded key/value cache that discards the least recently used entry.
//!
//! Two caches share one interface (`initialize`, `get`, `set`):
//!
//! * [`Cache`] keeps, beside its map, the keys in order of recency, so that
//!   the entry to discard is always at the front of that order;
//! * [`ScanCache`] keeps the map alone and looks through all of it for the
//!   entry to discard.
//!
//! Each cache has a mathematical state as its view, every operation is
//! stated as a function or relation on those states, and the properties
//! that make the caches LRU caches are proved of the states in
//! [`recency::laws`] and [`scan::laws`].

pub mod error;
pub mod hashing;
pub mod key;
pub mod op;
pub mod recency;
pub mod scan;

pub use error::CacheError;
pub use op::Op;

pub use recency::cache::Cache;
pub use recency::state::RecencyState;
pub use scan::cache::ScanCache;
pub use scan::state::ScanState;


