//! What can go wrong when a cache is made.

use vstd::prelude::*;

verus! {

/// Why a cache could not be made.
///
/// A key that is not in the cache is no error: `get` answers `None`.
#[derive(Clone, Copy, Debug, PartialEq, Eq, Structural)]
pub enum CacheError {
    /// The capacity asked for was zero: such a cache could never hold an
    /// entry.
    InvalidCapacity,
}

} // verus!
