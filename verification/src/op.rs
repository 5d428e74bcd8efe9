//! The operations of a cache, as values.

use vstd::prelude::*;

verus! {

/// One call on a cache. Sequences of these stand for "any use of the
/// cache" in the properties proved of it.
pub enum Op<K, V> {
    /// `get(k)`.
    Get(K),
    /// `set(k, v)`.
    Put(K, V),
}

impl<K, V> Op<K, V> {
    /// The key that the operation is about.
    pub open spec fn key(self) -> K {
        match self {
            Op::Get(k) => k,
            Op::Put(k, _) => k,
        }
    }
}

} // verus!
