//! The hash map under both caches: std's `HashMap`, hashed with FNV-1a.

use vstd::prelude::*;
use vstd::std_specs::hash::builds_valid_hashers;
use std::collections::HashMap;
use fnv::FnvBuildHasher;
use fnv::FnvHashMap;

verus! {

/// `fnv::FnvHasher`, the FNV-1a hasher. Nothing is said of what is inside
/// it: it is only carried in the type of the map.
#[verifier::external_type_specification]
#[verifier::external_body]
pub struct ExFnvHasher(fnv::FnvHasher);

/// `std::hash::BuildHasherDefault`, the builder that makes each hasher with
/// `H::default()`. Nothing is said of what is inside it either.
#[verifier::external_type_specification]
#[verifier::external_body]
#[verifier::reject_recursive_types(H)]
pub struct ExBuildHasherDefault<H>(std::hash::BuildHasherDefault<H>);

/// Whether the hashers that `builder` builds fit the model that the
/// specifications of `HashMap` rest on: any two of them that are fed the
/// same bytes give the same digest.
///
/// A `FnvBuildHasher` holds no state, so this is a property of the type.
pub open spec fn builds_fnv_hashers(builder: FnvBuildHasher) -> bool {
    builds_valid_hashers::<FnvBuildHasher>()
}

/// `FnvBuildHasher::default()`, the builder of `fnv::FnvHasher`s.
///
/// Not proved, but read off the `fnv` crate: each hasher it builds starts
/// from the same fixed offset basis, `write` folds the bytes into the state
/// one by one (xor, then a wrapping multiplication by the FNV prime), and
/// `finish` returns the state. So the digest is a function of the bytes
/// written, which is what is claimed here.
#[verifier::external_body]
fn fnv_builder() -> (builder: FnvBuildHasher)
    ensures
        builds_fnv_hashers(builder),
{
    FnvBuildHasher::default()
}

/// `HashMap::with_capacity_and_hasher`: an empty map with room for at least
/// `capacity` entries, which hashes its keys with `hasher`.
///
/// The bound on `capacity` keeps the size of the table it allocates far
/// from overflowing.
pub assume_specification<K, V, S>[ HashMap::<K, V, S>::with_capacity_and_hasher ](
    capacity: usize,
    hasher: S,
) -> (map: HashMap<K, V, S>)
    requires
        capacity <= u16::MAX,
    ensures
        (map@ == Map::<K, V>::empty()),
;

/// An entry of the map, a value and its stamp, as the states show it.
pub open spec fn entry_of<V>(e: (V, u32)) -> (V, nat) {
    (e.0, e.1 as nat)
}

/// An empty FNV-hashed map with room for `capacity` entries.
pub fn new_map<K, V>(capacity: u16) -> (map: FnvHashMap<K, V>)
    ensures
        map@ == Map::<K, V>::empty(),
        builds_valid_hashers::<FnvBuildHasher>(),
{
    HashMap::with_capacity_and_hasher(capacity as usize, fnv_builder())
}

} // verus!
