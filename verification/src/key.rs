//! What the caches ask of a key type.

use vstd::prelude::*;
use vstd::std_specs::cmp::PartialEqSpec;
use vstd::std_specs::hash::obeys_key_model;
use std::hash::Hash;

verus! {

/// Whether keys of type `K` can be looked up, compared and duplicated the
/// way the caches need them to be:
///
/// * `K` is a sound key for a hash table (its hash is a function of the key);
/// * `a == b` in running code holds exactly of identical keys;
/// * a clone of a key is identical to the key.
///
/// The integer types, `bool` and `char` meet all three.
pub open spec fn obeys_cache_key_model<K: Eq + Hash + Clone>() -> bool {
    &&& obeys_key_model::<K>()
    &&& <K as PartialEqSpec>::obeys_eq_spec()
    &&& forall|a: K, b: K| #[trigger] a.eq_spec(&b) <==> a == b
    &&& forall|a: K, b: K| #[trigger] cloned(a, b) ==> a == b
}

/// Compares two keys.
pub fn same_key<K: Eq + Hash + Clone>(a: &K, b: &K) -> (same: bool)
    requires
        obeys_cache_key_model::<K>(),
    ensures
        same == (*a == *b),
{
    *a == *b
}

/// Duplicates a key.
pub fn copy_key<K: Eq + Hash + Clone>(k: &K) -> (copy: K)
    requires
        obeys_cache_key_model::<K>(),
    ensures
        copy == *k,
{
    let copy = k.clone();
    assert(cloned(*k, copy));
    copy
}

} // verus!
