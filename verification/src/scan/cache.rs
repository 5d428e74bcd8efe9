//! The cache itself: a hash map of entries, and nothing beside it.

use vstd::prelude::*;
use vstd::std_specs::hash::*;
use vstd::std_specs::iter::IteratorSpec;
use std::hash::Hash;
use fnv::FnvBuildHasher;
use fnv::FnvHashMap;
use crate::error::CacheError;
use crate::hashing::entry_of;
use crate::hashing::new_map;
use crate::key::obeys_cache_key_model;
use crate::key::copy_key;
use crate::scan::state::ScanState;

verus! {

/// A cache of at most `max` entries that discards the least recently used
/// one, found by looking through all entries.
///
/// `get` costs one lookup and one write; `set` costs a walk through the
/// whole map when it has to make room. `set` on a key that is present
/// overwrites the value and gives the key the current stamp.
pub struct ScanCache<K: Eq + Hash, V> {
    /// generation index
    g: u32,
    /// max capacity of the cache
    max: u16,
    /// cached items
    items: FnvHashMap<K, (V, u32)>,
}

impl<K: Eq + Hash, V> View for ScanCache<K, V> {
    type V = ScanState<K, V>;

    closed spec fn view(&self) -> ScanState<K, V> {
        ScanState {
            capacity: self.max as nat,
            generation: self.g as nat,
            entries: self.items@.map_values(|e: (V, u32)| entry_of(e)),
        }
    }
}

impl<K: Eq + Hash + Clone, V: Copy> ScanCache<K, V> {
    /// The part of the invariant that is about the map's hasher.
    pub closed spec fn hashed(&self) -> bool {
        builds_valid_hashers::<FnvBuildHasher>()
    }

    /// The invariant: the state is well formed, it fits the machine's
    /// integers, and keys behave.
    pub open spec fn wf(&self) -> bool {
        &&& self@.wf()
        &&& self@.capacity <= u16::MAX
        &&& self@.generation <= u32::MAX
        &&& obeys_cache_key_model::<K>()
        &&& self.hashed()
    }

    /// A new, empty cache for at most `max` entries.
    pub fn initialize(max: u16) -> (cache: Self)
        requires
            max > 0,
            obeys_cache_key_model::<K>(),
        ensures
            cache.wf(),
            cache@ == ScanState::<K, V>::init(max as nat),
    {
        let cache = ScanCache { g: 0, max, items: new_map(max) };
        proof {
            assert(cache@.entries =~= Map::empty());
        }
        cache
    }

    /// A new, empty cache for at most `max` entries, or
    /// `InvalidCapacity` if `max` is zero.
    pub fn try_initialize(max: u16) -> (made: Result<Self, CacheError>)
        requires
            obeys_cache_key_model::<K>(),
        ensures
            max == 0 ==> made == Err::<Self, CacheError>(CacheError::InvalidCapacity),
            max > 0 ==> made is Ok && made->Ok_0.wf() && made->Ok_0@ == ScanState::<K, V>::init(
                max as nat,
            ),
    {
        if max == 0 {
            Err(CacheError::InvalidCapacity)
        } else {
            Ok(Self::initialize(max))
        }
    }

    /// The number of entries.
    pub fn len(&self) -> (n: usize)
        requires
            self.wf(),
        ensures
            n == self@.len(),
    {
        proof {
            assert(self@.entries.dom() =~= self.items@.dom());
        }
        self.items.len()
    }

    /// The capacity.
    pub fn max(&self) -> (max: u16)
        ensures
            max == self@.capacity,
    {
        self.max
    }

    /// The generation counter.
    pub fn generation(&self) -> (g: u32)
        ensures
            g == self@.generation,
    {
        self.g
    }

    /// Looks `k` up. On a hit the key becomes the most recently used one:
    /// it gets a fresh stamp.
    ///
    /// The generation counter must have room for one more stamp.
    pub fn get(&mut self, k: K) -> (found: Option<V>)
        requires
            old(self).wf(),
            old(self)@.generation < u32::MAX,
        ensures
            final(self).wf(),
            final(self)@ == old(self)@.get(k).0,
            found == old(self)@.get(k).1,
    {
        let entry = match self.items.get(&k) {
            Some(e) => Some(*e),
            None => None,
        };
        match entry {
            None => None,
            Some((v, _)) => {
                let recency = self.g + 1;
                self.items.insert(k, (v, recency));
                self.g = recency;
                proof {
                    assert(self@.entries =~= old(self)@.touch(k).entries);
                    old(self)@.lemma_get_wf(k);
                }
                Some(v)
            },
        }
    }

    /// A key of the smallest stamp, the first such that the walk through
    /// the map meets; `None` if the map is empty.
    fn oldest(&self) -> (found: Option<K>)
        requires
            self.wf(),
        ensures
            match found {
                Some(key) => self@.least_recent(key),
                None => self@.len() == 0,
            },
    {
        let mut best: Option<(&K, u32)> = None;
        for pair in it: self.items.iter()
            invariant
                self.wf(),
                it.seq() == spec_hash_map_iter(&self.items).remaining(),
                match best {
                    None => it.index() == 0,
                    Some((key, stamp)) => {
                        &&& self.items@.contains_key(*key)
                        &&& self.items@[*key].1 == stamp
                        &&& forall|i: int| 0 <= i < it.index() ==> stamp <= (#[trigger] it.seq()[i]).1.1
                    },
                },
        {
            let (key, entry) = pair;
            let better = match best {
                None => true,
                Some((_, stamp)) => entry.1 < stamp,
            };
            if better {
                best = Some((key, entry.1));
            }
        }
        match best {
            None => {
                proof {
                    assert(self@.entries.dom() =~= self.items@.dom());
                }
                None
            },
            Some((key, stamp)) => {
                proof {
                    let all = spec_hash_map_iter(&self.items).remaining();
                    assert forall|x: K| #[trigger] self@.contains(x) implies self@.stamp(*key)
                        <= self@.stamp(x) by {
                        assert(self.items@.contains_key(x));
                        assert(all.contains((&x, &self.items@[x])));
                        let i = choose|i: int| 0 <= i < all.len() && all[i] == (&x, &self.items@[x]);
                        assert(stamp <= all[i].1.1);
                    }
                }
                Some(copy_key(key))
            },
        }
    }

    /// Stores `v` under `k`. A key that is present is overwritten; for a
    /// new key in a full cache a least recently used entry is discarded
    /// first.
    pub fn set(&mut self, k: K, v: V)
        requires
            old(self).wf(),
        ensures
            final(self).wf(),
            old(self)@.set_gives(k, v, final(self)@),
    {
        proof {
            assert(self@.entries.dom() =~= self.items@.dom());
        }
        let ghost mut gone: Option<K> = None;
        if !self.items.contains_key(&k) && self.items.len() + 1 > self.max as usize {
            match self.oldest() {
                Some(key) => {
                    self.items.remove(&key);
                    proof {
                        gone = Some(key);
                        assert(self@.entries =~= old(self)@.without(key).entries);
                    }
                },
                None => {},
            }
        }
        self.items.insert(k, (v, self.g));
        proof {
            let before = old(self)@;
            if before.needs_room(k) {
                let key = gone->Some_0;
                assert(gone is Some);
                assert(self@.entries =~= before.without(key).store(k, v).entries);
                assert(before.least_recent(key) && self@ == before.without(key).store(k, v));
            } else {
                assert(self@.entries =~= before.store(k, v).entries);
            }
            before.lemma_set_wf(k, v, self@);
        }
    }
}

} // verus!
