//! The cache itself: a hash map of entries and a deque of keys in order of
//! recency.

use vstd::prelude::*;
use vstd::std_specs::hash::*;
use std::collections::VecDeque;
use std::hash::Hash;
use fnv::FnvBuildHasher;
use fnv::FnvHashMap;
use crate::error::CacheError;
use crate::hashing::entry_of;
use crate::hashing::new_map;
use crate::key::obeys_cache_key_model;
use crate::key::same_key;
use crate::key::copy_key;
use crate::recency::state::RecencyState;

verus! {

/// A cache of at most `max` entries that discards the least recently used
/// one, found at the front of its recency index.
///
/// `get` costs a binary search in the index and the removal of one place
/// from it; `set` finds the entry to discard in constant time. `set` on a
/// key that is present changes nothing: the key keeps its value and its
/// recency.
pub struct Cache<K: Eq + Hash, V> {
    /// generation index
    g: u32,
    /// max capacity of the cache
    max: u16,
    /// cached items
    items: FnvHashMap<K, (V, u32)>,
    /// stamps and keys, oldest first
    recency_buckets: VecDeque<(u32, K)>,
}

/// A place of the index as the state shows it.
pub open spec fn place_of<K>(p: (u32, K)) -> (nat, K) {
    (p.0 as nat, p.1)
}

impl<K: Eq + Hash, V> View for Cache<K, V> {
    type V = RecencyState<K, V>;

    closed spec fn view(&self) -> RecencyState<K, V> {
        RecencyState {
            capacity: self.max as nat,
            generation: self.g as nat,
            entries: self.items@.map_values(|e: (V, u32)| entry_of(e)),
            index: self.recency_buckets@.map_values(|p: (u32, K)| place_of(p)),
        }
    }
}

impl<K: Eq + Hash + Clone, V: Copy> Cache<K, V> {
    /// The part of the invariant that is about the map's hasher.
    pub closed spec fn hashed(&self) -> bool {
        builds_valid_hashers::<FnvBuildHasher>()
    }

    /// The invariant: the state is well formed, it fits the machine's
    /// integers, and keys behave.
    pub open spec fn wf(&self) -> bool {
        &&& self@.wf()
        &&& self@.capacity <= u16::MAX
        &&& self@.generation <= u32::MAX
        &&& obeys_cache_key_model::<K>()
        &&& self.hashed()
    }

    /// A new, empty cache for at most `max` entries.
    pub fn initialize(max: u16) -> (cache: Self)
        requires
            max > 0,
            obeys_cache_key_model::<K>(),
        ensures
            cache.wf(),
            cache@ == RecencyState::<K, V>::init(max as nat),
    {
        let cache = Cache {
            g: 0,
            max,
            items: new_map(max),
            recency_buckets: VecDeque::with_capacity(max as usize),
        };
        proof {
            assert(cache@.entries =~= Map::empty());
            assert(cache@.index =~= Seq::empty());
        }
        cache
    }

    /// A new, empty cache for at most `max` entries, or
    /// `InvalidCapacity` if `max` is zero.
    pub fn try_initialize(max: u16) -> (made: Result<Self, CacheError>)
        requires
            obeys_cache_key_model::<K>(),
        ensures
            max == 0 ==> made == Err::<Self, CacheError>(CacheError::InvalidCapacity),
            max > 0 ==> made is Ok && made->Ok_0.wf() && made->Ok_0@ == RecencyState::<K, V>::init(
                max as nat,
            ),
    {
        if max == 0 {
            Err(CacheError::InvalidCapacity)
        } else {
            Ok(Self::initialize(max))
        }
    }

    /// The number of entries.
    pub fn len(&self) -> (n: usize)
        requires
            self.wf(),
        ensures
            n == self@.len(),
    {
        proof {
            assert(self@.entries.dom() =~= self.items@.dom());
        }
        self.items.len()
    }

    /// The capacity.
    pub fn max(&self) -> (max: u16)
        ensures
            max == self@.capacity,
    {
        self.max
    }

    /// The generation counter.
    pub fn generation(&self) -> (g: u32)
        ensures
            g == self@.generation,
    {
        self.g
    }

    /// The place in the index of the present key `k`, whose stamp is
    /// `stamp`: a binary search for the first place with that stamp, then a
    /// walk along the places that share it.
    fn locate(&self, stamp: u32, k: &K) -> (idx: usize)
        requires
            self.wf(),
            self@.contains(*k),
            self@.stamp(*k) == stamp,
        ensures
            idx < self.recency_buckets@.len(),
            idx == self@.position(*k),
    {
        let ghost p = self@.position(*k);
        proof {
            self@.lemma_position(*k);
            assert(self@.index[p] == place_of(self.recency_buckets@[p]));
        }
        let n = self.recency_buckets.len();
        proof {
            assert forall|i: int, j: int| 0 <= i <= j < n implies self.recency_buckets@[i].0
                <= self.recency_buckets@[j].0 by {
                assert(self@.index[i] == place_of(self.recency_buckets@[i]));
                assert(self@.index[j] == place_of(self.recency_buckets@[j]));
            }
        }
        let mut lo: usize = 0;
        let mut hi: usize = n;
        while lo < hi
            invariant
                self.wf(),
                n == self.recency_buckets@.len(),
                0 <= lo <= hi <= n,
                0 <= p < n,
                self.recency_buckets@[p] == (stamp, *k),
                forall|i: int, j: int|
                    0 <= i <= j < n ==> self.recency_buckets@[i].0 <= self.recency_buckets@[j].0,
                forall|i: int| 0 <= i < lo ==> (#[trigger] self.recency_buckets@[i]).0 < stamp,
                forall|i: int| hi <= i < n ==> (#[trigger] self.recency_buckets@[i]).0 >= stamp,
            decreases hi - lo,
        {
            let mid = lo + (hi - lo) / 2;
            if self.recency_buckets[mid].0 < stamp {
                lo = mid + 1;
            } else {
                hi = mid;
            }
        }
        let mut i: usize = lo;
        while !same_key(&self.recency_buckets[i].1, k)
            invariant
                self.wf(),
                n == self.recency_buckets@.len(),
                lo <= i <= p < n,
                self.recency_buckets@[p] == (stamp, *k),
            decreases p - i,
        {
            i = i + 1;
        }
        proof {
            assert(self@.index[i as int] == place_of(self.recency_buckets@[i as int]));
            assert(self@.at(i as int, *k));
        }
        i
    }

    /// Looks `k` up. On a hit the key becomes the most recently used one:
    /// it gets a fresh stamp and moves to the back of the index.
    ///
    /// The generation counter must have room for one more stamp.
    pub fn get(&mut self, k: K) -> (found: Option<V>)
        requires
            old(self).wf(),
            old(self)@.generation < u32::MAX,
        ensures
            final(self).wf(),
            final(self)@ == old(self)@.get(k).0,
            found == old(self)@.get(k).1,
    {
        let entry = match self.items.get(&k) {
            Some(e) => Some(*e),
            None => None,
        };
        match entry {
            None => None,
            Some((v, stamp)) => {
                let recency = self.g + 1;
                // update recency info for the key
                // keeping it sorted allows O(1) expiry later
                let idx = self.locate(stamp, &k);
                let moved = if idx == 0 {
                    self.recency_buckets.pop_front()
                } else {
                    // worst case is (O(N / 2)) since it shift on the shorter side
                    self.recency_buckets.remove(idx)
                };
                match moved {
                    Some((_, key)) => {
                        self.recency_buckets.push_back((recency, key));
                    },
                    None => {},
                }
                self.items.insert(k, (v, recency));
                self.g = recency;
                proof {
                    let before = old(self)@;
                    before.lemma_position(k);
                    assert(before.index[idx as int] == place_of(
                        old(self).recency_buckets@[idx as int],
                    ));
                    assert(old(self).recency_buckets@.subrange(1, old(self).recency_buckets@.len() as int)
                        =~= old(self).recency_buckets@.remove(0));
                    assert(self@.entries =~= before.touch(k).entries);
                    assert(self@.index =~= before.touch(k).index);
                    before.lemma_touch_wf(k);
                }
                Some(v)
            },
        }
    }

    /// Stores `v` under `k` if `k` is not present, after discarding the
    /// least recently used entry if the cache is full. If `k` is present,
    /// nothing changes.
    pub fn set(&mut self, k: K, v: V)
        requires
            old(self).wf(),
        ensures
            final(self).wf(),
            final(self)@ == old(self)@.set(k, v),
    {
        proof {
            assert(self@.entries.dom() =~= self.items@.dom());
        }
        if self.items.contains_key(&k) {
            return ;
        }
        // evict
        if self.items.len() + 1 > self.max as usize {
            proof {
                self@.lemma_victim();
                assert(self@.index[0] == place_of(self.recency_buckets@[0]));
            }
            match self.recency_buckets.pop_front() {
                Some(evict) => {
                    self.items.remove(&evict.1);
                },
                None => {},
            }
            proof {
                let before = old(self)@;
                assert(self@.entries =~= before.evict().entries);
                assert(self@.index =~= before.evict().index);
                before.lemma_evict_wf();
            }
        }
        let ghost room = self@;
        self.recency_buckets.push_back((self.g, copy_key(&k)));
        self.items.insert(k, (v, self.g));
        proof {
            assert(self@.entries =~= room.place(k, v).entries);
            assert(self@.index =~= room.place(k, v).index);
            room.lemma_place_wf(k, v);
        }
    }
}

} // verus!
