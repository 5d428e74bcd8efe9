//! The mathematical state of the cache without an index, and its
//! operations on states.

use vstd::prelude::*;
use crate::op::Op;

verus! {

/// What a [`ScanCache`](crate::ScanCache) holds, as mathematics.
#[verifier::reject_recursive_types(K)]
pub struct ScanState<K, V> {
    /// How many entries the cache may hold.
    pub capacity: nat,
    /// The generation counter: the greatest stamp handed out by a `get`.
    pub generation: nat,
    /// The entries: for each present key, its value and its stamp.
    pub entries: Map<K, (V, nat)>,
}

impl<K, V> ScanState<K, V> {
    /// The empty cache of the given capacity, at generation 0.
    pub open spec fn init(capacity: nat) -> Self {
        ScanState { capacity, generation: 0, entries: Map::empty() }
    }

    /// Whether `k` is present.
    pub open spec fn contains(self, k: K) -> bool {
        self.entries.contains_key(k)
    }

    /// The value stored under a present key.
    pub open spec fn value(self, k: K) -> V {
        self.entries[k].0
    }

    /// The recency stamp of a present key.
    pub open spec fn stamp(self, k: K) -> nat {
        self.entries[k].1
    }

    /// The number of present keys.
    pub open spec fn len(self) -> nat {
        self.entries.dom().len()
    }

    /// The invariant of the cache: the capacity is positive and never
    /// exceeded, and no stamp is ahead of the generation counter.
    pub open spec fn wf(self) -> bool {
        &&& self.capacity > 0
        &&& self.entries.dom().finite()
        &&& self.len() <= self.capacity
        &&& forall|k: K| #[trigger] self.contains(k) ==> self.stamp(k) <= self.generation
    }

    /// The state after a hit on `k`: the key gets a fresh stamp, one more
    /// than the generation counter, and the counter moves up to it.
    pub open spec fn touch(self, k: K) -> Self {
        let stamp = self.generation + 1;
        ScanState {
            capacity: self.capacity,
            generation: stamp,
            entries: self.entries.insert(k, (self.value(k), stamp)),
        }
    }

    /// `get(k)`: the state it leaves and the answer it gives. A miss
    /// changes nothing.
    pub open spec fn get(self, k: K) -> (Self, Option<V>) {
        if self.contains(k) {
            (self.touch(k), Some(self.value(k)))
        } else {
            (self, None)
        }
    }

    /// Whether `k` is a present key that no present key is older than.
    pub open spec fn least_recent(self, k: K) -> bool {
        &&& self.contains(k)
        &&& forall|x: K| #[trigger] self.contains(x) ==> self.stamp(k) <= self.stamp(x)
    }

    /// Whether `set(k, ..)` has to discard an entry first: `k` is new and
    /// the cache is full.
    pub open spec fn needs_room(self, k: K) -> bool {
        !self.contains(k) && self.len() >= self.capacity
    }

    /// The state without the key `gone`.
    pub open spec fn without(self, gone: K) -> Self {
        ScanState {
            capacity: self.capacity,
            generation: self.generation,
            entries: self.entries.remove(gone),
        }
    }

    /// The state with `v` under `k`, stamped with the generation counter as
    /// it stands, whether or not `k` was present.
    pub open spec fn store(self, k: K, v: V) -> Self {
        ScanState {
            capacity: self.capacity,
            generation: self.generation,
            entries: self.entries.insert(k, (v, self.generation)),
        }
    }

    /// `set(k, v)` may leave the state `next`.
    ///
    /// A key that is present is overwritten and takes the current stamp. A
    /// new key comes in, after a least recent key has gone if the cache was
    /// full. Which of several keys that share the smallest stamp goes is
    /// left open: it is the one that the walk through the map meets first.
    pub open spec fn set_gives(self, k: K, v: V, next: Self) -> bool {
        if self.needs_room(k) {
            exists|gone: K| #[trigger] self.least_recent(gone) && next == self.without(gone).store(k, v)
        } else {
            next == self.store(k, v)
        }
    }

    /// One operation may lead from this state to `next`.
    pub open spec fn step(self, op: Op<K, V>, next: Self) -> bool {
        match op {
            Op::Get(k) => next == self.get(k).0,
            Op::Put(k, v) => self.set_gives(k, v, next),
        }
    }

    /// `states` is a course that the cache may take under `ops`: it starts
    /// in `states[0]`, and operation `i` leads from `states[i]` to
    /// `states[i + 1]`.
    pub open spec fn course(states: Seq<Self>, ops: Seq<Op<K, V>>) -> bool {
        &&& states.len() == ops.len() + 1
        &&& forall|i: int| 0 <= i < ops.len() ==> (#[trigger] states[i]).step(ops[i], states[i + 1])
    }

    /// The empty cache is well formed.
    pub proof fn lemma_init_wf(capacity: nat)
        requires
            capacity > 0,
        ensures
            Self::init(capacity).wf(),
    {
    }

    /// `get` keeps the invariant.
    pub proof fn lemma_get_wf(self, k: K)
        requires
            self.wf(),
        ensures
            self.get(k).0.wf(),
    {
        if self.contains(k) {
            let next = self.touch(k);
            assert(next.entries.dom() =~= self.entries.dom());
            assert forall|x: K| #[trigger] next.contains(x) implies next.stamp(x)
                <= next.generation by {
                if x != k {
                    assert(self.contains(x));
                }
            }
        }
    }

    /// Without one of its keys a cache is well formed and one entry
    /// smaller.
    pub proof fn lemma_without_wf(self, gone: K)
        requires
            self.wf(),
            self.contains(gone),
        ensures
            self.without(gone).wf(),
            self.without(gone).len() == self.len() - 1,
    {
        let next = self.without(gone);
        assert(next.entries.dom() =~= self.entries.dom().remove(gone));
        assert forall|x: K| #[trigger] next.contains(x) implies next.stamp(x)
            <= next.generation by {
            assert(self.contains(x));
        }
    }

    /// Storing keeps the invariant where the key is present or there is
    /// room.
    pub proof fn lemma_store_wf(self, k: K, v: V)
        requires
            self.wf(),
            self.contains(k) || self.len() < self.capacity,
        ensures
            self.store(k, v).wf(),
    {
        let next = self.store(k, v);
        assert(next.entries.dom() =~= self.entries.dom().insert(k));
        assert forall|x: K| #[trigger] next.contains(x) implies next.stamp(x)
            <= next.generation by {
            if x != k {
                assert(self.contains(x));
            }
        }
    }

    /// `set` keeps the invariant, whichever state it leaves.
    pub proof fn lemma_set_wf(self, k: K, v: V, next: Self)
        requires
            self.wf(),
            self.set_gives(k, v, next),
        ensures
            next.wf(),
    {
        if self.needs_room(k) {
            let gone = choose|gone: K| #[trigger]
                self.least_recent(gone) && next == self.without(gone).store(k, v);
            self.lemma_without_wf(gone);
            self.without(gone).lemma_store_wf(k, v);
        } else {
            self.lemma_store_wf(k, v);
        }
    }
}

} // verus!
