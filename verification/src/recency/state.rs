//! The mathematical state of the cache with a recency index, and its
//! operations as functions on states.

use vstd::prelude::*;
use crate::op::Op;

verus! {

/// What a [`Cache`](crate::Cache) holds, as mathematics.
///
/// Each entry carries the stamp of its last use; `index` lists the same
/// stamps and keys again, oldest first.
#[verifier::reject_recursive_types(K)]
pub struct RecencyState<K, V> {
    /// How many entries the cache may hold.
    pub capacity: nat,
    /// The generation counter: the greatest stamp handed out by a `get`.
    pub generation: nat,
    /// The entries: for each present key, its value and its stamp.
    pub entries: Map<K, (V, nat)>,
    /// The recency index, front first: a stamp and the key that bears it.
    pub index: Seq<(nat, K)>,
}

/// The place in a sequence of what stands at place `i` once place `p` has
/// been taken out.
pub open spec fn past(p: int, i: int) -> int {
    if i < p {
        i
    } else {
        i + 1
    }
}

impl<K, V> RecencyState<K, V> {
    /// The empty cache of the given capacity, at generation 0.
    pub open spec fn init(capacity: nat) -> Self {
        RecencyState { capacity, generation: 0, entries: Map::empty(), index: Seq::empty() }
    }

    /// Whether `k` is present.
    pub open spec fn contains(self, k: K) -> bool {
        self.entries.contains_key(k)
    }

    /// The value stored under a present key.
    pub open spec fn value(self, k: K) -> V {
        self.entries[k].0
    }

    /// The recency stamp of a present key.
    pub open spec fn stamp(self, k: K) -> nat {
        self.entries[k].1
    }

    /// The number of present keys.
    pub open spec fn len(self) -> nat {
        self.entries.dom().len()
    }

    /// Whether place `i` of the index belongs to key `k`.
    pub open spec fn at(self, i: int, k: K) -> bool {
        0 <= i < self.index.len() && self.index[i].1 == k
    }

    /// The place of a present key in the index.
    pub open spec fn position(self, k: K) -> int {
        choose|i: int| self.at(i, k)
    }

    /// The index is in order: stamps never decrease from front to back.
    pub open spec fn sorted(self) -> bool {
        forall|i: int, j: int|
            0 <= i <= j < self.index.len() ==> self.index[i].0 <= self.index[j].0
    }

    /// No key stands in the index twice.
    pub open spec fn distinct(self) -> bool {
        forall|i: int, j: int|
            0 <= i < j < self.index.len() ==> self.index[i].1 != self.index[j].1
    }

    /// Every place of the index names a present key and the stamp that the
    /// key's entry bears.
    pub open spec fn faithful(self) -> bool {
        forall|i: int|
            0 <= i < self.index.len() ==> {
                &&& self.entries.contains_key((#[trigger] self.index[i]).1)
                &&& self.entries[self.index[i].1].1 == self.index[i].0
            }
    }

    /// Every present key has a place in the index.
    pub open spec fn complete(self) -> bool {
        forall|k: K| #[trigger] self.entries.contains_key(k) ==> exists|i: int| self.at(i, k)
    }

    /// No stamp is ahead of the generation counter.
    pub open spec fn stamps_bounded(self) -> bool {
        forall|i: int| 0 <= i < self.index.len() ==> (#[trigger] self.index[i]).0 <= self.generation
    }

    /// The invariant of the cache.
    ///
    /// The capacity is positive and never exceeded, and the index holds
    /// exactly one place for each present key, with the key's own stamp, in
    /// order of stamps.
    pub open spec fn wf(self) -> bool {
        &&& self.capacity > 0
        &&& self.entries.dom().finite()
        &&& self.len() <= self.capacity
        &&& self.index.len() == self.len()
        &&& self.sorted()
        &&& self.distinct()
        &&& self.faithful()
        &&& self.complete()
        &&& self.stamps_bounded()
    }

    /// The state after a hit on `k`: the key gets a fresh stamp, one more
    /// than the generation counter, the counter moves up to it, and the
    /// key's place in the index moves to the back.
    pub open spec fn touch(self, k: K) -> Self {
        let stamp = self.generation + 1;
        RecencyState {
            capacity: self.capacity,
            generation: stamp,
            entries: self.entries.insert(k, (self.value(k), stamp)),
            index: self.index.remove(self.position(k)).push((stamp, k)),
        }
    }

    /// `get(k)`: the state it leaves and the answer it gives. A miss
    /// changes nothing.
    pub open spec fn get(self, k: K) -> (Self, Option<V>) {
        if self.contains(k) {
            (self.touch(k), Some(self.value(k)))
        } else {
            (self, None)
        }
    }

    /// The key that goes when room is needed: the one at the front of the
    /// index. Among keys of equal stamp, that is the one that got the stamp
    /// first.
    pub open spec fn victim(self) -> K {
        self.index[0].1
    }

    /// The state without its victim.
    pub open spec fn evict(self) -> Self {
        RecencyState {
            capacity: self.capacity,
            generation: self.generation,
            entries: self.entries.remove(self.victim()),
            index: self.index.drop_first(),
        }
    }

    /// The state with a new entry for the absent key `k`, stamped with the
    /// generation counter as it stands.
    pub open spec fn place(self, k: K, v: V) -> Self {
        RecencyState {
            capacity: self.capacity,
            generation: self.generation,
            entries: self.entries.insert(k, (v, self.generation)),
            index: self.index.push((self.generation, k)),
        }
    }

    /// Whether a new key can come in only after another has gone.
    pub open spec fn full(self) -> bool {
        self.len() >= self.capacity
    }

    /// `set(k, v)`: the state it leaves. A key that is present keeps its
    /// value and its stamp; a new key comes in at the back of the index,
    /// after the victim has gone if the cache was full.
    pub open spec fn set(self, k: K, v: V) -> Self {
        if self.contains(k) {
            self
        } else if self.full() {
            self.evict().place(k, v)
        } else {
            self.place(k, v)
        }
    }

    /// The state after one operation.
    pub open spec fn apply(self, op: Op<K, V>) -> Self {
        match op {
            Op::Get(k) => self.get(k).0,
            Op::Put(k, v) => self.set(k, v),
        }
    }

    /// The state after a sequence of operations, first to last.
    pub open spec fn run(self, ops: Seq<Op<K, V>>) -> Self
        decreases ops.len(),
    {
        if ops.len() == 0 {
            self
        } else {
            self.run(ops.drop_last()).apply(ops.last())
        }
    }

    /// A present key has exactly one place in the index, and that place
    /// shows the key's stamp.
    pub proof fn lemma_position(self, k: K)
        requires
            self.wf(),
            self.contains(k),
        ensures
            self.at(self.position(k), k),
            self.index[self.position(k)] == (self.stamp(k), k),
            forall|i: int| self.at(i, k) ==> i == self.position(k),
    {
        let p = self.position(k);
        assert(self.at(p, k));
        assert forall|i: int| self.at(i, k) implies i == p by {
            if i < p {
                assert(self.index[i].1 != self.index[p].1);
            } else if p < i {
                assert(self.index[p].1 != self.index[i].1);
            }
        }
    }

    /// The empty cache is well formed.
    pub proof fn lemma_init_wf(capacity: nat)
        requires
            capacity > 0,
        ensures
            Self::init(capacity).wf(),
    {
    }

    /// A hit keeps the invariant.
    pub proof fn lemma_touch_wf(self, k: K)
        requires
            self.wf(),
            self.contains(k),
        ensures
            self.touch(k).wf(),
    {
        let p = self.position(k);
        let next = self.touch(k);
        let rest = self.index.remove(p);
        let last = rest.len() as int;
        self.lemma_position(k);
        assert(next.entries.dom() =~= self.entries.dom());
        assert forall|i: int| 0 <= i < rest.len() implies rest[i] == self.index[past(p, i)] by {}
        assert(next.index[last] == (next.generation, k));
        assert forall|i: int| 0 <= i < last implies next.index[i] == rest[i] by {}
        assert forall|i: int| 0 <= i < last implies (#[trigger] next.index[i]).1 != k by {
            let j = past(p, i);
            assert(next.index[i] == self.index[j]);
            if self.index[j].1 == k {
                assert(self.at(j, k));
            }
        }
        assert(next.sorted()) by {
            assert forall|i: int, j: int| 0 <= i <= j < next.index.len() implies next.index[i].0
                <= next.index[j].0 by {
                let a = past(p, i);
                let b = past(p, j);
                if j < last {
                    assert(next.index[i] == self.index[a]);
                    assert(next.index[j] == self.index[b]);
                } else if i < last {
                    assert(next.index[i] == self.index[a]);
                }
            }
        }
        assert(next.distinct()) by {
            assert forall|i: int, j: int| 0 <= i < j < next.index.len() implies next.index[i].1
                != next.index[j].1 by {
                let a = past(p, i);
                let b = past(p, j);
                if j < last {
                    assert(next.index[i] == self.index[a]);
                    assert(next.index[j] == self.index[b]);
                }
            }
        }
        assert(next.faithful()) by {
            assert forall|i: int| 0 <= i < next.index.len() implies {
                &&& next.entries.contains_key((#[trigger] next.index[i]).1)
                &&& next.entries[next.index[i].1].1 == next.index[i].0
            } by {
                if i < last {
                    let a = past(p, i);
                    assert(next.index[i] == self.index[a]);
                }
            }
        }
        assert(next.complete()) by {
            assert forall|x: K| #[trigger] next.entries.contains_key(x) implies exists|i: int|
                next.at(i, x) by {
                if x == k {
                    assert(next.at(last, x));
                } else {
                    let q = self.position(x);
                    self.lemma_position(x);
                    let i = if q < p {
                        q
                    } else {
                        q - 1
                    };
                    assert(next.index[i] == self.index[q]);
                    assert(next.at(i, x));
                }
            }
        }
        assert(next.stamps_bounded()) by {
            assert forall|i: int| 0 <= i < next.index.len() implies (#[trigger] next.index[i]).0
                <= next.generation by {
                if i < last {
                    let a = past(p, i);
                    assert(next.index[i] == self.index[a]);
                }
            }
        }
    }

    /// A full cache has a victim, and the victim is a present key.
    pub proof fn lemma_victim(self)
        requires
            self.wf(),
            self.full(),
        ensures
            self.index.len() > 0,
            self.contains(self.victim()),
            self.position(self.victim()) == 0,
    {
        assert(self.at(0, self.victim()));
        self.lemma_position(self.victim());
    }

    /// Without its victim a full cache is well formed and has room.
    pub proof fn lemma_evict_wf(self)
        requires
            self.wf(),
            self.full(),
        ensures
            self.evict().wf(),
            self.evict().len() == self.len() - 1,
            !self.evict().contains(self.victim()),
    {
        let next = self.evict();
        let gone = self.victim();
        self.lemma_victim();
        assert(next.entries.dom() =~= self.entries.dom().remove(gone));
        assert forall|i: int| 0 <= i < next.index.len() implies next.index[i] == self.index[i
            + 1] by {}
        assert(next.faithful()) by {
            assert forall|i: int| 0 <= i < next.index.len() implies {
                &&& next.entries.contains_key((#[trigger] next.index[i]).1)
                &&& next.entries[next.index[i].1].1 == next.index[i].0
            } by {
                assert(next.index[i] == self.index[i + 1]);
                assert(self.index[0].1 != self.index[i + 1].1);
            }
        }
        assert(next.complete()) by {
            assert forall|x: K| #[trigger] next.entries.contains_key(x) implies exists|i: int|
                next.at(i, x) by {
                let q = self.position(x);
                self.lemma_position(x);
                assert(next.index[q - 1] == self.index[q]);
                assert(next.at(q - 1, x));
            }
        }
        assert(next.sorted()) by {
            assert forall|i: int, j: int| 0 <= i <= j < next.index.len() implies next.index[i].0
                <= next.index[j].0 by {
                assert(next.index[i] == self.index[i + 1]);
                assert(next.index[j] == self.index[j + 1]);
            }
        }
        assert(next.distinct()) by {
            assert forall|i: int, j: int| 0 <= i < j < next.index.len() implies next.index[i].1
                != next.index[j].1 by {
                assert(next.index[i] == self.index[i + 1]);
                assert(next.index[j] == self.index[j + 1]);
            }
        }
        assert(next.stamps_bounded()) by {
            assert forall|i: int| 0 <= i < next.index.len() implies (#[trigger] next.index[i]).0
                <= next.generation by {
                assert(next.index[i] == self.index[i + 1]);
            }
        }
    }

    /// A new key comes into a cache with room and leaves it well formed.
    pub proof fn lemma_place_wf(self, k: K, v: V)
        requires
            self.wf(),
            !self.contains(k),
            self.len() < self.capacity,
        ensures
            self.place(k, v).wf(),
            self.place(k, v).len() == self.len() + 1,
    {
        let next = self.place(k, v);
        let last = self.index.len() as int;
        assert(next.entries.dom() =~= self.entries.dom().insert(k));
        assert forall|i: int| 0 <= i < last implies next.index[i] == self.index[i] by {}
        assert(next.index[last] == (self.generation, k));
        assert(next.complete()) by {
            assert forall|x: K| #[trigger] next.entries.contains_key(x) implies exists|i: int|
                next.at(i, x) by {
                if x == k {
                    assert(next.at(last, x));
                } else {
                    let q = self.position(x);
                    self.lemma_position(x);
                    assert(next.index[q] == self.index[q]);
                    assert(next.at(q, x));
                }
            }
        }
        assert(next.faithful()) by {
            assert forall|i: int| 0 <= i < next.index.len() implies {
                &&& next.entries.contains_key((#[trigger] next.index[i]).1)
                &&& next.entries[next.index[i].1].1 == next.index[i].0
            } by {
                if i < last {
                    assert(next.index[i] == self.index[i]);
                }
            }
        }
        assert(next.sorted()) by {
            assert forall|i: int, j: int| 0 <= i <= j < next.index.len() implies next.index[i].0
                <= next.index[j].0 by {
                if i < last {
                    assert(next.index[i] == self.index[i]);
                }
                if j < last {
                    assert(next.index[j] == self.index[j]);
                }
            }
        }
        assert(next.distinct()) by {
            assert forall|i: int, j: int| 0 <= i < j < next.index.len() implies next.index[i].1
                != next.index[j].1 by {
                assert(next.index[i] == self.index[i]);
                if j < last {
                    assert(next.index[j] == self.index[j]);
                }
            }
        }
        assert(next.stamps_bounded()) by {
            assert forall|i: int| 0 <= i < next.index.len() implies (#[trigger] next.index[i]).0
                <= next.generation by {
                if i < last {
                    assert(next.index[i] == self.index[i]);
                }
            }
        }
    }

    /// `get` keeps the invariant.
    pub proof fn lemma_get_wf(self, k: K)
        requires
            self.wf(),
        ensures
            self.get(k).0.wf(),
    {
        if self.contains(k) {
            self.lemma_touch_wf(k);
        }
    }

    /// `set` keeps the invariant.
    pub proof fn lemma_set_wf(self, k: K, v: V)
        requires
            self.wf(),
        ensures
            self.set(k, v).wf(),
    {
        if self.contains(k) {
        } else if self.full() {
            self.lemma_evict_wf();
            self.evict().lemma_place_wf(k, v);
        } else {
            self.lemma_place_wf(k, v);
        }
    }
}

} // verus!
