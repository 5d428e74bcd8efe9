//! What makes the cache with a recency index an LRU cache, proved of its
//! states.

use vstd::prelude::*;
use crate::op::Op;
use crate::recency::state::RecencyState;

verus! {

/// No operation changes the capacity.
pub proof fn lemma_run_capacity<K, V>(s: RecencyState<K, V>, ops: Seq<Op<K, V>>)
    ensures
        s.run(ops).capacity == s.capacity,
    decreases ops.len(),
{
    if ops.len() > 0 {
        lemma_run_capacity(s, ops.drop_last());
    }
}

/// Whatever is done to a well-formed cache, it stays well formed.
pub proof fn lemma_run_wf<K, V>(s: RecencyState<K, V>, ops: Seq<Op<K, V>>)
    requires
        s.wf(),
    ensures
        s.run(ops).wf(),
    decreases ops.len(),
{
    if ops.len() > 0 {
        lemma_run_wf(s, ops.drop_last());
        let before = s.run(ops.drop_last());
        match ops.last() {
            Op::Get(k) => before.lemma_get_wf(k),
            Op::Put(k, v) => before.lemma_set_wf(k, v),
        }
    }
}

/// Capacity: however a new cache is used, it never holds more keys than its
/// capacity.
pub proof fn capacity_is_never_exceeded<K, V>(capacity: nat, ops: Seq<Op<K, V>>)
    requires
        capacity > 0,
    ensures
        RecencyState::<K, V>::init(capacity).run(ops).len() <= capacity,
{
    let start = RecencyState::<K, V>::init(capacity);
    RecencyState::<K, V>::lemma_init_wf(capacity);
    lemma_run_wf(start, ops);
    lemma_run_capacity(start, ops);
}

/// Recency index: however a new cache is used, its index, read front to
/// back, never decreases in stamp, and it holds exactly one place for each
/// present key and none for any other, each with the stamp of the key's
/// entry.
pub proof fn index_stays_sorted_and_exact<K, V>(capacity: nat, ops: Seq<Op<K, V>>)
    requires
        capacity > 0,
    ensures
        ({
            let s = RecencyState::<K, V>::init(capacity).run(ops);
            &&& forall|i: int, j: int|
                0 <= i <= j < s.index.len() ==> s.index[i].0 <= s.index[j].0
            &&& forall|i: int, j: int|
                0 <= i < j < s.index.len() ==> s.index[i].1 != s.index[j].1
            &&& forall|k: K| s.contains(k) <==> exists|i: int| s.at(i, k)
            &&& forall|i: int|
                0 <= i < s.index.len() ==> s.stamp((#[trigger] s.index[i]).1) == s.index[i].0
            &&& s.index.len() == s.len()
        }),
{
    let start = RecencyState::<K, V>::init(capacity);
    RecencyState::<K, V>::lemma_init_wf(capacity);
    lemma_run_wf(start, ops);
    let s = start.run(ops);
    assert forall|k: K| s.contains(k) <==> exists|i: int| s.at(i, k) by {
        if exists|i: int| s.at(i, k) {
            let i = choose|i: int| s.at(i, k);
            assert(s.entries.contains_key(s.index[i].1));
        }
    }
}

/// Eviction happens exactly when a key that is absent is set in a full
/// cache; any other `set` discards nothing.
pub proof fn set_discards_only_when_full<K, V>(s: RecencyState<K, V>, k: K, v: V)
    requires
        s.wf(),
        s.contains(k) || !s.full(),
    ensures
        forall|x: K| s.contains(x) ==> s.set(k, v).contains(x) && s.set(k, v).entries[x] == s.entries[x],
{
}

/// Eviction: when `set` has to make room, the key it discards is a present
/// key of the smallest stamp, and among the keys of that stamp the one that
/// stands first in the index; every other key stays as it was, and the new
/// key comes in.
pub proof fn eviction_takes_the_least_recent<K, V>(s: RecencyState<K, V>, k: K, v: V)
    requires
        s.wf(),
        !s.contains(k),
        s.full(),
    ensures
        s.contains(s.victim()),
        forall|x: K| s.contains(x) ==> s.stamp(s.victim()) <= s.stamp(x),
        forall|x: K| s.contains(x) && x != s.victim() ==> s.position(s.victim()) < s.position(x),
        !s.set(k, v).contains(s.victim()),
        forall|x: K|
            s.contains(x) && x != s.victim() ==> s.set(k, v).contains(x) && s.set(k, v).entries[x]
                == s.entries[x],
        s.set(k, v).contains(k),
        s.set(k, v).len() == s.len(),
{
    let gone = s.victim();
    s.lemma_victim();
    s.lemma_evict_wf();
    s.evict().lemma_place_wf(k, v);
    assert forall|x: K| s.contains(x) implies s.stamp(gone) <= s.stamp(x) by {
        s.lemma_position(x);
        assert(s.index[0].0 <= s.index[s.position(x)].0);
    }
    assert forall|x: K| s.contains(x) && x != gone implies s.position(gone) < s.position(x) by {
        s.lemma_position(x);
    }
}

/// The stamp of a key that no operation names stays what it was for as
/// long as the key is present.
proof fn lemma_apply_keeps_other<K, V>(s: RecencyState<K, V>, op: Op<K, V>, j: K)
    requires
        s.wf(),
        op.key() != j,
    ensures
        s.apply(op).contains(j) ==> s.contains(j) && s.apply(op).entries[j] == s.entries[j],
{
}

/// A later state in which the refreshed key `k` is still ahead of the
/// untouched key `j`.
spec fn ahead<K, V>(t: RecencyState<K, V>, k: K, j: K) -> bool {
    t.contains(j) ==> t.contains(k) && t.stamp(j) < t.stamp(k)
}

proof fn lemma_apply_keeps_ahead<K, V>(t: RecencyState<K, V>, op: Op<K, V>, k: K, j: K)
    requires
        t.wf(),
        ahead(t, k, j),
        op.key() != j,
        j != k,
    ensures
        ahead(t.apply(op), k, j),
{
    let next = t.apply(op);
    lemma_apply_keeps_other(t, op, j);
    if next.contains(j) {
        match op {
            Op::Get(x) => {},
            Op::Put(x, v) => {
                if !t.contains(x) && t.full() {
                    t.lemma_victim();
                    t.lemma_position(j);
                    assert(t.index[0].0 <= t.index[t.position(j)].0);
                }
            },
        }
    }
}

proof fn lemma_run_keeps_ahead<K, V>(t: RecencyState<K, V>, ops: Seq<Op<K, V>>, k: K, j: K)
    requires
        t.wf(),
        ahead(t, k, j),
        j != k,
        forall|i: int| 0 <= i < ops.len() ==> (#[trigger] ops[i]).key() != j,
    ensures
        ahead(t.run(ops), k, j),
    decreases ops.len(),
{
    if ops.len() > 0 {
        let front = ops.drop_last();
        assert forall|i: int| 0 <= i < front.len() implies (#[trigger] front[i]).key() != j by {
            assert(front[i] == ops[i]);
        }
        lemma_run_keeps_ahead(t, front, k, j);
        lemma_run_wf(t, front);
        lemma_apply_keeps_ahead(t.run(front), ops.last(), k, j);
    }
}

/// A hit refreshes recency: after a successful `get(k)`, and whatever is
/// done next, `k` is never discarded while another key `j` is present that
/// was there at the hit and has not been named by a `get` or a `set` since.
pub proof fn refreshed_key_outlives_untouched<K, V>(
    s: RecencyState<K, V>,
    k: K,
    j: K,
    ops: Seq<Op<K, V>>,
)
    requires
        s.wf(),
        s.contains(k),
        s.contains(j),
        j != k,
        forall|i: int| 0 <= i < ops.len() ==> (#[trigger] ops[i]).key() != j,
    ensures
        s.get(k).0.run(ops).contains(j) ==> s.get(k).0.run(ops).contains(k),
{
    let hit = s.get(k).0;
    s.lemma_get_wf(k);
    assert(ahead(hit, k, j)) by {
        s.lemma_position(j);
        assert(s.index[s.position(j)].0 <= s.generation);
    }
    lemma_run_keeps_ahead(hit, ops, k, j);
}

/// Round trip: `set(k, v)` and then `get(k)` gives `v`, for a key that was
/// absent or already held `v`. (A key that is present keeps the value it
/// has: see [`set_keeps_a_present_key`].)
pub proof fn set_then_get_round_trips<K, V>(s: RecencyState<K, V>, k: K, v: V)
    requires
        s.wf(),
        s.contains(k) ==> s.value(k) == v,
    ensures
        s.set(k, v).get(k).1 == Some(v),
{
}

/// `set` on a present key changes nothing, so the `get` that follows gives
/// the value that was there.
pub proof fn set_keeps_a_present_key<K, V>(s: RecencyState<K, V>, k: K, v: V)
    requires
        s.wf(),
        s.contains(k),
    ensures
        s.set(k, v) == s,
        s.set(k, v).get(k).1 == Some(s.value(k)),
{
}

/// The value under a key stays what it is through any operations, for as
/// long as the key is not discarded.
pub proof fn value_stays_while_present<K, V>(s: RecencyState<K, V>, k: K, ops: Seq<Op<K, V>>)
    requires
        s.wf(),
        forall|n: int| 0 <= n <= ops.len() ==> (#[trigger] s.run(ops.take(n))).contains(k),
    ensures
        s.run(ops).contains(k),
        s.run(ops).value(k) == s.value(k),
    decreases ops.len(),
{
    assert(ops.take(ops.len() as int) =~= ops);
    if ops.len() == 0 {
    } else {
        let front = ops.drop_last();
        assert forall|n: int| 0 <= n <= front.len() implies (#[trigger] s.run(front.take(n))).contains(
            k,
        ) by {
            assert(front.take(n) =~= ops.take(n));
        }
        value_stays_while_present(s, k, front);
        lemma_run_wf(s, front);
        let before = s.run(front);
        assert(s.run(ops.take(ops.len() as int)).contains(k));
        assert(front =~= ops.take(front.len() as int));
        assert(s.run(front.take(front.len() as int)).contains(k));
    }
}

} // verus!
