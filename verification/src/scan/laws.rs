//! What makes the cache without an index an LRU cache, proved of its
//! states.

use vstd::prelude::*;
use crate::op::Op;
use crate::scan::state::ScanState;

verus! {

/// One operation keeps the invariant and the capacity.
pub proof fn lemma_step_wf<K, V>(s: ScanState<K, V>, op: Op<K, V>, next: ScanState<K, V>)
    requires
        s.wf(),
        s.step(op, next),
    ensures
        next.wf(),
        next.capacity == s.capacity,
        next.generation >= s.generation,
{
    match op {
        Op::Get(k) => s.lemma_get_wf(k),
        Op::Put(k, v) => {
            s.lemma_set_wf(k, v, next);
            if s.needs_room(k) {
                let gone = choose|gone: K| #[trigger]
                    s.least_recent(gone) && next == s.without(gone).store(k, v);
            }
        },
    }
}

/// Along any course from a well-formed state, every state is well formed
/// and has the capacity of the first.
pub proof fn lemma_course_wf<K, V>(states: Seq<ScanState<K, V>>, ops: Seq<Op<K, V>>, n: int)
    requires
        ScanState::course(states, ops),
        states[0].wf(),
        0 <= n <= ops.len(),
    ensures
        states[n].wf(),
        states[n].capacity == states[0].capacity,
    decreases n,
{
    if n > 0 {
        lemma_course_wf(states, ops, n - 1);
        lemma_step_wf(states[n - 1], ops[n - 1], states[n]);
    }
}

/// Capacity: however a new cache is used, and whichever keys it discards,
/// it never holds more keys than its capacity.
pub proof fn capacity_is_never_exceeded<K, V>(
    capacity: nat,
    states: Seq<ScanState<K, V>>,
    ops: Seq<Op<K, V>>,
)
    requires
        capacity > 0,
        ScanState::course(states, ops),
        states[0] == ScanState::<K, V>::init(capacity),
    ensures
        forall|n: int| 0 <= n < states.len() ==> (#[trigger] states[n]).len() <= capacity,
{
    ScanState::<K, V>::lemma_init_wf(capacity);
    assert forall|n: int| 0 <= n < states.len() implies (#[trigger] states[n]).len()
        <= capacity by {
        lemma_course_wf(states, ops, n);
    }
}

/// Eviction happens exactly when a key that is absent is set in a full
/// cache; any other `set` discards nothing.
pub proof fn set_discards_only_when_full<K, V>(
    s: ScanState<K, V>,
    k: K,
    v: V,
    next: ScanState<K, V>,
)
    requires
        s.wf(),
        s.set_gives(k, v, next),
        !s.needs_room(k),
    ensures
        forall|x: K| s.contains(x) ==> next.contains(x),
        forall|x: K| s.contains(x) && x != k ==> next.entries[x] == s.entries[x],
{
}

/// Eviction: when `set` has to make room, exactly one key goes, and it is a
/// present key that no present key is older than; so a key that is
/// strictly older than all others is the one that goes. Every other key
/// stays as it was, and the new key comes in.
pub proof fn eviction_takes_a_least_recent<K, V>(
    s: ScanState<K, V>,
    k: K,
    v: V,
    next: ScanState<K, V>,
)
    requires
        s.wf(),
        s.set_gives(k, v, next),
        s.needs_room(k),
    ensures
        exists|gone: K|
            {
                &&& #[trigger] s.least_recent(gone)
                &&& !next.contains(gone)
                &&& forall|x: K|
                    s.contains(x) && x != gone ==> next.contains(x) && next.entries[x]
                        == s.entries[x]
            },
        forall|m: K|
            s.contains(m) && (forall|x: K| s.contains(x) && x != m ==> s.stamp(m) < s.stamp(x))
                ==> !next.contains(m),
        next.contains(k),
        next.len() == s.len(),
{
    let gone = choose|gone: K| #[trigger]
        s.least_recent(gone) && next == s.without(gone).store(k, v);
    s.lemma_without_wf(gone);
    assert(next.entries.dom() =~= s.without(gone).entries.dom().insert(k));
    assert(s.least_recent(gone) && !next.contains(gone) && forall|x: K|
        s.contains(x) && x != gone ==> next.contains(x) && next.entries[x] == s.entries[x]);
    assert forall|m: K|
        s.contains(m) && (forall|x: K|
            s.contains(x) && x != m ==> s.stamp(m) < s.stamp(x)) implies !next.contains(m) by {
        if m != gone {
            assert(s.contains(gone));
            assert(s.stamp(m) < s.stamp(gone));
            assert(s.stamp(gone) <= s.stamp(m));
        }
    }
}

/// A later state in which the refreshed key `k` is still ahead of the
/// untouched key `j`, whose stamp dates from before the hit at generation
/// `hit`.
spec fn ahead<K, V>(t: ScanState<K, V>, k: K, j: K, hit: nat) -> bool {
    &&& hit <= t.generation
    &&& t.contains(j) ==> t.stamp(j) < hit && t.contains(k) && hit <= t.stamp(k)
}

proof fn lemma_step_keeps_ahead<K, V>(
    t: ScanState<K, V>,
    op: Op<K, V>,
    next: ScanState<K, V>,
    k: K,
    j: K,
    hit: nat,
)
    requires
        t.wf(),
        t.step(op, next),
        ahead(t, k, j, hit),
        op.key() != j,
        j != k,
    ensures
        ahead(next, k, j, hit),
{
    match op {
        Op::Get(x) => {},
        Op::Put(x, v) => {
            if t.needs_room(x) {
                let gone = choose|gone: K| #[trigger]
                    t.least_recent(gone) && next == t.without(gone).store(x, v);
                if next.contains(j) {
                    assert(t.contains(j));
                    assert(t.stamp(gone) <= t.stamp(j));
                }
            }
        },
    }
}

proof fn lemma_course_keeps_ahead<K, V>(
    states: Seq<ScanState<K, V>>,
    ops: Seq<Op<K, V>>,
    k: K,
    j: K,
    hit: nat,
    n: int,
)
    requires
        ScanState::course(states, ops),
        states[0].wf(),
        ahead(states[0], k, j, hit),
        j != k,
        forall|i: int| 0 <= i < ops.len() ==> (#[trigger] ops[i]).key() != j,
        0 <= n <= ops.len(),
    ensures
        ahead(states[n], k, j, hit),
    decreases n,
{
    if n > 0 {
        lemma_course_keeps_ahead(states, ops, k, j, hit, n - 1);
        lemma_course_wf(states, ops, n - 1);
        lemma_step_keeps_ahead(states[n - 1], ops[n - 1], states[n], k, j, hit);
    }
}

/// A hit refreshes recency: after a successful `get(k)`, and whatever is
/// done next, `k` is never discarded while another key `j` is present that
/// was there at the hit and has not been named by a `get` or a `set` since.
pub proof fn refreshed_key_outlives_untouched<K, V>(
    s: ScanState<K, V>,
    k: K,
    j: K,
    states: Seq<ScanState<K, V>>,
    ops: Seq<Op<K, V>>,
)
    requires
        s.wf(),
        s.contains(k),
        s.contains(j),
        j != k,
        ScanState::course(states, ops),
        states[0] == s.get(k).0,
        forall|i: int| 0 <= i < ops.len() ==> (#[trigger] ops[i]).key() != j,
    ensures
        forall|n: int|
            0 <= n < states.len() && (#[trigger] states[n]).contains(j) ==> states[n].contains(k),
{
    s.lemma_get_wf(k);
    let hit = s.generation + 1;
    assert(ahead(states[0], k, j, hit));
    assert forall|n: int| 0 <= n < states.len() && (#[trigger] states[n]).contains(
        j,
    ) implies states[n].contains(k) by {
        lemma_course_keeps_ahead(states, ops, k, j, hit, n);
    }
}

/// Round trip: after `set(k, v)`, `get(k)` gives `v`, whether the key was
/// present or not and whichever key was discarded for it.
pub proof fn set_then_get_round_trips<K, V>(s: ScanState<K, V>, k: K, v: V, next: ScanState<K, V>)
    requires
        s.wf(),
        s.set_gives(k, v, next),
    ensures
        next.get(k).1 == Some(v),
{
    if s.needs_room(k) {
        let gone = choose|gone: K| #[trigger]
            s.least_recent(gone) && next == s.without(gone).store(k, v);
    }
}

/// The value under a key stays what it is through operations that do not
/// set the key, for as long as the key is not discarded.
pub proof fn value_stays_while_present<K, V>(
    states: Seq<ScanState<K, V>>,
    ops: Seq<Op<K, V>>,
    k: K,
    n: int,
)
    requires
        ScanState::course(states, ops),
        states[0].wf(),
        0 <= n <= ops.len(),
        forall|i: int| 0 <= i <= n ==> (#[trigger] states[i]).contains(k),
        forall|i: int| 0 <= i < n ==> !(#[trigger] ops[i] matches Op::Put(x, _) && x == k),
    ensures
        states[n].value(k) == states[0].value(k),
    decreases n,
{
    if n > 0 {
        value_stays_while_present(states, ops, k, n - 1);
        let before = states[n - 1];
        let op = ops[n - 1];
        assert(before.contains(k));
        assert(before.step(op, states[n]));
        match op {
            Op::Get(x) => {},
            Op::Put(x, v) => {
                assert(x != k);
                if before.needs_room(x) {
                    let gone = choose|gone: K| #[trigger]
                        before.least_recent(gone) && states[n] == before.without(gone).store(x, v);
                    assert(states[n].contains(k));
                }
            },
        }
    }
}

} // verus!
