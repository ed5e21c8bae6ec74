//! Queue-wide laws, stated over the same view algebra that the operation
//! contracts use, and proved once and for all.
//!
//! The operation contracts pin each call down exactly: a successful
//! `push_back` turns the view `v` into `v.push(value)`, a ring `pop_front`
//! returns `v[0]` and leaves `v.drop_first()`, and a linked `delete_slot`
//! removes one position and leaves `v.remove(k)`. The abstract runs below
//! fold exactly those transitions over an arbitrary operation sequence, so
//! the lemmas state what holds over whole call histories: FIFO discipline
//! for the ring backend, order preservation under arbitrary deletion for the
//! linked backend, and the push-then-delete round trip.

use vstd::prelude::*;

use crate::events::AnyEvent;
use crate::MAX_NUM_EVENTS;

verus! {

/// `a` embeds into `b` at the strictly increasing positions `m`: `a` is the
/// subsequence of `b` selected by `m`.
pub open spec fn is_embedding<T>(m: Seq<int>, a: Seq<T>, b: Seq<T>) -> bool {
    &&& m.len() == a.len()
    &&& forall|i: int| 0 <= i < m.len() ==> 0 <= #[trigger] m[i] < b.len()
    &&& forall|i: int, j: int| 0 <= i < j < m.len() ==> #[trigger] m[i] < #[trigger] m[j]
    &&& forall|i: int| 0 <= i < m.len() ==> a[i] == b[#[trigger] m[i]]
}

/// All of `a`'s elements appear in `b`, in the same relative order.
pub open spec fn subsequence_of<T>(a: Seq<T>, b: Seq<T>) -> bool {
    exists|m: Seq<int>| is_embedding(m, a, b)
}

pub proof fn lemma_subsequence_refl<T>(a: Seq<T>)
    ensures
        subsequence_of(a, a),
{
    let m = Seq::new(a.len(), |i: int| i);
    assert(is_embedding(m, a, a));
}

/// Appending the same element to both sides preserves the subsequence
/// relation.
pub proof fn lemma_subsequence_push<T>(a: Seq<T>, b: Seq<T>, x: T)
    requires
        subsequence_of(a, b),
    ensures
        subsequence_of(a.push(x), b.push(x)),
{
    let m = choose|m: Seq<int>| is_embedding(m, a, b);
    let m2 = m.push(b.len() as int);
    assert(is_embedding(m2, a.push(x), b.push(x))) by {
        assert forall|i: int| 0 <= i < m2.len() implies a.push(x)[i] == b.push(x)[#[trigger] m2[i]] by {
            if i < m.len() {
                assert(m2[i] == m[i]);
            }
        }
    }
}

/// Removing an element from the left side preserves the subsequence
/// relation.
pub proof fn lemma_subsequence_remove<T>(a: Seq<T>, b: Seq<T>, k: int)
    requires
        subsequence_of(a, b),
        0 <= k < a.len(),
    ensures
        subsequence_of(a.remove(k), b),
{
    let m = choose|m: Seq<int>| is_embedding(m, a, b);
    let m2 = m.remove(k);
    m.remove_ensures(k);
    a.remove_ensures(k);
    assert(is_embedding(m2, a.remove(k), b)) by {
        assert forall|i: int, j: int| 0 <= i < j < m2.len() implies #[trigger] m2[i] < #[trigger] m2[j] by {
            let i0 = if i < k {
                i
            } else {
                i + 1
            };
            let j0 = if j < k {
                j
            } else {
                j + 1
            };
            assert(m2[i] == m[i0] && m2[j] == m[j0]);
        }
        assert forall|i: int| 0 <= i < m2.len() implies a.remove(k)[i] == b[#[trigger] m2[i]] by {
            let i0 = if i < k {
                i
            } else {
                i + 1
            };
            assert(m2[i] == m[i0] && a.remove(k)[i] == a[i0]);
        }
    }
}

/// Removing one occurrence from a duplicate-free sequence removes exactly
/// that element from its membership.
pub proof fn lemma_remove_contains(o: Seq<int>, x: int)
    requires
        o.no_duplicates(),
        o.contains(x),
    ensures
        forall|s: int| #[trigger] o.remove(o.index_of(x)).contains(s) <==> (o.contains(s) && s
            != x),
{
    let k = o.index_of(x);
    assert(0 <= k < o.len() && o[k] == x);
    o.remove_ensures(k);
    assert forall|s: int| #[trigger] o.remove(k).contains(s) <==> (o.contains(s) && s != x) by {
        if o.remove(k).contains(s) {
            let j = choose|j: int| 0 <= j < o.remove(k).len() && o.remove(k)[j] == s;
            let j0 = if j < k {
                j
            } else {
                j + 1
            };
            assert(o[j0] == s);
            assert(o.contains(s));
        }
        if o.contains(s) && s != x {
            let i = choose|i: int| 0 <= i < o.len() && o[i] == s;
            if i < k {
                assert(o.remove(k)[i] == s);
            } else {
                assert(o.remove(k)[i - 1] == s);
            }
            assert(o.remove(k).contains(s));
        }
    }
}

/// One abstract operation on the ring backend.
pub enum RingOp {
    Push(AnyEvent),
    Pop,
}

/// Abstract history of a ring-backend run: the live view, the pushes the
/// queue accepted, and the values the pops returned.
pub struct RingRun {
    pub live: Seq<AnyEvent>,
    pub pushed: Seq<AnyEvent>,
    pub popped: Seq<AnyEvent>,
}

/// One transition, exactly as the exec contracts state it: an accepted push
/// appends to the view; a successful pop returns the view's head and drops
/// it. A push on a full queue and a pop on an empty one change nothing.
pub open spec fn ring_step(st: RingRun, op: RingOp) -> RingRun {
    match op {
        RingOp::Push(v) => {
            if st.live.len() < MAX_NUM_EVENTS {
                RingRun { live: st.live.push(v), pushed: st.pushed.push(v), popped: st.popped }
            } else {
                st
            }
        },
        RingOp::Pop => {
            if st.live.len() > 0 {
                RingRun {
                    live: st.live.drop_first(),
                    pushed: st.pushed,
                    popped: st.popped.push(st.live[0]),
                }
            } else {
                st
            }
        },
    }
}

pub open spec fn ring_run_from(st: RingRun, ops: Seq<RingOp>) -> RingRun
    decreases ops.len(),
{
    if ops.len() == 0 {
        st
    } else {
        ring_step(ring_run_from(st, ops.drop_last()), ops.last())
    }
}

/// A ring run that starts from an empty queue with no history.
pub open spec fn ring_run(ops: Seq<RingOp>) -> RingRun {
    ring_run_from(
        RingRun { live: Seq::empty(), pushed: Seq::empty(), popped: Seq::empty() },
        ops,
    )
}

/// FIFO law for the ring backend: over any sequence of `push_back` and
/// `pop_front` calls, the values the pops return are exactly the values the
/// accepted pushes supplied, in push order — and what is still live is the
/// rest of the pushed values, again in push order.
pub proof fn lemma_ring_fifo(ops: Seq<RingOp>)
    ensures
        ring_run(ops).pushed == ring_run(ops).popped + ring_run(ops).live,
        ring_run(ops).popped == ring_run(ops).pushed.take(ring_run(ops).popped.len() as int),
    decreases ops.len(),
{
    if ops.len() == 0 {
        assert(ring_run(ops).pushed =~= ring_run(ops).popped + ring_run(ops).live);
    } else {
        lemma_ring_fifo(ops.drop_last());
        let st = ring_run(ops.drop_last());
        let st2 = ring_run(ops);
        match ops.last() {
            RingOp::Push(v) => {
                if st.live.len() < MAX_NUM_EVENTS {
                    assert(st2.pushed =~= st2.popped + st2.live);
                }
            },
            RingOp::Pop => {
                if st.live.len() > 0 {
                    assert(st2.pushed =~= st2.popped + st2.live);
                }
            },
        }
    }
    assert(ring_run(ops).popped =~= ring_run(ops).pushed.take(
        ring_run(ops).popped.len() as int,
    ));
}

/// One abstract operation on the linked backend: an accepted push, or the
/// deletion of the `k`-th oldest live element (any position).
pub enum LinkedOp {
    Push(AnyEvent),
    DeleteAt(int),
}

/// Abstract history of a linked-backend run: the live view, the pushes the
/// queue accepted, and how far the sequence counter has grown.
pub struct LinkedRun {
    pub live: Seq<AnyEvent>,
    pub pushed: Seq<AnyEvent>,
    pub seq_delta: int,
}

/// One transition, exactly as the exec contracts state it: an accepted push
/// appends to the view and bumps the sequence counter; a valid deletion
/// removes one position and leaves the counter alone. A push on a full
/// queue and a deletion at an invalid position change nothing.
pub open spec fn linked_step(st: LinkedRun, op: LinkedOp) -> LinkedRun {
    match op {
        LinkedOp::Push(v) => {
            if st.live.len() < MAX_NUM_EVENTS {
                LinkedRun {
                    live: st.live.push(v),
                    pushed: st.pushed.push(v),
                    seq_delta: st.seq_delta + 1,
                }
            } else {
                st
            }
        },
        LinkedOp::DeleteAt(k) => {
            if 0 <= k < st.live.len() {
                LinkedRun { live: st.live.remove(k), pushed: st.pushed, seq_delta: st.seq_delta }
            } else {
                st
            }
        },
    }
}

pub open spec fn linked_run_from(st: LinkedRun, ops: Seq<LinkedOp>) -> LinkedRun
    decreases ops.len(),
{
    if ops.len() == 0 {
        st
    } else {
        linked_step(linked_run_from(st, ops.drop_last()), ops.last())
    }
}

/// A linked run that starts from an empty queue with no history.
pub open spec fn linked_run(ops: Seq<LinkedOp>) -> LinkedRun {
    linked_run_from(LinkedRun { live: Seq::empty(), pushed: Seq::empty(), seq_delta: 0 }, ops)
}

/// Order-preservation law for the linked backend: however `push_back` and
/// `delete_slot` calls interleave, at arbitrary positions, the elements
/// still alive afterwards are exactly some of the pushed elements in their
/// original relative insertion order.
pub proof fn lemma_linked_order_preservation(ops: Seq<LinkedOp>)
    ensures
        subsequence_of(linked_run(ops).live, linked_run(ops).pushed),
    decreases ops.len(),
{
    if ops.len() == 0 {
        lemma_subsequence_refl(linked_run(ops).live);
    } else {
        lemma_linked_order_preservation(ops.drop_last());
        let st = linked_run(ops.drop_last());
        match ops.last() {
            LinkedOp::Push(v) => {
                if st.live.len() < MAX_NUM_EVENTS {
                    lemma_subsequence_push(st.live, st.pushed, v);
                }
            },
            LinkedOp::DeleteAt(k) => {
                if 0 <= k < st.live.len() {
                    lemma_subsequence_remove(st.live, st.pushed, k);
                }
            },
        }
    }
}

/// Runs compose: folding `a + b` is folding `a`, then `b`.
pub proof fn lemma_linked_run_concat(st: LinkedRun, a: Seq<LinkedOp>, b: Seq<LinkedOp>)
    ensures
        linked_run_from(st, a + b) == linked_run_from(linked_run_from(st, a), b),
    decreases b.len(),
{
    if b.len() == 0 {
        assert(a + b =~= a);
    } else {
        lemma_linked_run_concat(st, a, b.drop_last());
        assert((a + b).drop_last() =~= a + b.drop_last());
        assert((a + b).last() == b.last());
    }
}

/// The operation sequence that pushes each element of `vs` in turn.
pub open spec fn push_ops(vs: Seq<AnyEvent>) -> Seq<LinkedOp> {
    Seq::new(vs.len(), |i: int| LinkedOp::Push(vs[i]))
}

/// The operation sequence that deletes at each position of `ks` in turn.
pub open spec fn delete_ops(ks: Seq<int>) -> Seq<LinkedOp> {
    Seq::new(ks.len(), |i: int| LinkedOp::DeleteAt(ks[i]))
}

/// Pushing a batch that fits appends it wholesale and advances the sequence
/// counter once per element.
pub proof fn lemma_linked_run_pushes(st: LinkedRun, vs: Seq<AnyEvent>)
    requires
        st.live.len() + vs.len() <= MAX_NUM_EVENTS,
    ensures
        linked_run_from(st, push_ops(vs)).live == st.live + vs,
        linked_run_from(st, push_ops(vs)).pushed == st.pushed + vs,
        linked_run_from(st, push_ops(vs)).seq_delta == st.seq_delta + vs.len(),
    decreases vs.len(),
{
    if vs.len() == 0 {
        assert(push_ops(vs).len() == 0);
        assert(st.live + vs =~= st.live);
        assert(st.pushed + vs =~= st.pushed);
    } else {
        lemma_linked_run_pushes(st, vs.drop_last());
        assert(push_ops(vs).drop_last() =~= push_ops(vs.drop_last()));
        assert(push_ops(vs).last() == LinkedOp::Push(vs.last()));
        assert((st.live + vs.drop_last()).push(vs.last()) =~= st.live + vs);
        assert((st.pushed + vs.drop_last()).push(vs.last()) =~= st.pushed + vs);
    }
}

/// Deleting at a batch of positions, each valid when its turn comes, shrinks
/// the live view by one per deletion and leaves the counter alone.
pub proof fn lemma_linked_run_deletes(st: LinkedRun, ks: Seq<int>)
    requires
        ks.len() <= st.live.len(),
        forall|i: int| 0 <= i < ks.len() ==> 0 <= #[trigger] ks[i] < st.live.len() - i,
    ensures
        linked_run_from(st, delete_ops(ks)).live.len() == st.live.len() - ks.len(),
        linked_run_from(st, delete_ops(ks)).pushed == st.pushed,
        linked_run_from(st, delete_ops(ks)).seq_delta == st.seq_delta,
    decreases ks.len(),
{
    if ks.len() > 0 {
        lemma_linked_run_deletes(st, ks.drop_last());
        assert(delete_ops(ks).drop_last() =~= delete_ops(ks.drop_last()));
        assert(delete_ops(ks).last() == LinkedOp::DeleteAt(ks[ks.len() - 1]));
        assert(0 <= ks[ks.len() - 1] < st.live.len() - (ks.len() - 1));
    }
}

/// Round-trip law for the linked backend: pushing `K` elements into an empty
/// queue and then deleting `K` times, at arbitrary valid positions, leaves
/// the queue empty again, and the sequence counter has grown by exactly `K`
/// — deletions never touch it.
pub proof fn lemma_linked_round_trip(vs: Seq<AnyEvent>, ks: Seq<int>)
    requires
        vs.len() <= MAX_NUM_EVENTS,
        ks.len() == vs.len(),
        forall|i: int| 0 <= i < ks.len() ==> 0 <= #[trigger] ks[i] < vs.len() - i,
    ensures
        linked_run(push_ops(vs) + delete_ops(ks)).live.len() == 0,
        linked_run(push_ops(vs) + delete_ops(ks)).seq_delta == vs.len(),
{
    let st0 = LinkedRun { live: Seq::empty(), pushed: Seq::empty(), seq_delta: 0 };
    lemma_linked_run_concat(st0, push_ops(vs), delete_ops(ks));
    lemma_linked_run_pushes(st0, vs);
    let st1 = linked_run_from(st0, push_ops(vs));
    assert(st1.live =~= vs);
    lemma_linked_run_deletes(st1, ks);
}

} // verus!
