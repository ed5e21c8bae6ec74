//! Verified cores of the two queue workloads: filling a backend to capacity
//! with tagged events, removing a batch of positions, and draining.
//!
//! The surrounding program only loads the arena, calls these phases in order
//! and logs between them; everything that decides or computes is here, with
//! contracts. The ring removal phase reproduces the documented
//! swap-then-pop trick, which is the ring backend's only O(1)-per-element
//! path to arbitrary-position removal and deliberately disturbs the order of
//! the surviving elements; the linked removal phase deletes the same
//! positions in place and preserves the survivors' order.

use vstd::prelude::*;

use crate::dll::DLLEventQueue;
use crate::events::AnyEvent;
use crate::laws::{lemma_remove_contains, lemma_subsequence_refl, lemma_subsequence_remove, subsequence_of};
use crate::ringbuf::EventQueue;
use crate::MAX_NUM_EVENTS;

verus! {

/// The fixed batch of slot positions the removal workloads target.
pub fn random_positions() -> (r: Vec<usize>)
    ensures
        r@ == seq![
            1usize, 41, 223, 4, 2, 293, 300, 483, 10, 23, 45, 20, 146, 342, 123, 435, 112, 234,
            211, 89,
        ],
        r@.no_duplicates(),
        forall|i: int| 0 <= i < r@.len() ==> (#[trigger] r@[i]) < MAX_NUM_EVENTS,
{
    let r: Vec<usize> = vec![
        1, 41, 223, 4, 2, 293, 300, 483, 10, 23, 45, 20, 146, 342, 123, 435, 112, 234, 211, 89,
    ];
    proof {
        assert(r@ =~= seq![
            1usize, 41, 223, 4, 2, 293, 300, 483, 10, 23, 45, 20, 146, 342, 123, 435, 112, 234,
            211, 89,
        ]);
    }
    r
}

/// The event a fill phase writes at position `idx` when the sequence counter
/// stands at `sn`: tagged with the (truncated) position and the counter.
pub open spec fn fill_event(idx: int, sn: int) -> AnyEvent {
    AnyEvent { event_type: idx as u8, payload: sn as u64 }
}

/// Fills the ring queue to capacity, tagging each pushed event with its
/// position and the sequence number it is assigned.
pub fn fill_ring(q: &mut EventQueue)
    requires
        old(q).wf(),
        old(q).header.seq_num + MAX_NUM_EVENTS <= u64::MAX,
    ensures
        final(q).wf(),
        final(q)@.len() == MAX_NUM_EVENTS,
        final(q).header.seq_num == old(q).header.seq_num + (MAX_NUM_EVENTS - old(q)@.len()),
        final(q)@ == old(q)@ + Seq::new(
            (MAX_NUM_EVENTS - old(q)@.len()) as nat,
            |j: int| fill_event(old(q)@.len() + j, old(q).header.seq_num + j),
        ),
{
    let ghost q0 = *q;
    let mut i: usize = q.len();
    while i < MAX_NUM_EVENTS
        invariant
            q.wf(),
            i == q@.len(),
            q0@.len() <= i <= MAX_NUM_EVENTS,
            q0.wf(),
            q0.header.seq_num + MAX_NUM_EVENTS <= u64::MAX,
            q.header.seq_num == q0.header.seq_num + (i - q0@.len()),
            q@ == q0@ + Seq::new(
                (i - q0@.len()) as nat,
                |j: int| fill_event(q0@.len() + j, q0.header.seq_num + j),
            ),
        decreases MAX_NUM_EVENTS - i,
    {
        let e = AnyEvent::new(i as u8, q.header.seq_num);
        let _ = q.push_back(e);
        i += 1;
        proof {
            assert(q@ =~= q0@ + Seq::new(
                (i - q0@.len()) as nat,
                |j: int| fill_event(q0@.len() + j, q0.header.seq_num + j),
            ));
        }
    }
}

/// The ring benchmark's removal phase: for the `i`-th target position (the
/// batch must be strictly ascending), swaps raw buffer slot `0` with slot
/// `position - i` and pops the front. As the module doc says, this is the
/// documented order-disturbing trick: afterwards the queue holds
/// `positions.len()` fewer elements, and the sequence counter is untouched,
/// but the surviving elements are no longer in insertion order.
pub fn remove_positions_ring(q: &mut EventQueue, positions: &Vec<usize>)
    requires
        old(q).wf(),
        positions@.len() <= old(q)@.len(),
        forall|i: int, j: int| 0 <= i < j < positions@.len() ==> positions@[i] < positions@[j],
        forall|i: int| 0 <= i < positions@.len() ==> (#[trigger] positions@[i]) < MAX_NUM_EVENTS,
    ensures
        final(q).wf(),
        final(q)@.len() == old(q)@.len() - positions@.len(),
        final(q).header.seq_num == old(q).header.seq_num,
{
    let ghost q0 = *q;
    let mut i: usize = 0;
    while i < positions.len()
        invariant
            q.wf(),
            i <= positions@.len(),
            positions@.len() <= q0@.len(),
            q@.len() == q0@.len() - i,
            q.header.seq_num == q0.header.seq_num,
            forall|a: int, b: int| 0 <= a < b < positions@.len() ==> positions@[a] < positions@[b],
            forall|a: int| 0 <= a < positions@.len() ==> (#[trigger] positions@[a])
                < MAX_NUM_EVENTS,
        decreases positions@.len() - i,
    {
        proof {
            lemma_strict_incr_at(positions@, i as int);
        }
        let pos = positions[i];
        q.swap_slots(0, pos - i);
        let _ = q.pop_front();
        i += 1;
    }
}

/// Pops every live element off the ring queue, returning them oldest-first;
/// the sequence counter is untouched.
pub fn drain_ring(q: &mut EventQueue) -> (v: Vec<AnyEvent>)
    requires
        old(q).wf(),
    ensures
        final(q).wf(),
        v@ == old(q)@,
        final(q)@.len() == 0,
        final(q).header.seq_num == old(q).header.seq_num,
{
    let ghost q0 = *q;
    let mut v: Vec<AnyEvent> = Vec::new();
    while !q.is_empty()
        invariant
            q.wf(),
            v@ + q@ == q0@,
            q.header.seq_num == q0.header.seq_num,
        decreases q@.len(),
    {
        match q.pop_front() {
            Ok(e) => {
                v.push(e);
                proof {
                    assert(v@ + q@ =~= q0@);
                }
            },
            Err(_) => {
                proof {
                    assert(false);
                }
            },
        }
    }
    proof {
        assert(v@ =~= v@ + q@);
    }
    v
}

/// Fills the linked queue to capacity, tagging each pushed event with its
/// position and the sequence number it is assigned.
pub fn fill_linked(q: &mut DLLEventQueue)
    requires
        old(q).wf(),
        old(q).header.seq_num + MAX_NUM_EVENTS <= u64::MAX,
    ensures
        final(q).wf(),
        final(q)@.len() == MAX_NUM_EVENTS,
        final(q).header.seq_num == old(q).header.seq_num + (MAX_NUM_EVENTS - old(q)@.len()),
        final(q)@ == old(q)@ + Seq::new(
            (MAX_NUM_EVENTS - old(q)@.len()) as nat,
            |j: int| fill_event(old(q)@.len() + j, old(q).header.seq_num + j),
        ),
{
    let ghost q0 = *q;
    let mut i: usize = q.len();
    while i < MAX_NUM_EVENTS
        invariant
            q.wf(),
            i == q@.len(),
            q0@.len() <= i <= MAX_NUM_EVENTS,
            q0.wf(),
            q0.header.seq_num + MAX_NUM_EVENTS <= u64::MAX,
            q.header.seq_num == q0.header.seq_num + (i - q0@.len()),
            q@ == q0@ + Seq::new(
                (i - q0@.len()) as nat,
                |j: int| fill_event(q0@.len() + j, q0.header.seq_num + j),
            ),
        decreases MAX_NUM_EVENTS - i,
    {
        let e = AnyEvent::new(i as u8, q.header.seq_num);
        let _ = q.push_back(e);
        i += 1;
        proof {
            assert(q@ =~= q0@ + Seq::new(
                (i - q0@.len()) as nat,
                |j: int| fill_event(q0@.len() + j, q0.header.seq_num + j),
            ));
        }
    }
}

/// `s` occurs among the positions `ps`.
pub open spec fn position_in(ps: Seq<usize>, s: int) -> bool {
    exists|i: int| 0 <= i < ps.len() && (#[trigger] ps[i]) as int == s
}

/// The linked benchmark's removal phase: deletes each listed slot in place,
/// in the given order. Afterwards exactly the unlisted slots are still
/// live, their relative order is preserved, and the sequence counter is
/// untouched.
pub fn delete_positions_linked(q: &mut DLLEventQueue, positions: &Vec<usize>)
    requires
        old(q).wf(),
        positions@.no_duplicates(),
        forall|i: int| 0 <= i < positions@.len() ==> old(q).slot_used(
            (#[trigger] positions@[i]) as int,
        ),
    ensures
        final(q).wf(),
        final(q)@.len() == old(q)@.len() - positions@.len(),
        final(q).header.seq_num == old(q).header.seq_num,
        forall|s: int|
            0 <= s < MAX_NUM_EVENTS ==> (#[trigger] final(q).slot_used(s) <==> (old(q).slot_used(
                s,
            ) && !position_in(positions@, s))),
        subsequence_of(final(q).used_order(), old(q).used_order()),
{
    let ghost q0 = *q;
    let mut i: usize = 0;
    proof {
        lemma_subsequence_refl(q.used_order());
    }
    while i < positions.len()
        invariant
            q.wf(),
            i <= positions@.len(),
            q0.wf(),
            positions@.no_duplicates(),
            forall|a: int| 0 <= a < positions@.len() ==> q0.slot_used(
                (#[trigger] positions@[a]) as int,
            ),
            q@.len() == q0@.len() - i,
            q.header.seq_num == q0.header.seq_num,
            forall|s: int|
                0 <= s < MAX_NUM_EVENTS ==> (#[trigger] q.slot_used(s) <==> (q0.slot_used(s)
                    && !position_in(positions@.take(i as int), s))),
            subsequence_of(q.used_order(), q0.used_order()),
        decreases positions@.len() - i,
    {
        let pos = positions[i];
        proof {
            // this position is still live: it was live at the start and has
            // not been deleted yet (the batch has no duplicates)
            assert(q0.slot_used(pos as int));
            assert((pos as int) < (MAX_NUM_EVENTS as int)) by {
                let a = choose|a: int|
                    0 <= a < q0.order@.len() && q0.order@[a] == pos as int;
                assert(0 <= q0.order@[a] < MAX_NUM_EVENTS);
            }
            assert(!position_in(positions@.take(i as int), pos as int)) by {
                if position_in(positions@.take(i as int), pos as int) {
                    let a = choose|a: int|
                        0 <= a < i && (#[trigger] positions@.take(i as int)[a]) as int
                            == pos as int;
                    assert(positions@[a] == positions@[i as int]);
                }
            }
            assert(q.slot_used(pos as int));
        }
        let ghost k = q.used_order().index_of(pos as int);
        let ghost prev_q = *q;
        let ghost prev_order = q.used_order();
        match q.delete_slot(pos) {
            Ok(_) => {},
            Err(_) => {
                proof {
                    assert(false);
                }
            },
        }
        i += 1;
        proof {
            lemma_remove_contains(prev_order, pos as int);
            lemma_subsequence_remove(prev_order, q0.used_order(), k);
            assert(q.used_order() == prev_order.remove(prev_order.index_of(pos as int)));
            assert forall|s: int| 0 <= s < MAX_NUM_EVENTS implies (#[trigger] q.slot_used(s) <==> (
            q0.slot_used(s) && !position_in(positions@.take(i as int), s))) by {
                let take_i = positions@.take(i as int);
                let take_p = positions@.take((i - 1) as int);
                assert(prev_q.slot_used(s) <==> (q0.slot_used(s) && !position_in(take_p, s)));
                assert(prev_q.used_order() == prev_order);
                assert(prev_order.remove(prev_order.index_of(pos as int)).contains(s) <==> (
                prev_order.contains(s) && s != pos as int));
                assert(take_i[i - 1] == positions@[i - 1]);
                assert(position_in(take_i, pos as int)) by {
                    assert((take_i[i - 1]) as int == pos as int);
                }
                if position_in(take_p, s) {
                    let a = choose|a: int| 0 <= a < i - 1 && (#[trigger] take_p[a]) as int == s;
                    assert(take_i[a] == positions@[a]);
                    assert(take_p[a] == positions@[a]);
                }
                if position_in(take_i, s) && s != pos as int {
                    let a = choose|a: int| 0 <= a < i && (#[trigger] take_i[a]) as int == s;
                    assert(take_i[a] == positions@[a]);
                    if a < i - 1 {
                        assert(take_p[a] == positions@[a]);
                    }
                }
            }
        }
    }
    proof {
        assert(positions@.take(positions@.len() as int) =~= positions@);
    }
}

/// Deletes every live element off the linked queue front-first, returning
/// them oldest-first; the sequence counter is untouched and the used head
/// returns to the sentinel.
pub fn drain_linked(q: &mut DLLEventQueue) -> (v: Vec<AnyEvent>)
    requires
        old(q).wf(),
    ensures
        final(q).wf(),
        v@ == old(q)@,
        final(q)@.len() == 0,
        final(q).header.used_head == crate::dll::NULL,
        final(q).header.seq_num == old(q).header.seq_num,
{
    let ghost q0 = *q;
    let mut v: Vec<AnyEvent> = Vec::new();
    while !q.is_empty()
        invariant
            q.wf(),
            v@ + q@ == q0@,
            q.header.seq_num == q0.header.seq_num,
        decreases q@.len(),
    {
        match q.delete() {
            Ok(e) => {
                v.push(e);
                proof {
                    assert(v@ + q@ =~= q0@);
                }
            },
            Err(_) => {
                proof {
                    assert(false);
                }
            },
        }
    }
    proof {
        assert(v@ =~= v@ + q@);
    }
    v
}

/// Sorts a duplicate-free batch of positions ascending, by insertion into a
/// fresh vector: the result holds exactly the same positions, in strictly
/// increasing order.
pub fn sort_positions(v: &Vec<usize>) -> (r: Vec<usize>)
    requires
        v@.no_duplicates(),
    ensures
        r@.len() == v@.len(),
        forall|i: int, j: int| 0 <= i < j < r@.len() ==> r@[i] < r@[j],
        forall|x: usize| #[trigger] r@.contains(x) <==> v@.contains(x),
{
    let mut r: Vec<usize> = Vec::new();
    let mut i: usize = 0;
    while i < v.len()
        invariant
            i <= v@.len(),
            v@.no_duplicates(),
            r@.len() == i,
            forall|a: int, b: int| 0 <= a < b < r@.len() ==> r@[a] < r@[b],
            forall|x: usize| #[trigger] r@.contains(x) <==> v@.take(i as int).contains(x),
        decreases v@.len() - i,
    {
        let e = v[i];
        proof {
            assert(!r@.contains(e)) by {
                if r@.contains(e) {
                    assert(v@.take(i as int).contains(e));
                    let a = choose|a: int| 0 <= a < i && v@.take(i as int)[a] == e;
                    assert(v@[a] == v@[i as int]);
                }
            }
        }
        let mut idx: usize = 0;
        while idx < r.len() && r[idx] < e
            invariant
                idx <= r@.len(),
                forall|a: int| 0 <= a < idx ==> (#[trigger] r@[a]) < e,
                forall|a: int, b: int| 0 <= a < b < r@.len() ==> r@[a] < r@[b],
                !r@.contains(e),
            decreases r@.len() - idx,
        {
            idx += 1;
        }
        proof {
            if (idx as int) < r@.len() {
                assert(r@[idx as int] != e) by {
                    if r@[idx as int] == e {
                        assert(r@.contains(e));
                    }
                }
                assert(r@[idx as int] > e);
            }
        }
        let ghost prev = r@;
        r.insert(idx, e);
        i += 1;
        proof {
            prev.insert_ensures(idx as int, e);
            assert(r@ == prev.insert(idx as int, e));
            assert forall|a: int, b: int| 0 <= a < b < r@.len() implies r@[a] < r@[b] by {
                if (idx as int) < prev.len() {
                    assert(prev[idx as int] > e);
                }
                if a < idx as int {
                    assert(r@[a] == prev[a]);
                } else if a > idx as int {
                    assert(r@[a] == prev[a - 1]);
                }
                if b < idx as int {
                    assert(r@[b] == prev[b]);
                } else if b > idx as int {
                    assert(r@[b] == prev[b - 1]);
                }
            }
            assert forall|x: usize| #[trigger] r@.contains(x) <==> v@.take(i as int).contains(
                x,
            ) by {
                assert(v@.take(i as int) =~= v@.take((i - 1) as int).push(e));
                if r@.contains(x) {
                    let a = choose|a: int| 0 <= a < r@.len() && r@[a] == x;
                    if a == idx as int {
                        assert(v@.take(i as int)[i - 1] == e);
                    } else {
                        let a0 = if a < idx as int {
                            a
                        } else {
                            a - 1
                        };
                        assert(prev[a0] == x);
                        assert(prev.contains(x));
                    }
                }
                if v@.take(i as int).contains(x) {
                    let a = choose|a: int| 0 <= a < i && v@.take(i as int)[a] == x;
                    if a == i - 1 {
                        assert(r@[idx as int] == e);
                        assert(r@.contains(e));
                    } else {
                        assert(v@.take((i - 1) as int)[a] == x);
                        assert(prev.contains(x));
                        let b = choose|b: int| 0 <= b < prev.len() && prev[b] == x;
                        let b2 = if b < idx as int {
                            b
                        } else {
                            b + 1
                        };
                        assert(r@[b2] == x);
                    }
                }
            }
        }
    }
    proof {
        assert(v@.take(v@.len() as int) =~= v@);
    }
    r
}

/// A strictly increasing position batch grows at least as fast as its index.
proof fn lemma_strict_incr_at(p: Seq<usize>, i: int)
    requires
        forall|a: int, b: int| 0 <= a < b < p.len() ==> p[a] < p[b],
        0 <= i < p.len(),
    ensures
        i <= p[i] as int,
    decreases i,
{
    if i > 0 {
        lemma_strict_incr_at(p, i - 1);
        assert(p[i - 1] < p[i]);
    }
}

} // verus!
