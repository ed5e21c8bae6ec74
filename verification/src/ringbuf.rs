//! Ring-buffer backend: a contiguous window of live slots over a fixed array.
//!
//! The header's `head` index and `count` define the live window; the live
//! elements occupy slots `head, head+1, ..., head+count-1` modulo
//! [`MAX_NUM_EVENTS`]. Push and pop at the ends are O(1). The backend has no
//! native O(1) arbitrary-position removal: removing a non-head element takes
//! either an O(N) compaction or the order-disturbing swap-then-pop trick that
//! [`crate::workload`] demonstrates. It is a correct FIFO queue only under
//! head/tail operations.

use vstd::prelude::*;

use crate::events::{AnyEvent, QueueError};
use crate::MAX_NUM_EVENTS;

verus! {

/// Control-block interface shared by ring-buffer queue headers: a head index,
/// a live-element count and a monotonically increasing sequence counter.
pub trait QueueHeader {
    type Item: Copy;

    fn head(&self) -> usize;

    fn set_head(&mut self, value: u32);

    fn count(&self) -> usize;

    fn set_count(&mut self, value: u32);

    fn incr_event_id(&mut self);

    fn decr_event_id(&mut self, n: u64);
}

/// Ring-buffer control block: 16 bytes on the wire (`head: u32, count: u32,
/// seq_num: u64`).
#[derive(Clone, Copy, Debug)]
pub struct EventQueueHeader {
    pub head: u32,
    pub count: u32,
    pub seq_num: u64,
}

impl EventQueueHeader {
    pub fn head(&self) -> (r: usize)
        ensures
            r == self.head as usize,
    {
        self.head as usize
    }

    pub fn count(&self) -> (r: usize)
        ensures
            r == self.count as usize,
    {
        self.count as usize
    }
}

/// The contract-less interface impl: the wrapping forms keep these bodies
/// total for any state. Verified code uses the inherent methods and field
/// accesses, whose contracts are exact.
impl QueueHeader for EventQueueHeader {
    type Item = AnyEvent;

    fn head(&self) -> usize {
        self.head as usize
    }

    fn set_head(&mut self, value: u32) {
        self.head = value;
    }

    fn count(&self) -> usize {
        self.count as usize
    }

    fn set_count(&mut self, value: u32) {
        self.count = value;
    }

    fn incr_event_id(&mut self) {
        self.seq_num = self.seq_num.wrapping_add(1);
    }

    fn decr_event_id(&mut self, n: u64) {
        self.seq_num = self.seq_num.wrapping_sub(n);
    }
}

/// The ring-buffer event queue: header, the fixed array of slots, and a
/// trailing reserved region kept for forward-compatible extensions.
pub struct EventQueue {
    pub header: EventQueueHeader,
    pub buf: Vec<AnyEvent>,
    pub reserved: Vec<u8>,
}

/// The buffer position of the `i`-th oldest live element when the window
/// starts at `head`: `head + i` modulo the capacity.
pub open spec fn ring_slot(head: int, i: int) -> int {
    (head + i) % (MAX_NUM_EVENTS as int)
}

impl View for EventQueue {
    type V = Seq<AnyEvent>;

    /// The live elements in FIFO order: slot `head + i` modulo the capacity
    /// holds the `i`-th oldest element.
    open spec fn view(&self) -> Seq<AnyEvent> {
        Seq::new(
            self.header.count as nat,
            |i: int| self.buf@[ring_slot(self.header.head as int, i)],
        )
    }
}

impl EventQueue {
    /// Structural validity: the arena has exactly the fixed number of slots,
    /// the live window fits, and the sequence counter dominates the count (it
    /// grew once per push and `revert_pushes` rewinds both together).
    pub open spec fn wf(self) -> bool {
        &&& self.buf.len() == MAX_NUM_EVENTS
        &&& self.reserved.len() == 64
        &&& self.header.head < MAX_NUM_EVENTS
        &&& self.header.count <= MAX_NUM_EVENTS
        &&& self.header.count <= self.header.seq_num
    }

    /// A fresh zero-filled arena, as the hosting collaborator hands it over.
    pub fn zeroed() -> (q: EventQueue)
        ensures
            q.wf(),
            q@ == Seq::<AnyEvent>::empty(),
            q.header.head == 0,
            q.header.count == 0,
            q.header.seq_num == 0,
    {
        let mut buf: Vec<AnyEvent> = Vec::new();
        let mut i: usize = 0;
        while i < MAX_NUM_EVENTS
            invariant
                i <= MAX_NUM_EVENTS,
                buf.len() == i,
            decreases MAX_NUM_EVENTS - i,
        {
            buf.push(AnyEvent::zeroed());
            i += 1;
        }
        let mut reserved: Vec<u8> = Vec::new();
        let mut j: usize = 0;
        while j < 64
            invariant
                j <= 64,
                reserved.len() == j,
            decreases 64 - j,
        {
            reserved.push(0u8);
            j += 1;
        }
        let q = EventQueue {
            header: EventQueueHeader { head: 0, count: 0, seq_num: 0 },
            buf,
            reserved,
        };
        proof {
            assert(q@ =~= Seq::<AnyEvent>::empty());
        }
        q
    }

    pub fn len(&self) -> (r: usize)
        ensures
            r == self@.len(),
    {
        self.header.count()
    }

    pub fn is_empty(&self) -> (r: bool)
        ensures
            r == (self@.len() == 0),
    {
        self.len() == 0
    }

    pub fn full(&self) -> (r: bool)
        requires
            self.wf(),
        ensures
            r == (self@.len() == MAX_NUM_EVENTS),
    {
        self.header.count() == self.buf.len()
    }

    /// Appends `value` at the tail slot `(head + count) % N`, growing the live
    /// window and the sequence counter by one; fails with `Full`, changing
    /// nothing, exactly when the queue is saturated.
    pub fn push_back(&mut self, value: AnyEvent) -> (r: Result<(), QueueError>)
        requires
            old(self).wf(),
            old(self).header.seq_num < u64::MAX,
        ensures
            final(self).wf(),
            old(self)@.len() == MAX_NUM_EVENTS ==> r == Err::<(), QueueError>(QueueError::Full)
                && *final(self) == *old(self),
            old(self)@.len() < MAX_NUM_EVENTS ==> r == Ok::<(), QueueError>(()),
            old(self)@.len() < MAX_NUM_EVENTS ==> final(self)@ == old(self)@.push(value),
            old(self)@.len() < MAX_NUM_EVENTS ==> final(self).header.seq_num == old(
                self,
            ).header.seq_num + 1,
            old(self)@.len() < MAX_NUM_EVENTS ==> final(self).header.head == old(
                self,
            ).header.head,
    {
        if self.full() {
            return Err(QueueError::Full);
        }
        let slot = (self.header.head() + self.header.count()) % self.buf.len();
        self.buf.set(slot, value);
        let count = self.header.count();
        self.header.count = (count + 1) as u32;
        self.header.seq_num = self.header.seq_num + 1;
        proof {
            lemma_window_distinct(
                old(self).header.head as int,
                old(self).header.count as int + 1,
            );
            assert(self@ =~= old(self)@.push(value));
        }
        Ok(())
    }

    /// Reads the head element without removing it; `None` exactly when empty.
    pub fn peek_front(&self) -> (r: Option<&AnyEvent>)
        requires
            self.wf(),
        ensures
            match r {
                Some(e) => self@.len() > 0 && *e == self@[0],
                None => self@.len() == 0,
            },
    {
        if self.is_empty() {
            return None;
        }
        proof {
            assert(ring_slot(self.header.head as int, 0) == self.header.head as int) by {
                lemma_mod_window(self.header.head as int, MAX_NUM_EVENTS as int);
            }
        }
        Some(&self.buf[self.header.head()])
    }

    /// Borrows the head element mutably without removing it; `None` exactly
    /// when empty. Only the head element can change through the borrow.
    pub fn peek_front_mut(&mut self) -> (r: Option<&mut AnyEvent>)
        requires
            old(self).wf(),
        ensures
            old(self)@.len() == 0 ==> r is None && *final(self) == *old(self),
            old(self)@.len() > 0 ==> match r {
                Some(e) => {
                    &&& *e == old(self)@[0]
                    &&& final(self)@ == old(self)@.update(0, *final(e))
                    &&& final(self).header == old(self).header
                    &&& final(self).wf()
                },
                None => false,
            },
    {
        if self.is_empty() {
            return None;
        }
        let h = self.header.head();
        proof {
            lemma_window_distinct(self.header.head as int, self.header.count as int);
            assert(ring_slot(self.header.head as int, 0) == self.header.head as int) by {
                lemma_mod_window(self.header.head as int, MAX_NUM_EVENTS as int);
            }
        }
        Some(&mut self.buf[h])
    }

    /// Removes and returns the head element, advancing `head` modulo the
    /// capacity; the sequence counter is untouched. Fails with `Empty`,
    /// changing nothing, exactly when the queue is empty.
    pub fn pop_front(&mut self) -> (r: Result<AnyEvent, QueueError>)
        requires
            old(self).wf(),
        ensures
            final(self).wf(),
            old(self)@.len() == 0 ==> r == Err::<AnyEvent, QueueError>(QueueError::Empty)
                && *final(self) == *old(self),
            old(self)@.len() > 0 ==> r == Ok::<AnyEvent, QueueError>(old(self)@[0]),
            old(self)@.len() > 0 ==> final(self)@ == old(self)@.drop_first(),
            old(self)@.len() > 0 ==> final(self).header.seq_num == old(self).header.seq_num,
            old(self)@.len() > 0 ==> final(self).header.head == ((old(self).header.head + 1) as int
                % (MAX_NUM_EVENTS as int)),
    {
        if self.is_empty() {
            return Err(QueueError::Empty);
        }
        proof {
            assert(ring_slot(self.header.head as int, 0) == self.header.head as int) by {
                lemma_mod_window(self.header.head as int, MAX_NUM_EVENTS as int);
            }
        }
        let value = self.buf[self.header.head()];
        let count = self.header.count();
        self.header.count = (count - 1) as u32;
        let head = self.header.head();
        self.header.head = ((head + 1) % self.buf.len()) as u32;
        proof {
            lemma_head_advance(old(self).header.head as int, old(self).header.count as int);
            assert(self@ =~= old(self)@.drop_first());
        }
        Ok(value)
    }

    /// Tail truncation that undoes speculative pushes: keeps the oldest
    /// `desired_len` elements and rewinds the sequence counter by the number
    /// dropped. Fails with `Underflow`, changing nothing, exactly when
    /// `desired_len` exceeds the current count. Not to be confused with
    /// `pop_front`, which trims from the head and never rewinds the counter.
    pub fn revert_pushes(&mut self, desired_len: usize) -> (r: Result<(), QueueError>)
        requires
            old(self).wf(),
        ensures
            final(self).wf(),
            desired_len > old(self)@.len() ==> r == Err::<(), QueueError>(QueueError::Underflow)
                && *final(self) == *old(self),
            desired_len <= old(self)@.len() ==> r == Ok::<(), QueueError>(()),
            desired_len <= old(self)@.len() ==> final(self)@ == old(self)@.take(desired_len as int),
            desired_len <= old(self)@.len() ==> final(self).header.seq_num == old(
                self,
            ).header.seq_num - (old(self)@.len() - desired_len),
            desired_len <= old(self)@.len() ==> final(self).header.head == old(self).header.head,
    {
        if desired_len > self.header.count() {
            return Err(QueueError::Underflow);
        }
        let len_diff = self.header.count() - desired_len;
        self.header.count = desired_len as u32;
        self.header.seq_num = self.header.seq_num - (len_diff as u64);
        proof {
            assert(self@ =~= old(self)@.take(desired_len as int));
        }
        Ok(())
    }

    /// Swaps the raw contents of two absolute buffer positions, headers
    /// untouched. This is the order-disturbing half of the swap-then-pop
    /// removal trick: it ignores the live window, so after a swap the FIFO
    /// order of the live elements is no longer the insertion order.
    pub fn swap_slots(&mut self, a: usize, b: usize)
        requires
            old(self).wf(),
            a < MAX_NUM_EVENTS,
            b < MAX_NUM_EVENTS,
        ensures
            final(self).wf(),
            final(self).header == old(self).header,
            final(self).buf@ == old(self).buf@.update(a as int, old(self).buf@[b as int]).update(
                b as int,
                old(self).buf@[a as int],
            ),
    {
        let va = self.buf[a];
        let vb = self.buf[b];
        self.buf.set(a, vb);
        self.buf.set(b, va);
    }

    /// A fresh traversal of the live window, positioned at the oldest element.
    pub fn iter(&self) -> (it: EventQueueIterator)
        ensures
            it.index == 0,
    {
        EventQueueIterator { index: 0 }
    }

    /// The live elements, oldest first, as one vector.
    pub fn events(&self) -> (v: Vec<AnyEvent>)
        requires
            self.wf(),
        ensures
            v@ == self@,
    {
        let mut v: Vec<AnyEvent> = Vec::new();
        let mut it = self.iter();
        loop
            invariant
                self.wf(),
                it.index <= self@.len(),
                v@ == self@.take(it.index as int),
            decreases self@.len() - it.index,
        {
            let n = it.next(self);
            match n {
                Some(e) => {
                    v.push(e);
                    proof {
                        assert(v@ =~= self@.take(it.index as int));
                    }
                },
                None => {
                    proof {
                        assert(v@ =~= self@);
                    }
                    return v;
                },
            }
        }
    }
}

/// Lazy, restartable traversal of a ring-buffer queue: yields the live
/// elements oldest-first. The queue must not be mutated while a traversal is
/// in progress; the borrow taken by `next` enforces that per call.
pub struct EventQueueIterator {
    pub index: usize,
}

impl EventQueueIterator {
    pub fn next(&mut self, queue: &EventQueue) -> (r: Option<AnyEvent>)
        requires
            queue.wf(),
            old(self).index <= queue@.len(),
        ensures
            final(self).index <= queue@.len(),
            old(self).index == queue@.len() ==> r is None && *final(self) == *old(self),
            old(self).index < queue@.len() ==> r == Some(queue@[old(self).index as int])
                && final(self).index == old(self).index + 1,
    {
        if self.index == queue.len() {
            None
        } else {
            let item = queue.buf[(queue.header.head() + self.index) % queue.buf.len()];
            self.index += 1;
            Some(item)
        }
    }
}

/// Within one live window the slot formula is injective: two distinct offsets
/// below the capacity land on distinct buffer positions.
proof fn lemma_window_distinct(head: int, count: int)
    requires
        0 <= head < MAX_NUM_EVENTS,
        0 <= count <= MAX_NUM_EVENTS,
    ensures
        forall|i: int, j: int|
            #![trigger ring_slot(head, i), ring_slot(head, j)]
            0 <= i < count && 0 <= j < count && i != j ==> ring_slot(head, i) != ring_slot(
                head,
                j,
            ),
{
    let n = MAX_NUM_EVENTS as int;
    assert forall|i: int, j: int|
        0 <= i < count && 0 <= j < count && i != j implies ring_slot(head, i) != ring_slot(
        head,
        j,
    ) by {
        lemma_mod_window(head + i, n);
        lemma_mod_window(head + j, n);
    }
}

/// Advancing the head by one commutes with the modular slot formula.
proof fn lemma_head_advance(head: int, count: int)
    requires
        0 <= head < MAX_NUM_EVENTS,
        0 <= count <= MAX_NUM_EVENTS,
    ensures
        forall|i: int|
            0 <= i < count ==> #[trigger] ring_slot(
                (head + 1) % (MAX_NUM_EVENTS as int),
                i,
            ) == ring_slot(head, i + 1),
{
    let n = MAX_NUM_EVENTS as int;
    assert forall|i: int| 0 <= i < count implies #[trigger] ring_slot((head + 1) % n, i)
        == ring_slot(head, i + 1) by {
        lemma_mod_window(head + 1, n);
        if head + 1 < n {
            lemma_mod_window(head + 1 + i, n);
        } else {
            lemma_mod_window(i, n);
            lemma_mod_window(head + 1 + i, n);
        }
    }
}

/// Reduction of one wrap-around: for a value below twice the modulus, `%`
/// either keeps it or subtracts the modulus once.
proof fn lemma_mod_window(a: int, n: int)
    requires
        0 < n,
        0 <= a < 2 * n,
    ensures
        a % n == if a < n {
            a
        } else {
            a - n
        },
{
    if a < n {
        assert(a % n == a) by (nonlinear_arith)
            requires
                0 <= a < n,
        ;
    } else {
        assert((a - n) % n == a % n) by (nonlinear_arith)
            requires
                0 < n,
        ;
        assert((a - n) % n == a - n) by (nonlinear_arith)
            requires
                0 <= a - n < n,
        ;
    }
}

} // verus!
