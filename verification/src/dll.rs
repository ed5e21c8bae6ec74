//! Linked-list backend: an intrusive doubly-linked list over the same fixed
//! arena, with a free-list allocator.
//!
//! Every slot carries `prev`/`next` slot indices instead of pointers, so the
//! whole structure is relocatable and byte-copyable. The live slots form one
//! circular doubly-linked "used" chain starting at `used_head`; the remaining
//! slots form a singly-linked "free" chain starting at `free_head`, consumed
//! and refilled like a stack (the most recently freed slot is reused first).
//! Push, pop and deletion of an arbitrary live slot are all O(1); only `init`
//! is O(N).
//!
//! The verified model keeps the two chains as ghost sequences of slot
//! indices: [`DLLEventQueue::used_order`] lists the live slots oldest-first
//! and [`DLLEventQueue::free_order`] lists the free slots top-of-stack-first.
//! Well-formedness ties every `prev`/`next` field to its position in one of
//! the two chains, and the queue's view is the payload sequence along the
//! used chain.

use vstd::prelude::*;

use crate::events::{AnyEvent, QueueError};
use crate::MAX_NUM_EVENTS;

verus! {

/// Sentinel index meaning "no slot": the maximum value of the index width,
/// distinct from every valid slot index.
pub const NULL: u16 = u16::MAX;

/// One arena slot: the opaque payload plus the intrusive chain links.
#[derive(Clone, Copy, Debug)]
pub struct Node {
    pub next: u16,
    pub prev: u16,
    pub event: AnyEvent,
}

impl Node {
    /// The cheap occupancy tag: a slot is free exactly when its `prev` link
    /// holds the sentinel, which spares a separate bitmap.
    pub fn is_free(&self) -> (r: bool)
        ensures
            r == (self.prev == NULL),
    {
        self.prev == NULL
    }

    pub fn next(&self) -> (r: usize)
        ensures
            r == self.next as usize,
    {
        self.next as usize
    }

    pub fn prev(&self) -> (r: usize)
        ensures
            r == self.prev as usize,
    {
        self.prev as usize
    }
}

/// Linked-list control block: 16 bytes on the wire (`free_head: u16,
/// used_head: u16, count: u16`, two padding bytes, `seq_num: u64`).
#[derive(Clone, Copy, Debug)]
pub struct DLLHeader {
    pub free_head: u16,
    pub used_head: u16,
    pub count: u16,
    pub seq_num: u64,
}

impl DLLHeader {
    pub fn count(&self) -> (r: usize)
        ensures
            r == self.count as usize,
    {
        self.count as usize
    }

    pub fn free_head(&self) -> (r: usize)
        ensures
            r == self.free_head as usize,
    {
        self.free_head as usize
    }

    pub fn used_head(&self) -> (r: usize)
        ensures
            r == self.used_head as usize,
    {
        self.used_head as usize
    }
}

/// The linked-list event queue: header, the fixed array of slots, a trailing
/// reserved region kept for forward-compatible extensions, and the ghost
/// chain orders that the contracts speak of.
pub struct DLLEventQueue {
    pub header: DLLHeader,
    pub nodes: Vec<Node>,
    pub reserved: Vec<u8>,
    pub order: Ghost<Seq<int>>,
    pub free_list: Ghost<Seq<int>>,
}

impl View for DLLEventQueue {
    type V = Seq<AnyEvent>;

    /// The live payloads in FIFO order along the used chain.
    open spec fn view(&self) -> Seq<AnyEvent> {
        Seq::new(self.order@.len(), |i: int| self.nodes@[self.order@[i]].event)
    }
}

impl DLLEventQueue {
    /// The live slots, oldest insertion first; the used chain starts at
    /// `used_order()[0]` and wraps circularly.
    pub open spec fn used_order(self) -> Seq<int> {
        self.order@
    }

    /// The free slots, top of the free-list stack first.
    pub open spec fn free_order(self) -> Seq<int> {
        self.free_list@
    }

    /// `s` currently holds a live element.
    pub open spec fn slot_used(self, s: int) -> bool {
        self.order@.contains(s)
    }

    /// `s` is currently on the free chain.
    pub open spec fn slot_free(self, s: int) -> bool {
        self.free_list@.contains(s)
    }

    /// The used chain is circular: the node at position `i` of the used order
    /// links forward to position `i + 1` (wrapping to the head) and backward
    /// to position `i - 1` (wrapping to the tail).
    pub open spec fn used_links_ok(self, i: int) -> bool {
        let o = self.order@;
        let n = o.len() as int;
        &&& self.nodes@[o[i]].next as int == o[if i + 1 < n {
            i + 1
        } else {
            0
        }]
        &&& self.nodes@[o[i]].prev as int == o[if i == 0 {
            n - 1
        } else {
            i - 1
        }]
    }

    /// The free chain is linear: the node at position `i` of the free order
    /// links forward to position `i + 1` (or the sentinel at the end) and
    /// carries the sentinel in `prev` as its free tag.
    pub open spec fn free_links_ok(self, i: int) -> bool {
        let f = self.free_list@;
        &&& self.nodes@[f[i]].prev == NULL
        &&& self.nodes@[f[i]].next as int == (if i + 1 < f.len() {
            f[i + 1]
        } else {
            NULL as int
        })
    }

    /// Structural validity: every slot is on exactly one of the two chains,
    /// the chains' link fields match their order, and the header mirrors the
    /// chain heads and the live count.
    pub open spec fn wf(self) -> bool {
        &&& self.nodes.len() == MAX_NUM_EVENTS
        &&& self.reserved.len() == 64
        &&& self.order@.len() + self.free_list@.len() == MAX_NUM_EVENTS
        &&& self.header.count as int == self.order@.len()
        &&& forall|i: int|
            0 <= i < self.order@.len() ==> 0 <= #[trigger] self.order@[i] < MAX_NUM_EVENTS
        &&& forall|i: int|
            0 <= i < self.free_list@.len() ==> 0 <= #[trigger] self.free_list@[i] < MAX_NUM_EVENTS
        &&& self.order@.no_duplicates()
        &&& self.free_list@.no_duplicates()
        &&& forall|i: int|
            0 <= i < self.order@.len() ==> !self.free_list@.contains(#[trigger] self.order@[i])
        &&& forall|s: int|
            0 <= s < MAX_NUM_EVENTS ==> #[trigger] self.order@.contains(s)
                || self.free_list@.contains(s)
        &&& self.header.used_head as int == (if self.order@.len() == 0 {
            NULL as int
        } else {
            self.order@[0]
        })
        &&& self.header.free_head as int == (if self.free_list@.len() == 0 {
            NULL as int
        } else {
            self.free_list@[0]
        })
        &&& forall|i: int| 0 <= i < self.order@.len() ==> #[trigger] self.used_links_ok(i)
        &&& forall|i: int| 0 <= i < self.free_list@.len() ==> #[trigger] self.free_links_ok(i)
    }

    /// The occupancy tag agrees with chain membership: a slot's `prev` link
    /// holds the sentinel exactly when the slot is on the free chain, and a
    /// valid index exactly when it is on the used chain.
    pub proof fn lemma_free_tag(self, s: int)
        requires
            self.wf(),
            0 <= s < MAX_NUM_EVENTS,
        ensures
            (self.nodes@[s].prev == NULL) <==> self.slot_free(s),
            (self.nodes@[s].prev != NULL) <==> self.slot_used(s),
    {
        assert(self.order@.contains(s) || self.free_list@.contains(s));
        if self.free_list@.contains(s) {
            let j = choose|j: int|
                0 <= j < self.free_list@.len() && self.free_list@[j] == s;
            assert(self.free_links_ok(j));
            assert(self.nodes@[s].prev == NULL);
            assert(!self.order@.contains(s)) by {
                if self.order@.contains(s) {
                    let i = choose|i: int| 0 <= i < self.order@.len() && self.order@[i] == s;
                    assert(!self.free_list@.contains(self.order@[i]));
                }
            }
        } else {
            assert(self.order@.contains(s));
            let i = choose|i: int| 0 <= i < self.order@.len() && self.order@[i] == s;
            assert(self.used_links_ok(i));
            assert((self.nodes@[s].prev as int) < (MAX_NUM_EVENTS as int));
            assert(self.nodes@[s].prev != NULL);
        }
    }

    /// Slot conservation: the used and free chains always partition the
    /// arena, so their lengths sum to the capacity and the header count is
    /// the used chain's length.
    pub proof fn lemma_slot_conservation(self)
        requires
            self.wf(),
        ensures
            self.used_order().len() + self.free_order().len() == MAX_NUM_EVENTS,
            self.used_order().len() == self.header.count,
    {
    }

    /// The queue is empty exactly when the used head holds the sentinel.
    pub proof fn lemma_empty_used_head(self)
        requires
            self.wf(),
        ensures
            (self@.len() == 0) <==> (self.header.used_head == NULL),
    {
        if self.order@.len() > 0 {
            assert(self.header.used_head as int == self.order@[0]);
            assert(self.order@[0] < MAX_NUM_EVENTS);
        }
    }

    /// A fresh zero-filled arena, as the hosting collaborator hands it over.
    /// Not yet well-formed: `init` must run before use.
    pub fn zeroed() -> (q: DLLEventQueue)
        ensures
            q.nodes.len() == MAX_NUM_EVENTS,
            q.reserved.len() == 64,
            q.header.free_head == 0,
            q.header.used_head == 0,
            q.header.count == 0,
            q.header.seq_num == 0,
    {
        let mut nodes: Vec<Node> = Vec::new();
        let mut i: usize = 0;
        while i < MAX_NUM_EVENTS
            invariant
                i <= MAX_NUM_EVENTS,
                nodes.len() == i,
            decreases MAX_NUM_EVENTS - i,
        {
            nodes.push(Node { next: 0, prev: 0, event: AnyEvent::zeroed() });
            i += 1;
        }
        let mut reserved: Vec<u8> = Vec::new();
        let mut j: usize = 0;
        while j < 64
            invariant
                j <= 64,
                reserved.len() == j,
            decreases 64 - j,
        {
            reserved.push(0u8);
            j += 1;
        }
        DLLEventQueue {
            header: DLLHeader { free_head: 0, used_head: 0, count: 0, seq_num: 0 },
            nodes,
            reserved,
            order: Ghost(Seq::empty()),
            free_list: Ghost(Seq::empty()),
        }
    }

    /// Formats the arena: resets the header and links every slot into one
    /// linear free chain, slot `i` pointing at `i + 1` and the last slot at
    /// the sentinel. After it, the queue is empty and well-formed, and the
    /// free chain visits all slots in ascending order.
    pub fn init(&mut self)
        requires
            old(self).nodes.len() == MAX_NUM_EVENTS,
            old(self).reserved.len() == 64,
        ensures
            final(self).wf(),
            final(self)@ == Seq::<AnyEvent>::empty(),
            final(self).header.count == 0,
            final(self).header.used_head == NULL,
            final(self).header.free_head == 0,
            final(self).header.seq_num == 0,
            final(self).free_order() == Seq::new(MAX_NUM_EVENTS as nat, |i: int| i),
    {
        self.header = DLLHeader { free_head: 0, used_head: NULL, count: 0, seq_num: 0 };
        let mut i: usize = 0;
        while i < MAX_NUM_EVENTS
            invariant
                i <= MAX_NUM_EVENTS,
                self.nodes.len() == MAX_NUM_EVENTS,
                self.reserved.len() == 64,
                self.header.free_head == 0,
                self.header.used_head == NULL,
                self.header.count == 0,
                self.header.seq_num == 0,
                forall|j: int|
                    #![trigger self.nodes@[j]]
                    0 <= j < i ==> self.nodes@[j].next as int == j + 1 && self.nodes@[j].prev
                        == NULL,
            decreases MAX_NUM_EVENTS - i,
        {
            let mut n = self.nodes[i];
            n.next = (i + 1) as u16;
            n.prev = NULL;
            self.nodes.set(i, n);
            i += 1;
        }
        let mut last = self.nodes[MAX_NUM_EVENTS - 1];
        last.next = NULL;
        self.nodes.set(MAX_NUM_EVENTS - 1, last);
        self.order = Ghost(Seq::empty());
        self.free_list = Ghost(Seq::new(MAX_NUM_EVENTS as nat, |i: int| i));
        proof {
            let f = self.free_list@;
            assert forall|s: int| 0 <= s < MAX_NUM_EVENTS implies #[trigger] self.order@.contains(
                s,
            ) || self.free_list@.contains(s) by {
                assert(f[s] == s);
            }
            assert forall|k: int| 0 <= k < f.len() implies #[trigger] self.free_links_ok(k) by {
                assert(f[k] == k);
                if k + 1 < f.len() {
                    assert(f[k + 1] == k + 1);
                }
            }
            assert(self@ =~= Seq::<AnyEvent>::empty());
        }
    }

    pub fn len(&self) -> (r: usize)
        requires
            self.wf(),
        ensures
            r == self@.len(),
    {
        self.header.count()
    }

    pub fn is_empty(&self) -> (r: bool)
        requires
            self.wf(),
        ensures
            r == (self@.len() == 0),
    {
        self.len() == 0
    }

    pub fn is_full(&self) -> (r: bool)
        requires
            self.wf(),
        ensures
            r == (self@.len() == MAX_NUM_EVENTS),
    {
        self.len() == self.nodes.len()
    }

    /// Takes the slot at the top of the free chain, writes `value` into it
    /// and links it in as the new logical tail, immediately before the head
    /// of the circular used chain; count and sequence counter grow by one.
    /// Fails with `Full`, changing nothing, exactly when the queue is
    /// saturated.
    pub fn push_back(&mut self, value: AnyEvent) -> (r: Result<(), QueueError>)
        requires
            old(self).wf(),
            old(self).header.seq_num < u64::MAX,
        ensures
            final(self).wf(),
            old(self)@.len() == MAX_NUM_EVENTS ==> r == Err::<(), QueueError>(QueueError::Full)
                && *final(self) == *old(self),
            old(self)@.len() < MAX_NUM_EVENTS ==> r == Ok::<(), QueueError>(()),
            old(self)@.len() < MAX_NUM_EVENTS ==> final(self)@ == old(self)@.push(value),
            old(self)@.len() < MAX_NUM_EVENTS ==> final(self).used_order() == old(
                self,
            ).used_order().push(old(self).free_order()[0]),
            old(self)@.len() < MAX_NUM_EVENTS ==> final(self).free_order() == old(
                self,
            ).free_order().drop_first(),
            old(self)@.len() < MAX_NUM_EVENTS ==> final(self).header.seq_num == old(
                self,
            ).header.seq_num + 1,
    {
        if self.is_full() {
            return Err(QueueError::Full);
        }
        proof {
            assert(self.free_list@.len() > 0);
            assert(self.free_links_ok(0));
            assert(0 <= self.free_list@[0] < MAX_NUM_EVENTS);
            assert(!self.order@.contains(self.free_list@[0])) by {
                if self.order@.contains(self.free_list@[0]) {
                    let i = choose|i: int|
                        0 <= i < self.order@.len() && self.order@[i] == self.free_list@[0];
                    assert(!self.free_list@.contains(self.order@[i]));
                }
            }
        }
        let slot = self.header.free_head();
        let next_free = self.nodes[slot].next;
        let new_next: usize;
        let new_prev: usize;
        if self.is_empty() {
            new_next = slot;
            new_prev = slot;
            self.header.free_head = next_free;
            self.header.used_head = slot as u16;
        } else {
            proof {
                assert(self.used_links_ok(0));
                assert(0 <= self.order@[self.order@.len() - 1] < MAX_NUM_EVENTS);
            }
            new_next = self.header.used_head();
            new_prev = self.nodes[new_next].prev();
            let mut pn = self.nodes[new_prev];
            pn.next = slot as u16;
            self.nodes.set(new_prev, pn);
            let mut nn = self.nodes[new_next];
            nn.prev = slot as u16;
            self.nodes.set(new_next, nn);
            self.header.free_head = next_free;
        }
        self.header.count = self.header.count + 1;
        self.header.seq_num = self.header.seq_num + 1;
        self.nodes.set(slot, Node { next: new_next as u16, prev: new_prev as u16, event: value });
        let ghost s_int = slot as int;
        self.order = Ghost(self.order@.push(s_int));
        self.free_list = Ghost(self.free_list@.drop_first());
        proof {
            let o = old(self).order@;
            let f = old(self).free_list@;
            let n = o.len() as int;
            let s = f[0];
            let o2 = self.order@;
            let f2 = self.free_list@;
            assert(!o.contains(s));
            // every payload outside the taken slot is untouched
            assert(forall|x: int|
                0 <= x < MAX_NUM_EVENTS && x != s ==> self.nodes@[x].event == old(
                    self,
                ).nodes@[x].event);
            // the arena is still partitioned by the two chains
            assert forall|t: int| 0 <= t < MAX_NUM_EVENTS implies #[trigger] o2.contains(t)
                || f2.contains(t) by {
                assert(o.contains(t) || f.contains(t));
                if o.contains(t) {
                    let i = choose|i: int| 0 <= i < o.len() && o[i] == t;
                    assert(o2[i] == t);
                } else {
                    let j = choose|j: int| 0 <= j < f.len() && f[j] == t;
                    if j == 0 {
                        assert(o2[n] == t);
                    } else {
                        assert(f2[j - 1] == t);
                    }
                }
            }
            assert(o2.no_duplicates()) by {
                assert forall|i: int, j: int|
                    0 <= i < o2.len() && 0 <= j < o2.len() && i != j implies o2[i] != o2[j] by {
                    if i == n {
                        assert(o2[j] == o[j]);
                        if o[j] == s {
                            assert(o.contains(s));
                        }
                    } else if j == n {
                        assert(o2[i] == o[i]);
                        if o[i] == s {
                            assert(o.contains(s));
                        }
                    } else {
                        assert(o2[i] == o[i] && o2[j] == o[j]);
                    }
                }
            }
            assert forall|i: int| 0 <= i < o2.len() implies !f2.contains(#[trigger] o2[i]) by {
                if f2.contains(o2[i]) {
                    let j = choose|j: int| 0 <= j < f2.len() && f2[j] == o2[i];
                    assert(f[j + 1] == o2[i]);
                    if i < n {
                        assert(f.contains(o[i]));
                    } else {
                        assert(f[j + 1] == f[0]);
                    }
                }
            }
            // the used chain is circular over the new order
            assert forall|i: int| 0 <= i < o2.len() implies #[trigger] self.used_links_ok(i) by {
                if n == 0 {
                    assert(o2[0] == s);
                } else {
                    let nn_s = o[0];
                    let np_s = o[n - 1];
                    assert(old(self).used_links_ok(0));
                    assert(old(self).used_links_ok(n - 1));
                    if i < n {
                        assert(old(self).used_links_ok(i));
                        assert(o2[i] == o[i]);
                        if i + 1 < n {
                            assert(o2[i + 1] == o[i + 1]);
                        }
                        if i > 0 {
                            assert(o2[i - 1] == o[i - 1]);
                        }
                        assert(o2[n] == s);
                    } else {
                        assert(o2[n] == s && o2[0] == o[0] && o2[n - 1] == o[n - 1]);
                    }
                }
            }
            // the free chain shifts down by one
            assert forall|i: int| 0 <= i < f2.len() implies #[trigger] self.free_links_ok(i) by {
                assert(old(self).free_links_ok(i + 1));
                assert(f2[i] == f[i + 1]);
                if i + 1 < f2.len() {
                    assert(f2[i + 1] == f[i + 2]);
                }
                assert(f[i + 1] != s);
                assert(f.contains(f[i + 1]));
                if n > 0 {
                    assert(!f.contains(o[0]));
                    assert(!f.contains(o[n - 1]));
                    assert(f[i + 1] != o[0] && f[i + 1] != o[n - 1]);
                }
            }
            if f.len() > 1 {
                assert(f2[0] == f[1]);
            }
            assert(self@ =~= old(self)@.push(value)) by {
                assert forall|i: int| 0 <= i < n + 1 implies self@[i] == old(self)@.push(value)[i] by {
                    if i < n {
                        assert(o2[i] == o[i]);
                        assert(o[i] != s);
                        assert(self.nodes@[o[i]].event == old(self).nodes@[o[i]].event);
                    } else {
                        assert(o2[n] == s);
                    }
                }
            }
        }
        Ok(())
    }

    /// Unlinks `slot` from the used chain, pushes it onto the free chain as
    /// its new top (so it is reused next: LIFO policy), fixes the head
    /// bookkeeping and returns the removed payload. Survivors keep their
    /// relative insertion order; the sequence counter is untouched. Fails
    /// with `InvalidSlot`, changing nothing, exactly when `slot` is out of
    /// range or not currently live.
    #[verifier::rlimit(60)]
    pub fn delete_slot(&mut self, slot: usize) -> (r: Result<AnyEvent, QueueError>)
        requires
            old(self).wf(),
        ensures
            final(self).wf(),
            !old(self).slot_used(slot as int) ==> r == Err::<AnyEvent, QueueError>(
                QueueError::InvalidSlot,
            ) && *final(self) == *old(self),
            old(self).slot_used(slot as int) ==> ({
                let k = old(self).used_order().index_of(slot as int);
                &&& r == Ok::<AnyEvent, QueueError>(old(self)@[k])
                &&& final(self)@ == old(self)@.remove(k)
                &&& final(self).used_order() == old(self).used_order().remove(k)
                &&& final(self).free_order() == seq![slot as int] + old(self).free_order()
                &&& final(self).header.seq_num == old(self).header.seq_num
            }),
    {
        if slot >= MAX_NUM_EVENTS {
            proof {
                if self.order@.contains(slot as int) {
                    let i = choose|i: int|
                        0 <= i < self.order@.len() && self.order@[i] == slot as int;
                    assert(0 <= self.order@[i] < MAX_NUM_EVENTS);
                }
            }
            return Err(QueueError::InvalidSlot);
        }
        if self.is_empty() || self.nodes[slot].is_free() {
            proof {
                self.lemma_free_tag(slot as int);
            }
            return Err(QueueError::InvalidSlot);
        }
        proof {
            self.lemma_free_tag(slot as int);
            assert(self.slot_used(slot as int));
        }
        let ghost o = self.order@;
        let ghost f = self.free_list@;
        let ghost n = o.len() as int;
        let ghost k = o.index_of(slot as int);
        let ghost np_i = o[if k == 0 {
            n - 1
        } else {
            k - 1
        }];
        let ghost ns_i = o[if k + 1 < n {
            k + 1
        } else {
            0
        }];
        proof {
            assert(o.contains(slot as int));
            assert(0 <= k < n && o[k] == slot as int);
            assert(self.used_links_ok(k));
            assert(0 <= np_i < MAX_NUM_EVENTS);
            assert(0 <= ns_i < MAX_NUM_EVENTS);
            assert(!f.contains(o[k]));
        }
        let prev_slot = self.nodes[slot].prev();
        let next_slot = self.nodes[slot].next();
        let next_free = self.header.free_head;
        let mut pn = self.nodes[prev_slot];
        pn.next = next_slot as u16;
        self.nodes.set(prev_slot, pn);
        let mut nn = self.nodes[next_slot];
        nn.prev = prev_slot as u16;
        self.nodes.set(next_slot, nn);
        self.header.free_head = slot as u16;
        if self.header.count() == 1 {
            self.header.used_head = NULL;
        } else if self.header.used_head() == slot {
            self.header.used_head = next_slot as u16;
        }
        self.header.count = self.header.count - 1;
        let mut sn = self.nodes[slot];
        sn.next = next_free;
        sn.prev = NULL;
        self.nodes.set(slot, sn);
        let result = self.nodes[slot].event;
        self.order = Ghost(self.order@.remove(k));
        self.free_list = Ghost(seq![slot as int] + self.free_list@);
        proof {
            let s = slot as int;
            let o2 = self.order@;
            let f2 = self.free_list@;
            o.remove_ensures(k);
            old(self)@.remove_ensures(k);
            assert(prev_slot as int == np_i && next_slot as int == ns_i);
            // payloads are untouched everywhere
            assert(forall|x: int|
                0 <= x < MAX_NUM_EVENTS ==> self.nodes@[x].event == old(self).nodes@[x].event);
            // the arena is still partitioned by the two chains
            assert forall|t: int| 0 <= t < MAX_NUM_EVENTS implies #[trigger] o2.contains(t)
                || f2.contains(t) by {
                assert(o.contains(t) || f.contains(t));
                if o.contains(t) {
                    let i = choose|i: int| 0 <= i < o.len() && o[i] == t;
                    if i == k {
                        assert(f2[0] == t);
                    } else if i < k {
                        assert(o2[i] == t);
                    } else {
                        assert(o2[i - 1] == t);
                    }
                } else {
                    let j = choose|j: int| 0 <= j < f.len() && f[j] == t;
                    assert(f2[j + 1] == t);
                }
            }
            assert(o2.no_duplicates()) by {
                assert forall|i: int, j: int|
                    0 <= i < o2.len() && 0 <= j < o2.len() && i != j implies o2[i] != o2[j] by {
                    assert(o2[i] == o[if i < k {
                        i
                    } else {
                        i + 1
                    }]);
                    assert(o2[j] == o[if j < k {
                        j
                    } else {
                        j + 1
                    }]);
                }
            }
            assert(f2.no_duplicates()) by {
                assert forall|i: int, j: int|
                    0 <= i < f2.len() && 0 <= j < f2.len() && i != j implies f2[i] != f2[j] by {
                    if i > 0 && j > 0 {
                        assert(f2[i] == f[i - 1] && f2[j] == f[j - 1]);
                    } else if i == 0 && j > 0 {
                        assert(f2[j] == f[j - 1] && f.contains(f[j - 1]));
                    } else {
                        assert(f2[i] == f[i - 1] && f.contains(f[i - 1]));
                    }
                }
            }
            assert forall|i: int| 0 <= i < o2.len() implies !f2.contains(#[trigger] o2[i]) by {
                let m = if i < k {
                    i
                } else {
                    i + 1
                };
                assert(o2[i] == o[m]);
                assert(o[m] != o[k]);
                assert(!f.contains(o[m]));
                if f2.contains(o2[i]) {
                    let j = choose|j: int| 0 <= j < f2.len() && f2[j] == o2[i];
                    if j == 0 {
                        assert(f2[0] == s);
                    } else {
                        assert(f2[j] == f[j - 1] && f.contains(f[j - 1]));
                    }
                }
            }
            // the used chain stays circular over the shortened order
            assert forall|i: int| 0 <= i < o2.len() implies #[trigger] self.used_links_ok(i) by {
                let m = if i < k {
                    i
                } else {
                    i + 1
                };
                let jn = if i + 1 < o2.len() {
                    i + 1
                } else {
                    0
                };
                let jp = if i == 0 {
                    o2.len() - 1
                } else {
                    i - 1
                };
                let mn = if jn < k {
                    jn
                } else {
                    jn + 1
                };
                let mp = if jp < k {
                    jp
                } else {
                    jp + 1
                };
                assert(o2[i] == o[m] && o2[jn] == o[mn] && o2[jp] == o[mp]);
                assert(old(self).used_links_ok(m));
                assert(old(self).used_links_ok(k));
                assert(old(self).used_links_ok(mn));
                assert(old(self).used_links_ok(mp));
                assert(0 <= o[m] < MAX_NUM_EVENTS && 0 <= o[mn] < MAX_NUM_EVENTS && 0 <= o[mp]
                    < MAX_NUM_EVENTS);
            }
            // the free chain gains the slot as its new top
            assert forall|i: int| 0 <= i < f2.len() implies #[trigger] self.free_links_ok(i) by {
                if i == 0 {
                    assert(f2[0] == s);
                    if f.len() > 0 {
                        assert(f2[1] == f[0]);
                    }
                } else {
                    assert(old(self).free_links_ok(i - 1));
                    assert(f2[i] == f[i - 1]);
                    if i + 1 < f2.len() {
                        assert(f2[i + 1] == f[i]);
                    }
                    assert(f.contains(f[i - 1]));
                    assert(f[i - 1] != s);
                    assert(!f.contains(np_i) && !f.contains(ns_i)) by {
                        assert(o.contains(np_i)) by {
                            assert(o[if k == 0 {
                                n - 1
                            } else {
                                k - 1
                            }] == np_i);
                        }
                        assert(o.contains(ns_i)) by {
                            assert(o[if k + 1 < n {
                                k + 1
                            } else {
                                0
                            }] == ns_i);
                        }
                        let a = choose|a: int| 0 <= a < o.len() && o[a] == np_i;
                        let b = choose|b: int| 0 <= b < o.len() && o[b] == ns_i;
                        assert(!f.contains(o[a]) && !f.contains(o[b]));
                    }
                }
            }
            // the header heads match the new chain fronts
            if n > 1 {
                assert(o[0] == o2[0] || k == 0);
                if k == 0 {
                    assert(o2[0] == o[1]);
                } else {
                    assert(o[0] != o[k]);
                }
            }
            assert(self@ =~= old(self)@.remove(k)) by {
                assert forall|i: int| 0 <= i < o2.len() implies self@[i] == old(self)@.remove(k)[i] by {
                    let m = if i < k {
                        i
                    } else {
                        i + 1
                    };
                    assert(o2[i] == o[m]);
                    assert(0 <= o[m] < MAX_NUM_EVENTS);
                }
            }
            assert(result == old(self)@[k]);
        }
        Ok(result)
    }

    /// Delete-front: removes the element at the head of the used chain, the
    /// oldest live element. Fails with `InvalidSlot`, changing nothing,
    /// exactly when the queue is empty.
    pub fn delete(&mut self) -> (r: Result<AnyEvent, QueueError>)
        requires
            old(self).wf(),
        ensures
            final(self).wf(),
            old(self)@.len() == 0 ==> r == Err::<AnyEvent, QueueError>(QueueError::InvalidSlot)
                && *final(self) == *old(self),
            old(self)@.len() > 0 ==> r == Ok::<AnyEvent, QueueError>(old(self)@[0]),
            old(self)@.len() > 0 ==> final(self)@ == old(self)@.drop_first(),
            old(self)@.len() > 0 ==> final(self).used_order() == old(
                self,
            ).used_order().drop_first(),
            old(self)@.len() > 0 ==> final(self).free_order() == seq![
                old(self).used_order()[0],
            ] + old(self).free_order(),
            old(self)@.len() > 0 ==> final(self).header.seq_num == old(self).header.seq_num,
    {
        let uh = self.header.used_head();
        proof {
            let o = self.order@;
            if o.len() > 0 {
                assert(uh as int == o[0]);
                assert(0 <= o[0] < MAX_NUM_EVENTS);
                assert(self.slot_used(uh as int));
                assert(o.index_of(uh as int) == 0) by {
                    let k = o.index_of(uh as int);
                    assert(o.contains(uh as int));
                    assert(0 <= k < o.len() && o[k] == o[0]);
                }
            } else {
                assert(uh == NULL as usize);
                assert(!self.slot_used(uh as int));
            }
        }
        let r = self.delete_slot(uh);
        proof {
            let o = old(self).order@;
            if o.len() > 0 {
                assert(o.remove(0) =~= o.drop_first());
                assert(old(self)@.remove(0) =~= old(self)@.drop_first());
            }
        }
        r
    }

    /// Reads the oldest live element without removing it; `None` exactly
    /// when empty.
    pub fn front(&self) -> (r: Option<&AnyEvent>)
        requires
            self.wf(),
        ensures
            match r {
                Some(e) => self@.len() > 0 && *e == self@[0],
                None => self@.len() == 0,
            },
    {
        if self.is_empty() {
            None
        } else {
            proof {
                assert(0 <= self.order@[0] < MAX_NUM_EVENTS);
            }
            Some(&self.nodes[self.header.used_head()].event)
        }
    }

    /// Reads the element living in `slot` without removing it; `None`
    /// exactly when the slot is currently free.
    pub fn at(&self, slot: usize) -> (r: Option<&AnyEvent>)
        requires
            self.wf(),
            slot < MAX_NUM_EVENTS,
        ensures
            match r {
                Some(e) => self.slot_used(slot as int) && *e == self@[self.used_order().index_of(
                    slot as int,
                )],
                None => !self.slot_used(slot as int),
            },
    {
        proof {
            self.lemma_free_tag(slot as int);
        }
        if self.nodes[slot].is_free() {
            None
        } else {
            proof {
                let k = self.order@.index_of(slot as int);
                assert(self.order@.contains(slot as int));
                assert(0 <= k < self.order@.len() && self.order@[k] == slot as int);
            }
            Some(&self.nodes[slot].event)
        }
    }

    /// A fresh traversal of the used chain, positioned at the oldest element.
    pub fn iter(&self) -> (it: DLLEventQueueIterator)
        requires
            self.wf(),
        ensures
            it.valid(*self),
            it.index == 0,
    {
        DLLEventQueueIterator { slot: self.header.used_head(), index: 0 }
    }

    /// The live payloads, oldest first, as one vector.
    pub fn events(&self) -> (v: Vec<AnyEvent>)
        requires
            self.wf(),
        ensures
            v@ == self@,
    {
        let mut v: Vec<AnyEvent> = Vec::new();
        let mut it = self.iter();
        loop
            invariant
                self.wf(),
                it.valid(*self),
                v@ == self@.take(it.index as int),
            decreases self@.len() - it.index,
        {
            let n = it.next(self);
            match n {
                Some(ews) => {
                    v.push(ews.event);
                    proof {
                        assert(v@ =~= self@.take(it.index as int));
                    }
                },
                None => {
                    proof {
                        assert(v@ =~= self@);
                    }
                    return v;
                },
            }
        }
    }

    /// Walking `next` links from `start` for `steps` hops, collecting the
    /// slots visited.
    pub open spec fn chain_from(self, start: int, steps: nat) -> Seq<int>
        decreases steps,
    {
        if steps == 0 {
            Seq::empty()
        } else {
            seq![start] + self.chain_from(self.nodes@[start].next as int, (steps - 1) as nat)
        }
    }

    /// Traversing the free chain from `free_head` for its full length visits
    /// exactly the free slots, in their stack order. Together with `init`'s
    /// contract: right after `init`, that traversal visits all
    /// `MAX_NUM_EVENTS` slots, each exactly once.
    pub proof fn lemma_free_chain_traversal(self)
        requires
            self.wf(),
        ensures
            self.chain_from(self.header.free_head as int, self.free_order().len()) == self.free_order(),
    {
        self.lemma_free_chain_suffix(0);
        assert(self.free_order().skip(0) =~= self.free_order());
    }

    /// Helper induction for [`Self::lemma_free_chain_traversal`]: from the
    /// `j`-th free slot on, the walk yields the free order's suffix.
    proof fn lemma_free_chain_suffix(self, j: int)
        requires
            self.wf(),
            0 <= j <= self.free_order().len(),
        ensures
            j < self.free_order().len() ==> self.chain_from(
                self.free_list@[j],
                (self.free_list@.len() - j) as nat,
            ) == self.free_list@.skip(j),
            j == self.free_order().len() ==> self.chain_from(
                self.header.free_head as int,
                0,
            ) == self.free_list@.skip(j),
        decreases self.free_order().len() - j,
    {
        let f = self.free_list@;
        if j == f.len() {
            assert(Seq::<int>::empty() =~= f.skip(j));
        } else {
            assert(self.free_links_ok(j));
            self.lemma_free_chain_suffix(j + 1);
            if j + 1 < f.len() {
                assert(self.nodes@[f[j]].next as int == f[j + 1]);
                assert(self.chain_from(f[j], (f.len() - j) as nat) == seq![f[j]]
                    + self.chain_from(f[j + 1], (f.len() - j - 1) as nat));
                assert(seq![f[j]] + f.skip(j + 1) =~= f.skip(j));
            } else {
                assert(self.chain_from(f[j], 1) == seq![f[j]] + self.chain_from(
                    self.nodes@[f[j]].next as int,
                    0,
                ));
                assert(seq![f[j]] + Seq::<int>::empty() =~= f.skip(j));
            }
        }
    }
}

/// One step of a linked-queue traversal: the payload and the slot it lives
/// in.
#[derive(Clone, Copy, Debug)]
pub struct EventWithSlot {
    pub event: AnyEvent,
    pub slot: usize,
}

/// Lazy, restartable traversal of the used chain: yields the live elements
/// oldest-first together with their slots, unaffected by free-list churn.
/// The queue must not be mutated while a traversal is in progress; the
/// borrow taken by `next` enforces that per call.
pub struct DLLEventQueueIterator {
    pub slot: usize,
    pub index: usize,
}

impl DLLEventQueueIterator {
    /// The cursor points at the `index`-th position of the used order, or one
    /// past the end.
    pub open spec fn valid(self, q: DLLEventQueue) -> bool {
        &&& self.index <= q.used_order().len()
        &&& self.index < q.used_order().len() ==> self.slot as int == q.used_order()[
            self.index as int
        ]
    }

    pub fn next(&mut self, queue: &DLLEventQueue) -> (r: Option<EventWithSlot>)
        requires
            queue.wf(),
            old(self).valid(*queue),
        ensures
            final(self).valid(*queue),
            old(self).index == queue@.len() ==> r is None && *final(self) == *old(self),
            old(self).index < queue@.len() ==> final(self).index == old(self).index + 1
                && match r {
                Some(ews) => ews.event == queue@[old(self).index as int] && ews.slot as int
                    == queue.used_order()[old(self).index as int],
                None => false,
            },
    {
        if self.index == queue.len() {
            None
        } else {
            proof {
                assert(queue.used_links_ok(self.index as int));
                assert(0 <= queue.order@[self.index as int] < MAX_NUM_EVENTS);
            }
            let slot = self.slot;
            let item = queue.nodes[slot].event;
            self.slot = queue.nodes[slot].next();
            self.index += 1;
            proof {
                let o = queue.order@;
                let i = old(self).index as int;
                if i + 1 < o.len() {
                    assert(queue.nodes@[o[i]].next as int == o[i + 1]);
                }
            }
            Some(EventWithSlot { event: item, slot })
        }
    }
}

} // verus!
