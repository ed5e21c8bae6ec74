//! Fixed-capacity event queues stored in a flat, pre-allocated arena.
//!
//! Two backends over the same idea: a contiguous ring buffer
//! ([`ringbuf::EventQueue`]) and an intrusive doubly-linked list with a
//! free-list allocator ([`dll::DLLEventQueue`]). Both hold at most
//! [`MAX_NUM_EVENTS`] opaque payloads and support FIFO insertion and removal;
//! the linked variant additionally removes an arbitrary slot in O(1) while
//! preserving the relative order of the survivors.

use vstd::prelude::*;

pub mod dll;
pub mod events;
pub mod laws;
pub mod ringbuf;
pub mod workload;

verus! {

/// Capacity of either backend: the fixed number of slots in the arena.
pub const MAX_NUM_EVENTS: usize = 488;

} // verus!
