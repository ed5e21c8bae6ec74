//! The event payload stored in a queue slot, and the error kinds that queue
//! operations report.

use vstd::prelude::*;

verus! {

/// One event payload. The queues treat it as an opaque, fixed-size,
/// trivially-copyable value: they store it, copy it and hand it back, but
/// never look inside. The two fields stand for whatever a collaborator packs
/// into the payload; `event_type` tags the kind of event and `payload` carries
/// the rest.
#[derive(Clone, Copy, PartialEq, Eq, Structural, Debug)]
pub struct AnyEvent {
    pub event_type: u8,
    pub payload: u64,
}

impl AnyEvent {
    /// The all-zero payload, as a freshly zero-filled arena holds in every slot.
    pub fn zeroed() -> (r: AnyEvent)
        ensures
            r.event_type == 0,
            r.payload == 0,
    {
        AnyEvent { event_type: 0, payload: 0 }
    }

    pub fn new(event_type: u8, payload: u64) -> (r: AnyEvent)
        ensures
            r.event_type == event_type,
            r.payload == payload,
    {
        AnyEvent { event_type, payload }
    }
}

/// Error kinds reported by the queue operations. Every failing operation
/// returns one of these synchronously and leaves the queue unchanged.
#[derive(Clone, Copy, PartialEq, Eq, Structural, Debug)]
pub enum QueueError {
    /// `push_back` on a saturated queue.
    Full,
    /// `pop_front` or a front accessor on an empty queue.
    Empty,
    /// `delete_slot` on an out-of-range or already-free slot.
    InvalidSlot,
    /// `revert_pushes` to a length above the current one.
    Underflow,
}

} // verus!
