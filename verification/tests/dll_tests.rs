use openbook_v2_cu::dll::{DLLEventQueue, NULL};
use openbook_v2_cu::events::{AnyEvent, QueueError};
use openbook_v2_cu::MAX_NUM_EVENTS;

const LAST_SLOT: usize = MAX_NUM_EVENTS - 1;

fn count_free_nodes(event_queue: &DLLEventQueue) -> usize {
    event_queue.nodes.iter().filter(|n| n.is_free()).count()
}

#[test]
fn init() {
    let mut eq = DLLEventQueue::zeroed();
    eq.init();

    assert_eq!(eq.header.count(), 0);
    assert_eq!(eq.header.free_head(), 0);
    assert_eq!(eq.header.used_head(), NULL as usize);
    assert_eq!(count_free_nodes(&eq), MAX_NUM_EVENTS as usize);
}

#[test]
#[should_panic]
fn cannot_insert_if_full() {
    let mut eq = DLLEventQueue::zeroed();
    eq.init();
    for _ in 0..MAX_NUM_EVENTS + 1 {
        eq.push_back(AnyEvent::zeroed()).unwrap();
    }
}

#[test]
#[should_panic]
fn cannot_delete_if_empty() {
    let mut eq = DLLEventQueue::zeroed();
    eq.init();
    eq.delete().unwrap();
}

#[test]
fn insert_until_full() {
    let mut eq = DLLEventQueue::zeroed();
    eq.init();

    // insert one event in the first slot; the single used node should point to himself
    eq.push_back(AnyEvent::zeroed()).unwrap();
    assert_eq!(eq.header.used_head(), 0);
    assert_eq!(eq.header.free_head(), 1);
    assert_eq!(eq.nodes[0].prev(), 0);
    assert_eq!(eq.nodes[0].next(), 0);
    assert_eq!(eq.nodes[1].next(), 2);

    for i in 1..MAX_NUM_EVENTS - 2 {
        eq.push_back(AnyEvent::zeroed()).unwrap();
        assert_eq!(eq.header.used_head(), 0);
        assert_eq!(eq.header.free_head(), i + 1);
        assert_eq!(eq.nodes[0].prev(), i);
        assert_eq!(eq.nodes[0].next(), 1);
        assert_eq!(eq.nodes[i + 1].next(), i + 2);
    }

    // insert another one, afterwards only one free node pointing to himself should be left
    eq.push_back(AnyEvent::zeroed()).unwrap();
    assert_eq!(eq.header.used_head(), 0);
    assert_eq!(eq.header.free_head(), LAST_SLOT);
    assert_eq!(eq.nodes[0].prev(), LAST_SLOT - 1);
    assert_eq!(eq.nodes[0].next(), 1);
    assert_eq!(eq.nodes[LAST_SLOT].next(), NULL as usize);

    // insert last available event
    eq.push_back(AnyEvent::zeroed()).unwrap();
    assert_eq!(eq.header.used_head(), 0);
    assert_eq!(eq.header.free_head(), NULL as usize);
    assert_eq!(eq.nodes[0].prev(), LAST_SLOT);
    assert_eq!(eq.nodes[0].next(), 1);
}

#[test]
fn delete_full() {
    let mut eq = DLLEventQueue::zeroed();
    eq.init();
    for _ in 0..MAX_NUM_EVENTS {
        eq.push_back(AnyEvent::zeroed()).unwrap();
    }

    eq.delete().unwrap();
    assert_eq!(eq.header.free_head(), 0);
    assert_eq!(eq.header.used_head(), 1);
    assert_eq!(eq.nodes[0].next(), NULL as usize);
    assert_eq!(eq.nodes[1].prev(), LAST_SLOT);
    assert_eq!(eq.nodes[1].next(), 2);

    for i in 1..MAX_NUM_EVENTS - 2 {
        eq.delete().unwrap();
        assert_eq!(eq.header.free_head(), i);
        assert_eq!(eq.header.used_head(), i + 1);
        assert_eq!(eq.nodes[i].next(), i - 1);
        assert_eq!(eq.nodes[i + 1].prev(), LAST_SLOT);
        assert_eq!(eq.nodes[i + 1].next(), i + 2);
    }

    eq.delete().unwrap();
    assert_eq!(eq.header.free_head(), LAST_SLOT - 1);
    assert_eq!(eq.header.used_head(), LAST_SLOT);
    assert_eq!(eq.nodes[LAST_SLOT - 1].next(), LAST_SLOT - 2);
    assert_eq!(eq.nodes[LAST_SLOT].prev(), LAST_SLOT);
    assert_eq!(eq.nodes[LAST_SLOT].next(), LAST_SLOT);

    eq.delete().unwrap();
    assert_eq!(eq.header.used_head(), NULL as usize);
    assert_eq!(eq.header.free_head(), LAST_SLOT);
    assert_eq!(eq.nodes[LAST_SLOT].next(), LAST_SLOT - 1);

    assert_eq!(eq.header.count(), 0);
    assert_eq!(count_free_nodes(&eq), MAX_NUM_EVENTS);

    // cannot delete more
    assert_eq!(eq.delete().is_err(), true);
}

#[test]
fn delete_at_given_position() {
    let mut eq = DLLEventQueue::zeroed();
    eq.init();
    for _ in 0..5 {
        eq.push_back(AnyEvent::zeroed()).unwrap();
    }
    eq.delete_slot(2).unwrap();
    assert_eq!(eq.header.free_head(), 2);
    assert_eq!(eq.header.used_head(), 0);
}

#[test]
#[should_panic]
fn cannot_delete_twice_same() {
    let mut eq = DLLEventQueue::zeroed();
    eq.init();
    for _ in 0..5 {
        eq.push_back(AnyEvent::zeroed()).unwrap();
    }
    eq.delete_slot(2).unwrap();
    eq.delete_slot(2).unwrap();
}

#[test]
fn fifo_event_processing() {
    let event_1 = {
        let mut dummy_event = AnyEvent::zeroed().clone();
        dummy_event.event_type = 1;
        dummy_event
    };

    let event_2 = {
        let mut dummy_event = AnyEvent::zeroed();
        dummy_event.event_type = 2;
        dummy_event
    };

    let event_3 = {
        let mut dummy_event = AnyEvent::zeroed();
        dummy_event.event_type = 3;
        dummy_event
    };

    // [ | | | | ] init
    // [1| | | | ] insert
    // [1|2| | | ] insert
    // [ |2| | | ] delete
    // [3|2| | | ] insert
    // [3| | | | ] delete

    let mut eq = DLLEventQueue::zeroed();
    eq.init();
    assert_eq!(eq.nodes[0].is_free(), true);
    assert_eq!(eq.nodes[1].is_free(), true);
    assert_eq!(eq.nodes[2].is_free(), true);

    eq.push_back(event_1).unwrap();
    assert_eq!(eq.nodes[0].event.event_type, 1);
    assert_eq!(eq.nodes[1].is_free(), true);
    assert_eq!(eq.nodes[2].is_free(), true);

    eq.push_back(event_2).unwrap();
    assert_eq!(eq.nodes[0].event.event_type, 1);
    assert_eq!(eq.nodes[1].event.event_type, 2);
    assert_eq!(eq.nodes[2].is_free(), true);

    eq.delete().unwrap();
    assert_eq!(eq.nodes[0].is_free(), true);
    assert_eq!(eq.nodes[1].event.event_type, 2);
    assert_eq!(eq.nodes[2].is_free(), true);

    eq.push_back(event_3).unwrap();
    assert_eq!(eq.nodes[0].event.event_type, 3);
    assert_eq!(eq.nodes[1].event.event_type, 2);
    assert_eq!(eq.nodes[2].is_free(), true);

    eq.delete().unwrap();
    assert_eq!(eq.nodes[0].event.event_type, 3);
    assert_eq!(eq.nodes[1].is_free(), true);
    assert_eq!(eq.nodes[2].is_free(), true);
}

#[test]
fn lifo_free_available_slots() {
    // [0|1|2|3|4] init
    // [ |0|1|2|3] insert
    // [ | |0|1|2] insert
    // [0| |1|2|3] delete
    // [1|0|2|3|4] delete
    // [0| |1|2|3] insert
    // [ | |0|1|2] insert

    let mut eq = DLLEventQueue::zeroed();

    eq.init();
    assert_eq!(eq.header.free_head(), 0);
    assert_eq!(eq.nodes[0].next(), 1);

    eq.push_back(AnyEvent::zeroed()).unwrap();
    assert_eq!(eq.header.free_head(), 1);
    assert_eq!(eq.nodes[1].next(), 2);

    eq.push_back(AnyEvent::zeroed()).unwrap();
    assert_eq!(eq.header.free_head(), 2);
    assert_eq!(eq.nodes[2].next(), 3);

    eq.delete().unwrap();
    assert_eq!(eq.header.free_head(), 0);
    assert_eq!(eq.nodes[0].next(), 2);

    eq.delete().unwrap();
    assert_eq!(eq.header.free_head(), 1);
    assert_eq!(eq.nodes[1].next(), 0);

    eq.push_back(AnyEvent::zeroed()).unwrap();
    assert_eq!(eq.header.free_head(), 0);
    assert_eq!(eq.nodes[0].next(), 2);

    eq.push_back(AnyEvent::zeroed()).unwrap();
    assert_eq!(eq.header.free_head(), 2);
    assert_eq!(eq.nodes[2].next(), 3);
}

// Scenario: push two events, delete the front, push a third; iteration
// yields the survivors in insertion order.
#[test]
fn scenario_push_delete_front_push() {
    let e1 = AnyEvent::new(1, 11);
    let e2 = AnyEvent::new(2, 22);
    let e3 = AnyEvent::new(3, 33);

    let mut eq = DLLEventQueue::zeroed();
    eq.init();
    eq.push_back(e1).unwrap();
    eq.push_back(e2).unwrap();

    let removed = eq.delete().unwrap();
    assert_eq!(removed, e1);
    assert_eq!(eq.events(), vec![e2]);

    eq.push_back(e3).unwrap();
    assert_eq!(eq.events(), vec![e2, e3]);
}

// Scenario: LIFO reuse of freed slots, following the free-head through two
// pushes, two deletions by slot, and the two pushes that reuse the freed
// slots. The slot freed last (slot 1) is handed out first.
#[test]
fn scenario_lifo_reuse_by_slot() {
    let mut eq = DLLEventQueue::zeroed();
    eq.init();
    assert_eq!(eq.header.free_head(), 0);

    eq.push_back(AnyEvent::new(1, 0)).unwrap();
    assert_eq!(eq.header.free_head(), 1);

    eq.push_back(AnyEvent::new(2, 0)).unwrap();
    assert_eq!(eq.header.free_head(), 2);

    eq.delete_slot(0).unwrap();
    assert_eq!(eq.header.free_head(), 0);

    eq.delete_slot(1).unwrap();
    assert_eq!(eq.header.free_head(), 1);

    eq.push_back(AnyEvent::new(3, 0)).unwrap();
    assert_eq!(eq.nodes[1].event.event_type, 3);
    assert_eq!(eq.header.free_head(), 0);

    eq.push_back(AnyEvent::new(4, 0)).unwrap();
    assert_eq!(eq.nodes[0].event.event_type, 4);
    assert_eq!(eq.header.free_head(), 2);
}

// Pushing K elements then deleting K elements in a scattered order restores
// the empty state, and the sequence number has grown by exactly K.
#[test]
fn round_trip_scattered_deletes() {
    let mut eq = DLLEventQueue::zeroed();
    eq.init();
    for i in 0..5u64 {
        eq.push_back(AnyEvent::new(i as u8, i)).unwrap();
    }
    assert_eq!(eq.header.seq_num, 5);

    eq.delete_slot(3).unwrap();
    eq.delete_slot(0).unwrap();
    eq.delete_slot(4).unwrap();
    eq.delete_slot(1).unwrap();
    eq.delete_slot(2).unwrap();

    assert_eq!(eq.header.count(), 0);
    assert_eq!(eq.header.used_head(), NULL as usize);
    assert_eq!(eq.header.seq_num, 5);
    assert_eq!(count_free_nodes(&eq), MAX_NUM_EVENTS);
}

// Interleaved pushes and arbitrary-position deletions keep the survivors in
// their original relative insertion order.
#[test]
fn order_preserved_under_arbitrary_deletes() {
    let mut eq = DLLEventQueue::zeroed();
    eq.init();
    for i in 0..6u64 {
        eq.push_back(AnyEvent::new(i as u8, i)).unwrap();
    }
    // delete the elements sitting in slots 1 and 4 (the 2nd and 5th pushed)
    eq.delete_slot(1).unwrap();
    eq.delete_slot(4).unwrap();
    eq.push_back(AnyEvent::new(9, 9)).unwrap();

    let kinds: Vec<u8> = eq.events().iter().map(|e| e.event_type).collect();
    assert_eq!(kinds, vec![0, 2, 3, 5, 9]);
}

#[test]
fn boundary_errors_are_typed_and_harmless() {
    let mut eq = DLLEventQueue::zeroed();
    eq.init();

    // delete on empty
    assert_eq!(eq.delete(), Err(QueueError::InvalidSlot));
    assert_eq!(eq.header.count(), 0);

    // out-of-range slot
    assert_eq!(eq.delete_slot(MAX_NUM_EVENTS), Err(QueueError::InvalidSlot));

    // already-free slot
    eq.push_back(AnyEvent::new(1, 0)).unwrap();
    assert_eq!(eq.delete_slot(3), Err(QueueError::InvalidSlot));
    assert_eq!(eq.header.count(), 1);

    // push on full
    for _ in 1..MAX_NUM_EVENTS {
        eq.push_back(AnyEvent::zeroed()).unwrap();
    }
    let seq_before = eq.header.seq_num;
    assert_eq!(eq.push_back(AnyEvent::new(7, 7)), Err(QueueError::Full));
    assert_eq!(eq.header.count(), MAX_NUM_EVENTS);
    assert_eq!(eq.header.seq_num, seq_before);
}

#[test]
fn front_and_at_accessors() {
    let mut eq = DLLEventQueue::zeroed();
    eq.init();
    assert!(eq.front().is_none());

    let e1 = AnyEvent::new(1, 10);
    let e2 = AnyEvent::new(2, 20);
    eq.push_back(e1).unwrap();
    eq.push_back(e2).unwrap();

    assert_eq!(eq.front().copied(), Some(e1));
    assert_eq!(eq.at(0).copied(), Some(e1));
    assert_eq!(eq.at(1).copied(), Some(e2));
    assert!(eq.at(2).is_none());

    eq.delete().unwrap();
    assert_eq!(eq.front().copied(), Some(e2));
    assert!(eq.at(0).is_none());
}

#[test]
fn iterator_reports_slots_and_restarts() {
    let mut eq = DLLEventQueue::zeroed();
    eq.init();
    let e1 = AnyEvent::new(1, 0);
    let e2 = AnyEvent::new(2, 0);
    let e3 = AnyEvent::new(3, 0);
    eq.push_back(e1).unwrap();
    eq.push_back(e2).unwrap();
    eq.push_back(e3).unwrap();
    eq.delete_slot(1).unwrap();

    let mut it = eq.iter();
    let first = it.next(&eq).unwrap();
    assert_eq!(first.event, e1);
    assert_eq!(first.slot, 0);
    let second = it.next(&eq).unwrap();
    assert_eq!(second.event, e3);
    assert_eq!(second.slot, 2);
    assert!(it.next(&eq).is_none());

    // a fresh traversal starts over
    let mut it2 = eq.iter();
    assert_eq!(it2.next(&eq).unwrap().event, e1);
}

// After init, walking the free chain from free_head visits all slots, each
// exactly once, in ascending order.
#[test]
fn init_free_chain_visits_every_slot() {
    let mut eq = DLLEventQueue::zeroed();
    eq.init();

    let mut visited = vec![false; MAX_NUM_EVENTS];
    let mut slot = eq.header.free_head();
    for expected in 0..MAX_NUM_EVENTS {
        assert_eq!(slot, expected);
        assert!(!visited[slot]);
        visited[slot] = true;
        slot = eq.nodes[slot].next();
    }
    assert_eq!(slot, NULL as usize);
    assert!(visited.iter().all(|&v| v));
}
