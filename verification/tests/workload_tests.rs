use openbook_v2_cu::dll::{DLLEventQueue, NULL};
use openbook_v2_cu::events::AnyEvent;
use openbook_v2_cu::ringbuf::EventQueue;
use openbook_v2_cu::workload::{
    delete_positions_linked, drain_linked, drain_ring, fill_linked, fill_ring, random_positions,
    remove_positions_ring, sort_positions,
};
use openbook_v2_cu::MAX_NUM_EVENTS;

#[test]
fn random_positions_is_the_fixed_batch() {
    let r = random_positions();
    assert_eq!(
        r,
        vec![
            1, 41, 223, 4, 2, 293, 300, 483, 10, 23, 45, 20, 146, 342, 123, 435, 112, 234, 211, 89
        ]
    );
}

#[test]
fn sort_positions_sorts_ascending() {
    let r = random_positions();
    let sorted = sort_positions(&r);
    assert_eq!(
        sorted,
        vec![
            1, 2, 4, 10, 20, 23, 41, 45, 89, 112, 123, 146, 211, 223, 234, 293, 300, 342, 435, 483
        ]
    );
}

#[test]
fn fill_tags_events_with_position_and_seq() {
    let mut q = EventQueue::zeroed();
    fill_ring(&mut q);
    let events = q.events();
    assert_eq!(events.len(), MAX_NUM_EVENTS);
    assert_eq!(events[0], AnyEvent::new(0, 0));
    assert_eq!(events[5], AnyEvent::new(5, 5));
    // position 300 truncates to a byte tag, the counter does not
    assert_eq!(events[300], AnyEvent::new(300u16 as u8, 300));
}

// The ring benchmark workload: fill, remove the sorted batch by
// swap-then-pop, refill, count, drain.
#[test]
fn ring_workload_runs_to_empty() {
    let mut q = EventQueue::zeroed();

    fill_ring(&mut q);
    assert_eq!(q.len(), MAX_NUM_EVENTS);
    assert_eq!(q.header.seq_num, MAX_NUM_EVENTS as u64);

    let random = random_positions();
    let sorted = sort_positions(&random);
    remove_positions_ring(&mut q, &sorted);
    assert_eq!(q.len(), MAX_NUM_EVENTS - 20);
    assert_eq!(q.header.seq_num, MAX_NUM_EVENTS as u64);

    fill_ring(&mut q);
    assert_eq!(q.len(), MAX_NUM_EVENTS);
    assert_eq!(q.header.seq_num, MAX_NUM_EVENTS as u64 + 20);

    let drained = drain_ring(&mut q);
    assert_eq!(drained.len(), MAX_NUM_EVENTS);
    assert_eq!(q.len(), 0);
    assert_eq!(q.header.seq_num, MAX_NUM_EVENTS as u64 + 20);
}

// The linked benchmark workload: init, fill, delete the batch at its raw
// positions, refill, count, drain front-first.
#[test]
fn linked_workload_runs_to_empty() {
    let mut q = DLLEventQueue::zeroed();
    q.init();

    fill_linked(&mut q);
    assert_eq!(q.len(), MAX_NUM_EVENTS);
    assert_eq!(q.header.seq_num, MAX_NUM_EVENTS as u64);

    let random = random_positions();
    delete_positions_linked(&mut q, &random);
    assert_eq!(q.len(), MAX_NUM_EVENTS - 20);
    assert_eq!(q.header.seq_num, MAX_NUM_EVENTS as u64);
    for &p in random.iter() {
        assert!(q.nodes[p].is_free());
    }

    fill_linked(&mut q);
    assert_eq!(q.len(), MAX_NUM_EVENTS);
    assert_eq!(q.header.seq_num, MAX_NUM_EVENTS as u64 + 20);

    let drained = drain_linked(&mut q);
    assert_eq!(drained.len(), MAX_NUM_EVENTS);
    assert_eq!(q.len(), 0);
    assert_eq!(q.header.used_head(), NULL as usize);
    assert_eq!(q.header.seq_num, MAX_NUM_EVENTS as u64 + 20);
}

// The deleted batch's survivors keep their insertion order: deleting raw
// slots from a freshly filled queue removes exactly those positions.
#[test]
fn delete_positions_keeps_survivor_order() {
    let mut q = DLLEventQueue::zeroed();
    q.init();
    fill_linked(&mut q);

    let batch: Vec<usize> = vec![3, 0, 7];
    delete_positions_linked(&mut q, &batch);

    let events = q.events();
    assert_eq!(events.len(), MAX_NUM_EVENTS - 3);
    // slots 0..8 held the first eight pushes; 0, 3 and 7 are gone
    assert_eq!(events[0], AnyEvent::new(1, 1));
    assert_eq!(events[1], AnyEvent::new(2, 2));
    assert_eq!(events[2], AnyEvent::new(4, 4));
    assert_eq!(events[3], AnyEvent::new(5, 5));
    assert_eq!(events[4], AnyEvent::new(6, 6));
    assert_eq!(events[5], AnyEvent::new(8, 8));
}
