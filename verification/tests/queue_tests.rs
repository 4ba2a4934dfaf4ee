//! Event-queue ring behaviour: capacity gates and overwrite-on-full.
use perps_dex::errors::ErrorCode;
use perps_dex::event_queue::push_event;
use perps_dex::event_queue::EventQueue;
use perps_dex::state::EVENT_PLACE;

fn owner_id(tag: u8) -> [u8; 32] {
    let mut id = [0u8; 32];
    id[0] = tag;
    id
}

#[test]
fn queue_rejects_zero_capacity() {
    match EventQueue::new(0) {
        Ok(_) => panic!("a zero-capacity ring must be rejected"),
        Err(e) => assert_eq!(e, ErrorCode::InvalidCapacity),
    }
}

#[test]
fn queue_starts_empty() {
    let q = EventQueue::new(4).unwrap();
    assert_eq!(q.head, 0);
    assert_eq!(q.tail, 0);
    assert_eq!(q.len(), 0);
}

#[test]
fn writes_up_to_capacity_keep_every_record() {
    let mut q = EventQueue::new(4).unwrap();
    for k in 0..4u64 {
        push_event(&mut q, EVENT_PLACE, k as u128, 100 + k, 1, owner_id(1)).unwrap();
    }
    assert_eq!(q.head, 0);
    assert_eq!(q.tail, 4);
    assert_eq!(q.len(), 4);
    for k in 0..4u32 {
        assert_eq!(q.get_live(k).key, k as u128);
    }
}

#[test]
fn one_write_past_capacity_advances_head_once() {
    // A capacity-4 ring written 5 times: the head advanced once, the
    // distance tail - head is the capacity, and the oldest record is gone.
    let mut q = EventQueue::new(4).unwrap();
    for k in 0..5u64 {
        push_event(&mut q, EVENT_PLACE, k as u128, 100 + k, 1, owner_id(1)).unwrap();
    }
    assert_eq!(q.head, 1);
    assert_eq!(q.tail, 5);
    assert_eq!(q.tail - q.head, 4);
    assert_eq!(q.get_live(0).key, 1);
    assert_eq!(q.get_live(3).key, 4);
}

#[test]
fn consume_all_empties_the_ring() {
    let mut q = EventQueue::new(4).unwrap();
    push_event(&mut q, EVENT_PLACE, 1, 100, 1, owner_id(1)).unwrap();
    push_event(&mut q, EVENT_PLACE, 2, 100, 1, owner_id(1)).unwrap();
    q.consume_all();
    assert_eq!(q.len(), 0);
    assert_eq!(q.head, q.tail);
}
