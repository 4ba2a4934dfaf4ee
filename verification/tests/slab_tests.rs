//! Slab order-book behaviour: price-time priority, boundaries, and the
//! insert/remove round trip.
use perps_dex::errors::ErrorCode;
use perps_dex::slab::Slab;
use perps_dex::slab::MAX_SLAB_CAPACITY;
use perps_dex::slab::NULL_INDEX;

fn creation_error(r: Result<Slab, ErrorCode>) -> ErrorCode {
    match r {
        Ok(_) => panic!("slab creation should have been rejected"),
        Err(e) => e,
    }
}

fn owner_id(tag: u8) -> [u8; 32] {
    let mut id = [0u8; 32];
    id[0] = tag;
    id
}

#[test]
fn new_slab_rejects_zero_capacity() {
    assert_eq!(creation_error(Slab::new(0, 0)), ErrorCode::InvalidCapacity);
}

#[test]
fn new_slab_rejects_oversized_capacity() {
    assert_eq!(
        creation_error(Slab::new(MAX_SLAB_CAPACITY + 1, 0)),
        ErrorCode::InvalidCapacity
    );
}

#[test]
fn new_slab_rejects_bad_side() {
    assert_eq!(creation_error(Slab::new(4, 2)), ErrorCode::InvalidOrderbookSide);
}

#[test]
fn new_slab_starts_empty() {
    let slab = Slab::new(4, 0).unwrap();
    assert_eq!(slab.head, NULL_INDEX);
    assert_eq!(slab.free_head, 0);
    assert!(slab.best().is_none());
    assert!(slab.find_best().is_none());
    assert!(slab.is_bid_side());
}

#[test]
fn insert_rejects_zero_quantity() {
    let mut slab = Slab::new(4, 0).unwrap();
    assert_eq!(
        slab.insert(1, 100, 0, owner_id(1), 1).unwrap_err(),
        ErrorCode::InvalidQuantity
    );
}

#[test]
fn full_slab_rejects_insert() {
    let mut slab = Slab::new(2, 0).unwrap();
    slab.insert(1, 100, 5, owner_id(1), 1).unwrap();
    slab.insert(2, 101, 5, owner_id(1), 2).unwrap();
    assert_eq!(
        slab.insert(3, 102, 5, owner_id(1), 3).unwrap_err(),
        ErrorCode::OrderbookFull
    );
}

#[test]
fn bid_price_time_priority() {
    // Equal prices serve the earlier slot; a better price takes the head.
    let mut slab = Slab::new(8, 0).unwrap();
    slab.insert(1, 100, 5, owner_id(1), 1).unwrap();
    let best = slab.best_order().unwrap();
    assert_eq!(best.key, 1);
    assert_eq!(best.qty, 5);

    slab.insert(2, 100, 3, owner_id(2), 2).unwrap();
    let best = slab.best_order().unwrap();
    assert_eq!(best.key, 1);

    slab.insert(3, 101, 1, owner_id(3), 3).unwrap();
    let best = slab.best_order().unwrap();
    assert_eq!(best.key, 3);
    assert_eq!(best.price, 101);
}

#[test]
fn ask_side_sorts_ascending() {
    let mut slab = Slab::new(8, 1).unwrap();
    slab.insert(1, 105, 5, owner_id(1), 1).unwrap();
    slab.insert(2, 100, 2, owner_id(2), 2).unwrap();
    let best = slab.best_order().unwrap();
    assert_eq!(best.key, 2);
    assert_eq!(best.price, 100);
}

#[test]
fn same_price_same_slot_keeps_arrival_order() {
    let mut slab = Slab::new(8, 0).unwrap();
    slab.insert(1, 100, 5, owner_id(1), 7).unwrap();
    slab.insert(2, 100, 5, owner_id(2), 7).unwrap();
    let best = slab.best_order().unwrap();
    assert_eq!(best.key, 1);
}

#[test]
fn insert_then_remove_restores_heads() {
    let mut slab = Slab::new(4, 0).unwrap();
    slab.insert(1, 100, 5, owner_id(1), 1).unwrap();
    let head_before = slab.head;
    let free_before = slab.free_head;
    let idx = slab.insert(2, 90, 3, owner_id(2), 2).unwrap();
    slab.remove(idx).unwrap();
    assert_eq!(slab.head, head_before);
    assert_eq!(slab.free_head, free_before);
    let best = slab.best_order().unwrap();
    assert_eq!(best.key, 1);
}

#[test]
fn remove_rejects_out_of_range_and_free_nodes() {
    let mut slab = Slab::new(2, 0).unwrap();
    assert_eq!(slab.remove(5).unwrap_err(), ErrorCode::InvalidIndex);
    // Node 0 is free, not active.
    assert_eq!(slab.remove(0).unwrap_err(), ErrorCode::InvalidIndex);
}

#[test]
fn reduce_order_shrinks_in_place_and_removes_when_consumed() {
    let mut slab = Slab::new(4, 0).unwrap();
    let idx = slab.insert(1, 100, 5, owner_id(1), 1).unwrap();
    slab.reduce_order(idx, 2).unwrap();
    let best = slab.best_order().unwrap();
    assert_eq!(best.qty, 3);
    slab.reduce_order(idx, 3).unwrap();
    assert!(slab.best().is_none());
}

#[test]
fn reduce_order_rejects_zero_fill() {
    let mut slab = Slab::new(4, 0).unwrap();
    let idx = slab.insert(1, 100, 5, owner_id(1), 1).unwrap();
    assert_eq!(
        slab.reduce_order(idx, 0).unwrap_err(),
        ErrorCode::InvalidQuantity
    );
}
