//! Draining the event queue into the two margin accounts.
use perps_dex::errors::ErrorCode;
use perps_dex::event_queue::push_event;
use perps_dex::event_queue::EventQueue;
use perps_dex::settle::settle_fills;
use perps_dex::state::MarginAccount;
use perps_dex::state::MarginType;
use perps_dex::state::Position;
use perps_dex::state::Side;
use perps_dex::state::EVENT_FILL;
use perps_dex::state::EVENT_PLACE;

fn owner_id(tag: u8) -> [u8; 32] {
    let mut id = [0u8; 32];
    id[0] = tag;
    id
}

fn margin_with(
    tag: u8,
    collateral: u64,
    positions: Vec<Position>,
) -> MarginAccount {
    MarginAccount {
        owner: owner_id(tag),
        collateral,
        margin_type: MarginType::Cross,
        positions,
    }
}

#[test]
fn fills_move_quote_and_positions() {
    let mut queue = EventQueue::new(8).unwrap();
    push_event(&mut queue, EVENT_PLACE, 1, 100, 5, owner_id(1)).unwrap();
    push_event(&mut queue, EVENT_FILL, 1, 100, 2, owner_id(1)).unwrap();

    // The maker rests order 1 as a bid for 5 units on the bid book; the
    // taker sold into it.
    let mut maker = margin_with(
        1,
        1000,
        vec![Position {
            key: 1,
            qty: 5,
            entry_price: 100,
            side: Side::Bid,
            collateral: 0,
        }],
    );
    let mut taker = margin_with(2, 500, vec![]);

    settle_fills(&mut queue, &mut maker, &mut taker, Side::Bid).unwrap();

    // 2 * 100 quote units moved from taker to maker; quote is conserved.
    assert_eq!(maker.collateral, 1200);
    assert_eq!(taker.collateral, 300);
    assert_eq!(maker.collateral + taker.collateral, 1500);

    // The maker's position shrank; the taker opened one on the opposite
    // side of the book at the fill price.
    assert_eq!(maker.positions.len(), 1);
    assert_eq!(maker.positions[0].qty, 3);
    assert_eq!(taker.positions.len(), 1);
    assert_eq!(taker.positions[0].key, 1);
    assert_eq!(taker.positions[0].qty, 2);
    assert_eq!(taker.positions[0].entry_price, 100);
    assert_eq!(taker.positions[0].side, Side::Ask);

    // The queue was drained.
    assert_eq!(queue.len(), 0);
    assert_eq!(queue.head, queue.tail);
}

#[test]
fn fully_filled_positions_are_dropped() {
    let mut queue = EventQueue::new(8).unwrap();
    push_event(&mut queue, EVENT_FILL, 1, 100, 5, owner_id(1)).unwrap();

    let mut maker = margin_with(
        1,
        1000,
        vec![Position {
            key: 1,
            qty: 5,
            entry_price: 100,
            side: Side::Bid,
            collateral: 0,
        }],
    );
    let mut taker = margin_with(2, 1000, vec![]);
    settle_fills(&mut queue, &mut maker, &mut taker, Side::Bid).unwrap();
    assert!(maker.positions.is_empty());
    assert_eq!(taker.positions.len(), 1);
    assert_eq!(taker.positions[0].qty, 5);
}

#[test]
fn repeated_fills_grow_the_taker_position() {
    let mut queue = EventQueue::new(8).unwrap();
    push_event(&mut queue, EVENT_FILL, 1, 100, 2, owner_id(1)).unwrap();
    push_event(&mut queue, EVENT_FILL, 1, 100, 3, owner_id(1)).unwrap();

    let mut maker = margin_with(
        1,
        0,
        vec![Position {
            key: 1,
            qty: 9,
            entry_price: 100,
            side: Side::Ask,
            collateral: 0,
        }],
    );
    let mut taker = margin_with(2, 1000, vec![]);
    settle_fills(&mut queue, &mut maker, &mut taker, Side::Ask).unwrap();
    assert_eq!(maker.positions[0].qty, 4);
    assert_eq!(taker.positions.len(), 1);
    assert_eq!(taker.positions[0].qty, 5);
    assert_eq!(taker.positions[0].side, Side::Bid);
    assert_eq!(maker.collateral, 500);
    assert_eq!(taker.collateral, 500);
}

#[test]
fn placement_records_are_skipped() {
    let mut queue = EventQueue::new(8).unwrap();
    push_event(&mut queue, EVENT_PLACE, 1, 100, 5, owner_id(1)).unwrap();

    let mut maker = margin_with(1, 1000, vec![]);
    let mut taker = margin_with(2, 500, vec![]);
    settle_fills(&mut queue, &mut maker, &mut taker, Side::Bid).unwrap();
    assert_eq!(maker.collateral, 1000);
    assert_eq!(taker.collateral, 500);
    assert!(maker.positions.is_empty());
    assert!(taker.positions.is_empty());
    assert_eq!(queue.len(), 0);
}

#[test]
fn underfunded_taker_fails_settlement_atomically() {
    let mut queue = EventQueue::new(8).unwrap();
    push_event(&mut queue, EVENT_FILL, 1, 100, 2, owner_id(1)).unwrap();

    let mut maker = margin_with(
        1,
        1000,
        vec![Position {
            key: 1,
            qty: 5,
            entry_price: 100,
            side: Side::Bid,
            collateral: 0,
        }],
    );
    let mut taker = margin_with(2, 199, vec![]);
    let r = settle_fills(&mut queue, &mut maker, &mut taker, Side::Bid);
    assert_eq!(r.unwrap_err(), ErrorCode::InsufficientCollateral);
    // Nothing moved: accounts and queue are as before.
    assert_eq!(maker.collateral, 1000);
    assert_eq!(taker.collateral, 199);
    assert_eq!(maker.positions[0].qty, 5);
    assert_eq!(queue.len(), 1);
}

#[test]
fn oversized_fill_amount_fails_with_overflow() {
    let mut queue = EventQueue::new(8).unwrap();
    push_event(&mut queue, EVENT_FILL, 1, u64::MAX, 2, owner_id(1)).unwrap();

    let mut maker = margin_with(1, 0, vec![]);
    let mut taker = margin_with(2, u64::MAX, vec![]);
    let r = settle_fills(&mut queue, &mut maker, &mut taker, Side::Bid);
    assert_eq!(r.unwrap_err(), ErrorCode::Overflow);
}
