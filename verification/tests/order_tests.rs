//! Order engine behaviour: limit placement with the leverage gate, market
//! orders under the slippage band, and the event trail they leave.
use perps_dex::collateral::deposit_collateral;
use perps_dex::collateral::initialize_margin;
use perps_dex::errors::ErrorCode;
use perps_dex::event_queue::EventQueue;
use perps_dex::market::initialize_market;
use perps_dex::order::initialize_orderbook;
use perps_dex::order::place_limit_order;
use perps_dex::order::place_market_order;
use perps_dex::state::MarginAccount;
use perps_dex::state::MarginType;
use perps_dex::state::Market;
use perps_dex::state::MarketParams;
use perps_dex::state::Position;
use perps_dex::state::Side;
use perps_dex::state::EVENT_FILL;
use perps_dex::state::EVENT_PLACE;

fn owner_id(tag: u8) -> [u8; 32] {
    let mut id = [0u8; 32];
    id[0] = tag;
    id
}

fn test_market() -> Market {
    initialize_market(
        owner_id(0xAA),
        owner_id(0xB0),
        owner_id(0xC0),
        MarketParams {
            tick_size: 1,
            lot_size: 1,
            leverage_limit: 5,
            funding_interval: 3600,
            maintenance_margin_ratio: 500,
        },
        7,
    )
}

fn rich_margin(tag: u8) -> MarginAccount {
    let mut m = initialize_margin(owner_id(tag));
    deposit_collateral(&mut m, 1_000_000).unwrap();
    m
}

#[test]
fn limit_orders_assign_increasing_keys_and_keep_priority() {
    let market = test_market();
    let (mut ob, mut slab) = initialize_orderbook(0, 16).unwrap();
    let mut queue = EventQueue::new(16).unwrap();
    let margin = rich_margin(1);

    place_limit_order(
        &mut ob, &mut slab, &mut queue, &margin, &market, Side::Bid, 100, 5, owner_id(1), 1,
    )
    .unwrap();
    assert_eq!(ob.next_order_id, 2);
    let best = slab.best_order().unwrap();
    assert_eq!(best.key, 1);

    place_limit_order(
        &mut ob, &mut slab, &mut queue, &margin, &market, Side::Bid, 100, 3, owner_id(1), 2,
    )
    .unwrap();
    let best = slab.best_order().unwrap();
    assert_eq!(best.key, 1);

    place_limit_order(
        &mut ob, &mut slab, &mut queue, &margin, &market, Side::Bid, 101, 1, owner_id(1), 3,
    )
    .unwrap();
    let best = slab.best_order().unwrap();
    assert_eq!(best.key, 3);

    // One placement record per order.
    assert_eq!(queue.len(), 3);
    let first = queue.get_live(0);
    assert_eq!(first.event_type, EVENT_PLACE);
    assert_eq!(first.key, 1);
    assert_eq!(first.price, 100);
    assert_eq!(first.qty, 5);
}

#[test]
fn limit_order_rejects_wrong_side() {
    let market = test_market();
    let (mut ob, mut slab) = initialize_orderbook(0, 8).unwrap();
    let mut queue = EventQueue::new(8).unwrap();
    let margin = rich_margin(1);
    let r = place_limit_order(
        &mut ob, &mut slab, &mut queue, &margin, &market, Side::Ask, 100, 5, owner_id(1), 1,
    );
    assert_eq!(r.unwrap_err(), ErrorCode::InvalidOrderbookSide);
}

#[test]
fn limit_order_rejects_zero_quantity() {
    let market = test_market();
    let (mut ob, mut slab) = initialize_orderbook(0, 8).unwrap();
    let mut queue = EventQueue::new(8).unwrap();
    let margin = rich_margin(1);
    let r = place_limit_order(
        &mut ob, &mut slab, &mut queue, &margin, &market, Side::Bid, 100, 0, owner_id(1), 1,
    );
    assert_eq!(r.unwrap_err(), ErrorCode::InvalidQuantity);
}

#[test]
fn leverage_gate_rejects_excess_notional() {
    // collateral 1000, leverage 5: limit 5000. Existing notional 4000, new
    // order 1500: rejected.
    let market = test_market();
    let (mut ob, mut slab) = initialize_orderbook(0, 8).unwrap();
    let mut queue = EventQueue::new(8).unwrap();
    let margin = MarginAccount {
        owner: owner_id(1),
        collateral: 1000,
        margin_type: MarginType::Cross,
        positions: vec![Position {
            key: 9,
            qty: 40,
            entry_price: 100,
            side: Side::Bid,
            collateral: 0,
        }],
    };
    let r = place_limit_order(
        &mut ob, &mut slab, &mut queue, &margin, &market, Side::Bid, 300, 5, owner_id(1), 1,
    );
    assert_eq!(r.unwrap_err(), ErrorCode::LeverageExceeded);
    // 4000 + 1000 == 5000 is within the limit.
    let r = place_limit_order(
        &mut ob, &mut slab, &mut queue, &margin, &market, Side::Bid, 200, 5, owner_id(1), 1,
    );
    assert!(r.is_ok());
}

#[test]
fn market_order_fills_best_first_within_band() {
    // Asks book (100,2), (101,5); buy 4 with 200 bps slippage: fills
    // (100,2) and (101,2), leaving (101,3) on top.
    let market = test_market();
    let (mut ob, mut slab) = initialize_orderbook(1, 8).unwrap();
    let mut queue = EventQueue::new(16).unwrap();
    let maker = rich_margin(1);
    place_limit_order(
        &mut ob, &mut slab, &mut queue, &maker, &market, Side::Ask, 100, 2, owner_id(1), 1,
    )
    .unwrap();
    place_limit_order(
        &mut ob, &mut slab, &mut queue, &maker, &market, Side::Ask, 101, 5, owner_id(1), 2,
    )
    .unwrap();

    place_market_order(&mut ob, &mut slab, &mut queue, 4, Side::Bid, 200).unwrap();

    let top = slab.best_order().unwrap();
    assert_eq!(top.price, 101);
    assert_eq!(top.qty, 3);

    assert_eq!(queue.len(), 4);
    let f1 = queue.get_live(2);
    assert_eq!(f1.event_type, EVENT_FILL);
    assert_eq!(f1.price, 100);
    assert_eq!(f1.qty, 2);
    let f2 = queue.get_live(3);
    assert_eq!(f2.event_type, EVENT_FILL);
    assert_eq!(f2.price, 101);
    assert_eq!(f2.qty, 2);
}

#[test]
fn market_order_rejects_breach_of_slippage_band() {
    // Best ask 100 with 1% slippage allows up to 101; the second level at
    // 102 breaks the band, so the whole order fails and nothing changes.
    let market = test_market();
    let (mut ob, mut slab) = initialize_orderbook(1, 8).unwrap();
    let mut queue = EventQueue::new(16).unwrap();
    let maker = rich_margin(1);
    place_limit_order(
        &mut ob, &mut slab, &mut queue, &maker, &market, Side::Ask, 100, 2, owner_id(1), 1,
    )
    .unwrap();
    place_limit_order(
        &mut ob, &mut slab, &mut queue, &maker, &market, Side::Ask, 102, 5, owner_id(1), 2,
    )
    .unwrap();

    let r = place_market_order(&mut ob, &mut slab, &mut queue, 4, Side::Bid, 100);
    assert_eq!(r.unwrap_err(), ErrorCode::SlippageExceeded);
    // Atomic failure: the book still holds both orders in full.
    let top = slab.best_order().unwrap();
    assert_eq!(top.price, 100);
    assert_eq!(top.qty, 2);
    assert_eq!(queue.len(), 2);
}

#[test]
fn market_order_rejects_empty_book_and_wrong_side() {
    let (mut ob, mut slab) = initialize_orderbook(1, 8).unwrap();
    let mut queue = EventQueue::new(8).unwrap();
    let r = place_market_order(&mut ob, &mut slab, &mut queue, 4, Side::Bid, 200);
    assert_eq!(r.unwrap_err(), ErrorCode::OrderbookEmpty);
    // A seller must hit the bid book, not this ask book.
    let r = place_market_order(&mut ob, &mut slab, &mut queue, 4, Side::Ask, 200);
    assert_eq!(r.unwrap_err(), ErrorCode::InvalidOrderbookSide);
}

#[test]
fn market_order_exhausts_book_without_error() {
    let market = test_market();
    let (mut ob, mut slab) = initialize_orderbook(1, 8).unwrap();
    let mut queue = EventQueue::new(16).unwrap();
    let maker = rich_margin(1);
    place_limit_order(
        &mut ob, &mut slab, &mut queue, &maker, &market, Side::Ask, 100, 2, owner_id(1), 1,
    )
    .unwrap();
    place_market_order(&mut ob, &mut slab, &mut queue, 10, Side::Bid, 0).unwrap();
    assert!(slab.best().is_none());
    assert_eq!(queue.len(), 2);
    let fill = queue.get_live(1);
    assert_eq!(fill.event_type, EVENT_FILL);
    assert_eq!(fill.qty, 2);
}
