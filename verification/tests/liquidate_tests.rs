//! Liquidation: the health gate and the unwind with its fee split.
use perps_dex::collateral::deposit_collateral;
use perps_dex::collateral::initialize_margin;
use perps_dex::errors::ErrorCode;
use perps_dex::event_queue::EventQueue;
use perps_dex::liquidate::liquidate;
use perps_dex::market::initialize_market;
use perps_dex::order::initialize_orderbook;
use perps_dex::order::place_limit_order;
use perps_dex::state::MarginAccount;
use perps_dex::state::MarginType;
use perps_dex::state::Market;
use perps_dex::state::MarketParams;
use perps_dex::state::Position;
use perps_dex::state::Side;

fn owner_id(tag: u8) -> [u8; 32] {
    let mut id = [0u8; 32];
    id[0] = tag;
    id
}

fn test_params() -> MarketParams {
    MarketParams {
        tick_size: 1,
        lot_size: 1,
        leverage_limit: 5,
        funding_interval: 3600,
        maintenance_margin_ratio: 500,
    }
}

fn test_market() -> Market {
    initialize_market(owner_id(0xAA), owner_id(0xB0), owner_id(0xC0), test_params(), 7)
}

#[test]
fn unhealthy_long_is_unwound_with_fee() {
    // equity = 100 + (80 - 100) * 10 = -100; notional = 1000;
    // health = -1000 bps < 500, so the account is liquidated against the
    // ask book (80, 10): proceeds 800, fee 4, residual collateral 796.
    let market = test_market();
    let (mut ob, mut slab) = initialize_orderbook(1, 8).unwrap();
    let mut queue = EventQueue::new(8).unwrap();
    let mut maker = initialize_margin(owner_id(9));
    deposit_collateral(&mut maker, 1_000_000).unwrap();
    place_limit_order(
        &mut ob, &mut slab, &mut queue, &maker, &market, Side::Ask, 80, 10, owner_id(9), 1,
    )
    .unwrap();

    let mut margin = MarginAccount {
        owner: owner_id(1),
        collateral: 100,
        margin_type: MarginType::Cross,
        positions: vec![Position {
            key: 1,
            qty: 10,
            entry_price: 100,
            side: Side::Bid,
            collateral: 0,
        }],
    };
    let out = liquidate(&mut margin, &mut ob, &mut slab, &test_params(), 80).unwrap();
    assert_eq!(out.proceeds, 800);
    assert_eq!(out.fee, 4);
    assert_eq!(margin.collateral, 796);
    assert!(margin.positions.is_empty());
    assert!(slab.best().is_none());
}

#[test]
fn healthy_account_is_not_liquidated() {
    // equity = 1000 + (100 - 100) * 10 = 1000; notional = 1000;
    // health = 10000 bps >= 500.
    let market = test_market();
    let (mut ob, mut slab) = initialize_orderbook(1, 8).unwrap();
    let mut queue = EventQueue::new(8).unwrap();
    let mut maker = initialize_margin(owner_id(9));
    deposit_collateral(&mut maker, 1_000_000).unwrap();
    place_limit_order(
        &mut ob, &mut slab, &mut queue, &maker, &market, Side::Ask, 100, 10, owner_id(9), 1,
    )
    .unwrap();

    let mut margin = MarginAccount {
        owner: owner_id(1),
        collateral: 1000,
        margin_type: MarginType::Cross,
        positions: vec![Position {
            key: 1,
            qty: 10,
            entry_price: 100,
            side: Side::Bid,
            collateral: 0,
        }],
    };
    let r = liquidate(&mut margin, &mut ob, &mut slab, &test_params(), 100);
    assert_eq!(r.unwrap_err(), ErrorCode::HealthyAccount);
    assert_eq!(margin.collateral, 1000);
    assert_eq!(margin.positions.len(), 1);
    assert!(slab.best().is_some());
}

#[test]
fn unwind_stops_when_book_empties() {
    // A thin book: only 4 of the 10 units can be sold; the proceeds are
    // what the book yields.
    let market = test_market();
    let (mut ob, mut slab) = initialize_orderbook(1, 8).unwrap();
    let mut queue = EventQueue::new(8).unwrap();
    let mut maker = initialize_margin(owner_id(9));
    deposit_collateral(&mut maker, 1_000_000).unwrap();
    place_limit_order(
        &mut ob, &mut slab, &mut queue, &maker, &market, Side::Ask, 80, 4, owner_id(9), 1,
    )
    .unwrap();

    let mut margin = MarginAccount {
        owner: owner_id(1),
        collateral: 100,
        margin_type: MarginType::Cross,
        positions: vec![Position {
            key: 1,
            qty: 10,
            entry_price: 100,
            side: Side::Bid,
            collateral: 0,
        }],
    };
    let out = liquidate(&mut margin, &mut ob, &mut slab, &test_params(), 80).unwrap();
    assert_eq!(out.proceeds, 320);
    assert_eq!(out.fee, 1);
    assert_eq!(margin.collateral, 319);
    assert!(margin.positions.is_empty());
    assert!(slab.best().is_none());
}
