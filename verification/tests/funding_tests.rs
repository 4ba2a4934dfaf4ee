//! Funding settlement under cross and isolated margining.
use perps_dex::errors::ErrorCode;
use perps_dex::market::initialize_market;
use perps_dex::settle::settle_funding;
use perps_dex::state::MarginAccount;
use perps_dex::state::MarginType;
use perps_dex::state::Market;
use perps_dex::state::MarketParams;
use perps_dex::state::Position;
use perps_dex::state::Side;

fn owner_id(tag: u8) -> [u8; 32] {
    let mut id = [0u8; 32];
    id[0] = tag;
    id
}

fn test_market() -> Market {
    initialize_market(
        owner_id(0xAA),
        owner_id(0xB0),
        owner_id(0xC0),
        MarketParams {
            tick_size: 1,
            lot_size: 1,
            leverage_limit: 5,
            funding_interval: 3600,
            maintenance_margin_ratio: 500,
        },
        7,
    )
}

#[test]
fn cross_long_pays_funding() {
    // funding = (110 - 100) * 10 / 100 = 1; a long pays it.
    let mut market = test_market();
    let mut margin = MarginAccount {
        owner: owner_id(1),
        collateral: 1000,
        margin_type: MarginType::Cross,
        positions: vec![Position {
            key: 1,
            qty: 10,
            entry_price: 100,
            side: Side::Bid,
            collateral: 0,
        }],
    };
    settle_funding(&mut margin, &mut market, 110, 42).unwrap();
    assert_eq!(margin.collateral, 999);
    assert_eq!(market.last_funding_timestamp, 42);
    assert_eq!(margin.positions.len(), 1);
}

#[test]
fn cross_short_receives_funding() {
    let mut market = test_market();
    let mut margin = MarginAccount {
        owner: owner_id(1),
        collateral: 1000,
        margin_type: MarginType::Cross,
        positions: vec![Position {
            key: 1,
            qty: 10,
            entry_price: 100,
            side: Side::Ask,
            collateral: 0,
        }],
    };
    settle_funding(&mut margin, &mut market, 110, 42).unwrap();
    assert_eq!(margin.collateral, 1001);
}

#[test]
fn cross_funding_truncates_toward_zero() {
    // funding = (99 - 100) * 10 / 100 = -10/100, truncated to 0.
    let mut market = test_market();
    let mut margin = MarginAccount {
        owner: owner_id(1),
        collateral: 1000,
        margin_type: MarginType::Cross,
        positions: vec![Position {
            key: 1,
            qty: 10,
            entry_price: 100,
            side: Side::Bid,
            collateral: 0,
        }],
    };
    settle_funding(&mut margin, &mut market, 99, 42).unwrap();
    assert_eq!(margin.collateral, 1000);
}

#[test]
fn cross_rejects_unpayable_net_and_changes_nothing() {
    // funding = (200 - 100) * 10 / 100 = 10 owed by the long, but only 5
    // units of collateral back the account.
    let mut market = test_market();
    let before_ts = market.last_funding_timestamp;
    let mut margin = MarginAccount {
        owner: owner_id(1),
        collateral: 5,
        margin_type: MarginType::Cross,
        positions: vec![Position {
            key: 1,
            qty: 10,
            entry_price: 100,
            side: Side::Bid,
            collateral: 0,
        }],
    };
    let r = settle_funding(&mut margin, &mut market, 200, 42);
    assert_eq!(r.unwrap_err(), ErrorCode::InsufficientCollateral);
    assert_eq!(margin.collateral, 5);
    assert_eq!(market.last_funding_timestamp, before_ts);
}

#[test]
fn isolated_funding_moves_per_position_collateral() {
    let mut market = test_market();
    let mut margin = MarginAccount {
        owner: owner_id(1),
        collateral: 77,
        margin_type: MarginType::Isolated,
        positions: vec![
            Position {
                key: 1,
                qty: 10,
                entry_price: 100,
                side: Side::Bid,
                collateral: 50,
            },
            Position {
                key: 2,
                qty: 10,
                entry_price: 100,
                side: Side::Ask,
                collateral: 50,
            },
        ],
    };
    settle_funding(&mut margin, &mut market, 110, 42).unwrap();
    // The long pays 1 from its own collateral; the short receives 1.
    assert_eq!(margin.positions[0].collateral, 49);
    assert_eq!(margin.positions[1].collateral, 51);
    // The shared balance is untouched under isolated margining.
    assert_eq!(margin.collateral, 77);
}

#[test]
fn isolated_rejects_undercollateralized_position() {
    let mut market = test_market();
    let mut margin = MarginAccount {
        owner: owner_id(1),
        collateral: 0,
        margin_type: MarginType::Isolated,
        positions: vec![Position {
            key: 1,
            qty: 10,
            entry_price: 100,
            side: Side::Bid,
            collateral: 0,
        }],
    };
    let r = settle_funding(&mut margin, &mut market, 120, 42);
    assert_eq!(r.unwrap_err(), ErrorCode::InsufficientCollateral);
    assert_eq!(margin.positions[0].collateral, 0);
}
