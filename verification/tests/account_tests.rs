//! Margin-account bookkeeping and the authority gate on risk parameters.
use perps_dex::collateral::deposit_collateral;
use perps_dex::collateral::initialize_margin;
use perps_dex::collateral::withdraw_collateral;
use perps_dex::errors::ErrorCode;
use perps_dex::market::initialize_market;
use perps_dex::market::update_risk_params;
use perps_dex::state::MarginType;
use perps_dex::state::MarketParams;

fn owner_id(tag: u8) -> [u8; 32] {
    let mut id = [0u8; 32];
    id[0] = tag;
    id
}

fn params(leverage_limit: u8) -> MarketParams {
    MarketParams {
        tick_size: 1,
        lot_size: 1,
        leverage_limit,
        funding_interval: 3600,
        maintenance_margin_ratio: 500,
    }
}

#[test]
fn fresh_margin_account_is_cross_and_empty() {
    let m = initialize_margin(owner_id(1));
    assert_eq!(m.owner, owner_id(1));
    assert_eq!(m.collateral, 0);
    assert_eq!(m.margin_type, MarginType::Cross);
    assert!(m.positions.is_empty());
}

#[test]
fn deposit_rejects_zero_amount() {
    let mut m = initialize_margin(owner_id(1));
    assert_eq!(
        deposit_collateral(&mut m, 0).unwrap_err(),
        ErrorCode::InvalidAmount
    );
    assert_eq!(m.collateral, 0);
}

#[test]
fn withdraw_rejects_zero_amount() {
    let mut m = initialize_margin(owner_id(1));
    deposit_collateral(&mut m, 10).unwrap();
    assert_eq!(
        withdraw_collateral(&mut m, 0).unwrap_err(),
        ErrorCode::InvalidAmount
    );
}

#[test]
fn deposit_then_withdraw_balances() {
    let mut m = initialize_margin(owner_id(1));
    deposit_collateral(&mut m, 100).unwrap();
    assert_eq!(m.collateral, 100);
    withdraw_collateral(&mut m, 40).unwrap();
    assert_eq!(m.collateral, 60);
}

#[test]
fn overdraft_is_rejected_unchanged() {
    let mut m = initialize_margin(owner_id(1));
    deposit_collateral(&mut m, 100).unwrap();
    assert_eq!(
        withdraw_collateral(&mut m, 101).unwrap_err(),
        ErrorCode::InsufficientCollateral
    );
    assert_eq!(m.collateral, 100);
}

#[test]
fn deposit_saturates_at_the_ledger_capacity() {
    let mut m = initialize_margin(owner_id(1));
    deposit_collateral(&mut m, u64::MAX).unwrap();
    deposit_collateral(&mut m, 1).unwrap();
    assert_eq!(m.collateral, u64::MAX);
}

#[test]
fn only_the_authority_updates_risk_params() {
    let mut market = initialize_market(
        owner_id(0xAA),
        owner_id(0xB0),
        owner_id(0xC0),
        params(5),
        7,
    );
    let intruder = owner_id(0xBB);
    let r = update_risk_params(&mut market, &intruder, params(50));
    assert_eq!(r.unwrap_err(), ErrorCode::Unauthorized);
    assert_eq!(market.params.leverage_limit, 5);

    let authority = owner_id(0xAA);
    update_risk_params(&mut market, &authority, params(50)).unwrap();
    assert_eq!(market.params.leverage_limit, 50);
}
