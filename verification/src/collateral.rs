//! Margin-account creation and collateral movement. The token transfers
//! that accompany a deposit or withdrawal are the host's business; the
//! ledger entries here are the engine's.
use crate::errors::ErrorCode;
use crate::state::MarginAccount;
use crate::state::MarginType;
use crate::state::Position;
use vstd::prelude::*;

verus! {

/// Create a fresh margin account for `owner`: no collateral, no positions,
/// cross margining.
pub fn initialize_margin(owner: [u8; 32]) -> (m: MarginAccount)
    ensures
        m.owner == owner,
        m.collateral == 0,
        m.margin_type == MarginType::Cross,
        m.positions@ == Seq::<Position>::empty(),
{
    MarginAccount { owner, collateral: 0, margin_type: MarginType::Cross, positions: Vec::new() }
}

/// Credit `amount` quote units of deposited collateral, saturating at the
/// ledger's capacity. Fails with `InvalidAmount` exactly when `amount` is
/// zero; nothing changes then.
pub fn deposit_collateral(margin: &mut MarginAccount, amount: u64) -> (r: Result<(), ErrorCode>)
    ensures
        match r {
            Ok(_) => {
                &&& amount > 0
                &&& final(margin).collateral == (if old(margin).collateral + amount <= u64::MAX {
                    old(margin).collateral + amount
                } else {
                    u64::MAX as int
                })
                &&& final(margin).owner == old(margin).owner
                &&& final(margin).margin_type == old(margin).margin_type
                &&& final(margin).positions == old(margin).positions
            },
            Err(e) => {
                &&& *final(margin) == *old(margin)
                &&& e == ErrorCode::InvalidAmount
                &&& amount == 0
            },
        },
{
    if amount == 0 {
        return Err(ErrorCode::InvalidAmount);
    }
    margin.collateral = margin.collateral.saturating_add(amount);
    Ok(())
}

/// Debit `amount` quote units for a withdrawal. Fails with `InvalidAmount`
/// exactly when `amount` is zero and with `InsufficientCollateral` exactly
/// when the balance is smaller than `amount`; nothing changes then.
pub fn withdraw_collateral(margin: &mut MarginAccount, amount: u64) -> (r: Result<(), ErrorCode>)
    ensures
        match r {
            Ok(_) => {
                &&& amount > 0
                &&& old(margin).collateral >= amount
                &&& final(margin).collateral == old(margin).collateral - amount
                &&& final(margin).owner == old(margin).owner
                &&& final(margin).margin_type == old(margin).margin_type
                &&& final(margin).positions == old(margin).positions
            },
            Err(e) => {
                &&& *final(margin) == *old(margin)
                &&& (e == ErrorCode::InvalidAmount <==> amount == 0)
                &&& (e == ErrorCode::InsufficientCollateral <==> amount > 0 && old(
                    margin,
                ).collateral < amount)
                &&& (e == ErrorCode::InvalidAmount || e == ErrorCode::InsufficientCollateral)
            },
        },
{
    if amount == 0 {
        return Err(ErrorCode::InvalidAmount);
    }
    match margin.collateral.checked_sub(amount) {
        Some(after) => {
            margin.collateral = after;
            Ok(())
        },
        None => Err(ErrorCode::InsufficientCollateral),
    }
}

} // verus!
