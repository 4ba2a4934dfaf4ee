//! Market bootstrap and the authority-gated risk-parameter update.
use crate::errors::ErrorCode;
use crate::state::Market;
use crate::state::MarketParams;
use vstd::prelude::*;

verus! {

/// Byte-wise equality of two 32-byte identities.
pub fn id_eq(a: &[u8; 32], b: &[u8; 32]) -> (r: bool)
    ensures
        r <==> a@ =~= b@,
{
    let mut i: usize = 0;
    while i < 32
        invariant
            0 <= i <= 32,
            forall|j: int| 0 <= j < i ==> a@[j] == b@[j],
        decreases 32 - i,
    {
        if a[i] != b[i] {
            return false;
        }
        i = i + 1;
    }
    true
}

/// Create a market record: identity fields as given, oracle addresses left
/// zero until configured, funding never yet settled.
pub fn initialize_market(
    authority: [u8; 32],
    base_mint: [u8; 32],
    quote_mint: [u8; 32],
    params: MarketParams,
    nonce: u8,
) -> (m: Market)
    ensures
        m.authority == authority,
        m.base_mint == base_mint,
        m.quote_mint == quote_mint,
        m.params == params,
        m.nonce == nonce,
        m.oracle_pyth@ =~= Seq::new(32, |i: int| 0u8),
        m.oracle_switchboard@ =~= Seq::new(32, |i: int| 0u8),
        m.last_funding_timestamp == 0,
{
    Market {
        authority,
        base_mint,
        quote_mint,
        oracle_pyth: [0u8; 32],
        oracle_switchboard: [0u8; 32],
        params,
        nonce,
        last_funding_timestamp: 0,
    }
}

/// Replace the market's tunable parameters. Only the authority may do so:
/// fails with `Unauthorized`, changing nothing, exactly when `caller` is
/// not the market authority.
pub fn update_risk_params(market: &mut Market, caller: &[u8; 32], new_params: MarketParams) -> (r:
    Result<(), ErrorCode>)
    ensures
        match r {
            Ok(_) => {
                &&& caller@ =~= old(market).authority@
                &&& final(market).params == new_params
                &&& final(market).authority == old(market).authority
                &&& final(market).base_mint == old(market).base_mint
                &&& final(market).quote_mint == old(market).quote_mint
                &&& final(market).oracle_pyth == old(market).oracle_pyth
                &&& final(market).oracle_switchboard == old(market).oracle_switchboard
                &&& final(market).nonce == old(market).nonce
                &&& final(market).last_funding_timestamp == old(market).last_funding_timestamp
            },
            Err(e) => {
                &&& *final(market) == *old(market)
                &&& e == ErrorCode::Unauthorized
                &&& !(caller@ =~= old(market).authority@)
            },
        },
{
    let authorized = id_eq(caller, &market.authority);
    if !authorized {
        return Err(ErrorCode::Unauthorized);
    }
    market.params = new_params;
    Ok(())
}

} // verus!
