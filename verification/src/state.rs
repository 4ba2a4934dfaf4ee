//! Persistent record types of the engine: market configuration, order-book
//! side metadata, events, positions, and margin accounts.
use vstd::prelude::*;

verus! {

/// Side of the book an order rests on: `Bid` (buy) or `Ask` (sell).
#[derive(Clone, Copy, Debug, PartialEq, Eq, Structural)]
pub enum Side {
    Bid,
    Ask,
}

/// The side opposite to `side`.
pub open spec fn opposite_side(side: Side) -> Side {
    match side {
        Side::Bid => Side::Ask,
        Side::Ask => Side::Bid,
    }
}

/// Executable counterpart of [`opposite_side`].
pub fn opposite(side: Side) -> (r: Side)
    ensures
        r == opposite_side(side),
{
    match side {
        Side::Bid => Side::Ask,
        Side::Ask => Side::Bid,
    }
}

/// How a margin account backs its positions: one shared collateral balance
/// (`Cross`) or one balance per position (`Isolated`).
#[derive(Clone, Copy, Debug, PartialEq, Eq, Structural)]
pub enum MarginType {
    Cross,
    Isolated,
}

/// Tunable risk parameters of a market.
#[derive(Clone, Copy, Debug)]
pub struct MarketParams {
    /// Minimum price increment, in quote-minor units.
    pub tick_size: u64,
    /// Minimum quantity increment, in base-minor units.
    pub lot_size: u64,
    /// Maximum notional per unit of collateral.
    pub leverage_limit: u8,
    /// Seconds between funding settlements; also the maximum accepted age of
    /// the primary oracle price.
    pub funding_interval: i64,
    /// Minimum equity/notional ratio, in basis points, below which an
    /// account may be liquidated.
    pub maintenance_margin_ratio: u16,
}

/// Immutable identity and tunable parameters of one trading pair.
#[derive(Clone, Copy, Debug)]
pub struct Market {
    /// The only identity allowed to update `params`.
    pub authority: [u8; 32],
    pub base_mint: [u8; 32],
    pub quote_mint: [u8; 32],
    /// Address of the primary oracle feed.
    pub oracle_pyth: [u8; 32],
    /// Address of the secondary oracle feed.
    pub oracle_switchboard: [u8; 32],
    pub params: MarketParams,
    pub nonce: u8,
    /// Unix timestamp of the most recent funding settlement.
    pub last_funding_timestamp: i64,
}

/// Metadata for one side of a market's order book. The orders themselves
/// live in a separate [`crate::slab::Slab`] record; `head` and `free_head`
/// mirror the slab's list heads so that readers of this record alone see the
/// top of book.
#[derive(Clone, Copy, Debug)]
pub struct OrderbookSide {
    pub side: Side,
    /// Mirror of the slab's active-list head.
    pub head: u32,
    /// Mirror of the slab's free-list head.
    pub free_head: u32,
    /// The next order id to assign; strictly greater than every key resting
    /// in the slab.
    pub next_order_id: u128,
}

/// Event type tag for an order-placement record.
pub const EVENT_PLACE: u8 = 0;

/// Event type tag for a matched-fill record.
pub const EVENT_FILL: u8 = 1;

/// One record of the event queue: an order placement (`event_type == 0`) or
/// a matched fill (`event_type == 1`).
#[derive(Clone, Copy, Debug)]
pub struct OrderEvent {
    pub event_type: u8,
    /// Order id of the resting (maker) order.
    pub key: u128,
    pub price: u64,
    pub qty: u64,
    /// Identity of the resting order's owner.
    pub owner: [u8; 32],
}

/// An open exposure held by a margin account.
#[derive(Clone, Copy, Debug)]
pub struct Position {
    /// The maker order id this position was opened against.
    pub key: u128,
    pub qty: u64,
    pub entry_price: u64,
    pub side: Side,
    /// Collateral backing this position alone; meaningful only under
    /// [`MarginType::Isolated`].
    pub collateral: u64,
}

/// Per-trader collateral balance and open positions.
#[derive(Clone, Debug)]
pub struct MarginAccount {
    pub owner: [u8; 32],
    /// Shared collateral, in quote-minor units.
    pub collateral: u64,
    pub margin_type: MarginType,
    pub positions: Vec<Position>,
}

} // verus!
