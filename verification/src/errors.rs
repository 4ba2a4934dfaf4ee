//! Enumerated error codes. Every fallible operation in the engine fails with
//! exactly one of these, and the whole transaction is rolled back by the host.
use vstd::prelude::*;

verus! {

#[derive(Clone, Copy, Debug, PartialEq, Eq, Structural)]
pub enum ErrorCode {
    /// Caller is not the market authority.
    Unauthorized,
    /// A deposit or withdrawal of zero.
    InvalidAmount,
    /// An order with zero quantity.
    InvalidQuantity,
    /// A slab or ring capacity of zero, or above the compile-time maximum.
    InvalidCapacity,
    /// The orderbook side named by the caller does not match the book.
    InvalidOrderbookSide,
    /// A node index outside the slab, or one that holds no active order.
    InvalidIndex,
    /// The slab's free list is empty.
    OrderbookFull,
    /// The order-id counter is exhausted.
    OrderbookOverflow,
    /// A market order against an empty book.
    OrderbookEmpty,
    /// Total notional would exceed collateral times the leverage limit.
    LeverageExceeded,
    /// Collateral is too small for a withdrawal, funding debit, or transfer.
    InsufficientCollateral,
    /// A fill price outside the caller's slippage band.
    SlippageExceeded,
    /// A liquidation attempt on an account whose health is at or above the
    /// maintenance margin ratio.
    HealthyAccount,
    /// An oracle sample that fails its staleness or sample-count gate.
    InvalidPriceFeed,
    /// A primary oracle price older than the configured maximum age.
    StalePrice,
    /// The two oracle feeds disagree beyond the deviation band.
    PriceDeviation,
    /// Integer overflow in notional, proceeds, or a collateral credit.
    Overflow,
    /// An event record that could not be serialized.
    EventSerializationFailure,
    /// Bytes that do not decode as an event or slab record.
    EventDeserializationFailure,
}

} // verus!
