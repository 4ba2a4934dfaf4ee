//! Core of a perpetual-futures exchange engine: a fixed-capacity slab order
//! book with price-time priority, an event-queue ring, limit/market order
//! placement with leverage checks, dual-oracle mark-price reconciliation,
//! funding settlement, liquidation, and fill settlement.
//!
//! All arithmetic is on integers with explicit overflow semantics; every
//! entry point either commits all of its mutations or none of them.
pub mod codec;
pub mod collateral;
pub mod errors;
pub mod event_queue;
pub mod liquidate;
pub mod market;
pub mod math;
pub mod oracle;
pub mod order;
pub mod settle;
pub mod slab;
pub mod state;
