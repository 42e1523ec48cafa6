//! Cross-exchange arbitrage engine: a concurrent book store, a fee- and
//! liquidity-aware opportunity scanner, and a paper-trading execution
//! simulator, with the trade ledger's row format.
//!
//! All prices, sizes and money amounts are fixed-point integers (see
//! [`units`]), so every formula is exact and proved free of overflow.

pub mod aggregator;
mod clock;
pub mod detector;
pub mod exchanges;
pub mod execution;
pub mod fees;
pub mod ledger;
pub mod order;
pub mod symbols;
pub mod units;
