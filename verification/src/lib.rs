//! A verified core for a market-data feed handler: a fixed-precision decimal
//! codec, a byte-level message classifier, a wire parser for book snapshots,
//! an order book model, and a resequencing pipeline that restores submission
//! order over out-of-order parse completions.

pub mod book;
pub mod classify;
pub mod codec;
pub mod gamma;
pub mod pipeline;
pub mod wire;
