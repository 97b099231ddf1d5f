//! A price-level limit order book with a routing layer that maps
//! trading-pair identifiers to independent order books.
//!
//! Resting orders are grouped into price levels keyed by a fixed-point
//! price key; each level is a FIFO queue. An incoming market order
//! consumes resting liquidity on the opposite side, best price first,
//! with partial-fill accounting proved against a recursive model of
//! the fill.

pub mod engine;
pub mod orderbook;
