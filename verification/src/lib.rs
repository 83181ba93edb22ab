//! A single-process limit-order matching core.
//!
//! Per trading pair, an order book keeps resting limit orders bucketed by
//! exact price level; incoming market orders consume resting liquidity in
//! price-time priority. Prices and sizes are fixed-point integer counts of
//! ticks, so all arithmetic is exact.

pub mod engine;
pub mod orderbook;
