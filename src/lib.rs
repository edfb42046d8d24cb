//! Detection of triangular arbitrage cycles over a catalog of trading pairs.
//!
//! Prices and quantities are fixed-point integers counted in units of
//! 10^-8, the precision in which the exchange publishes them.

pub mod catalog;
pub mod decimal;
pub mod ticker_cache;
pub mod trading_pair;
pub mod tri_pair;
pub mod triangle;
