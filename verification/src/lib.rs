//! Core of a cryptocurrency exchange matching engine: a per-symbol limit
//! order book with price-time priority matching, a monotonic sequence
//! authority, and snapshot flattening and rebuilding for crash recovery.

pub mod config;
pub mod laws;
pub mod metrics;
pub mod sequence;
pub mod types;
pub mod orderbook;
pub mod matching;
pub mod request;
pub mod snapshot;

pub use orderbook::OrderBook;
pub use types::{MatchResult, Order, Side, Trade};
