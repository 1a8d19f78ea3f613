//! Price aggregation and divergence detection for token trading pairs.
//!
//! The crate models tokens, exchanges and trading pairs, keeps a
//! time-stamped price cache with staleness tracking, normalizes raw
//! multi-exchange feed records into validated pairs, and scans a pair
//! snapshot for cross-exchange price divergence above a fixed
//! threshold.  Network transport stays outside: the feeds take the
//! raw records a fetch produced, or its failure, and are verified
//! from there.

pub mod cache;
mod clock;
pub mod dec;
pub mod models;
pub mod price_feed;
pub mod scanner;

pub use models::{
    ArbitrageLeg, ArbitrageOpportunity, ArbitrageRoute, CachedPrice, Exchange, Token, TradingPair,
};
pub use price_feed::{MetisPriceFeed, MockPriceFeed, PriceFeed};
