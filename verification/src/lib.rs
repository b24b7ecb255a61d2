//! A sharded limit-order matching engine: per-instrument price-ordered
//! books of resting sell orders, the market-buy walk with self-trade
//! prevention and a budget ceiling, cancellation by transaction
//! identifier, routing-key dispatch, and the downstream price cache with
//! its sorted read snapshot.

pub mod auth;
pub mod book;
pub mod engine;
pub mod laws;
pub mod models;
pub mod order;
pub mod price_cache;
pub mod routing;
pub mod state;
