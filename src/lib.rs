//! An in-memory limit order book: pooled price levels, sorted per-side
//! indices, per-instrument books and a manager that applies feed events.
pub mod error;
pub mod laws;
pub mod level;
pub mod order;
pub mod orderbook;
pub mod orderbook_manager;

pub mod pool;
pub mod price;
pub mod quantity;
pub mod sum;
pub mod utils;
