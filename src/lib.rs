pub mod arbitrage;
pub mod cache;
pub mod decimal;
pub mod monitor;
pub mod pool;
pub mod resolver;
pub mod source;
