//! A resource-based production-chain simulator: configuration parsing,
//! process bookkeeping over stocks, time advancement, and a bounded search
//! for a good schedule.

pub mod text;
pub mod stock_map;
pub mod parser;
pub mod simulator;
pub mod clock;
pub mod search;
pub mod replay;
