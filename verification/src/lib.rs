//! Verified core of a benchmark harness for an external flocking simulator.
//!
//! The library enumerates benchmark configurations, parses the simulator's
//! streamed output, reduces noisy trials into one robust statistic, caches
//! measurements in an append-only results table, and keeps the ordered
//! series that a chart reads. All statistics are held as integers in
//! thousandths, so every computation here is exact and verified.

pub mod config;
pub mod executor;
pub mod parser;
pub mod series;
pub mod stats;
pub mod store;
pub mod sweep;
pub mod text;
