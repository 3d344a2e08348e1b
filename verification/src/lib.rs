//! Comparative benchmarking of serialization-plus-compression pipelines.
//!
//! A candidate pipeline is run over a fixed corpus of documents a set number
//! of times, its per-document latency is averaged, and its compressed sizes
//! and latencies are scored against a baseline measurement. Every quantity is
//! a whole number: sizes in bytes, times in picoseconds, scores in billionths.

pub mod decimal;
pub mod metric;
pub mod strategy;
pub mod ratio;
pub mod runner;
pub mod ledger;
