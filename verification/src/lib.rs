//! A verified bitonic sorting engine.
//!
//! Numeric values are mapped to order-preserving unsigned 32-bit keys, padded
//! to a power-of-two length with sentinel keys, and sorted by a bitonic
//! compare-exchange network. The network is driven one pass at a time through
//! a pluggable pass executor, so the same orchestration serves a CPU loop or
//! a GPU kernel dispatch.

pub mod correctness;
pub mod keys;
pub mod laws;
pub mod network;
pub mod runner;
pub mod sorting;
pub mod types;

pub use runner::CpuRunner;
pub use runner::SortRunner;
