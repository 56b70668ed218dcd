//! Per-frame latency measurement for graphics processes.
//!
//! A kernel probe timestamps every call of a rendering entry point and
//! publishes fixed-size records through a ring buffer; the collector in
//! this crate routes those records to per-process frame states and hands
//! out the resulting frametimes in round-robin order.
pub mod analyzer;
pub mod error;
pub mod frame;
pub mod last_error;
pub mod probe;
pub mod record;
pub mod uprobe;
