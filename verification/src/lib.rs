//! Building blocks for estimating pi on a pool of worker threads.
//!
//! Two engines share one shape: workers run a pure per-item function and
//! publish results, and a single aggregator consumes them under a stopping
//! rule. This crate holds the parts of both engines that decide something:
//! how an index range is split among workers, how a sample is classified,
//! when the aggregator has seen enough, and when a producer must stop.
//! Threads, channels and floating point live with the caller.

pub mod error;
pub mod partition;
pub mod reduction;
pub mod coprime;
pub mod tally;
pub mod producer;
pub mod pool;
