//! Bounded-concurrency latency benchmarking: a dispatcher that keeps at most
//! a fixed number of remote calls in flight, a filter that separates timed
//! successes from failures, and an aggregator that summarises the timings.

pub mod outcome;
pub mod stats;
pub mod dispatch;
pub mod session;
