//! The gateway: where the deterministic core meets the outside world.
//!
//! It absorbs retries, network flapping and client crashes, so that the state
//! machine only ever sees a clean, sequenced input stream. Clients number
//! their commands; duplicates are dropped and gaps refused, which gives an
//! exactly-once effect despite at-least-once delivery. A bounded window of
//! unacknowledged commands ties client throughput to engine latency. A dropped
//! connection is a sequenced input like any other.

pub mod edge;
pub mod flow;
pub mod message;
pub mod server;
