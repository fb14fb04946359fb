//! Multi-path datagram transport core: the wire codec for the session
//! handshake, the per-path latency estimator and path ranking used by the
//! sender, the bounded assembly table that groups the handshake datagrams of
//! one session, and the framing rules applied on receive and send.
//!
//! Socket I/O and task plumbing live outside this crate; everything here is
//! pure logic over plain values. Points in time are carried as `u64`
//! nanosecond counts on a monotonic clock, durations as `u64` nanosecond
//! spans.

pub mod message;
pub mod backlog;
pub mod listen;
pub mod read;
pub mod scheduler;
pub mod write;
