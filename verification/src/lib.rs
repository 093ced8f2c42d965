//! Core of a small real-time chat service: the wire-envelope codec, the
//! connection hub with its best-effort broadcast, the append-only message
//! log with incremental flush and startup recovery, and the session
//! orchestrator that drives a participant's lifecycle.
//!
//! Transport, scheduling and file I/O live outside this crate; every
//! decision the service makes is a verified function here, from plain
//! values to plain values.

pub mod codec;
pub mod decimal;
pub mod envelope;
pub mod hub;
pub mod message_log;
pub mod nonce;
pub mod page;
pub mod session;
pub mod text;

use vstd::prelude::*;

verus! {

/// Number of participants the hub admits at once.
pub const MAX_PARTICIPANTS: usize = 100;

/// Capacity of each participant's outbound queue.
pub const QUEUE_CAPACITY: usize = 32;

/// Seconds between keep-alive pings.
pub const PING_INTERVAL_SECS: u64 = 60;

/// Seconds between two flushes of the message log.
pub const FLUSH_INTERVAL_SECS: u64 = 1;

} // verus!
