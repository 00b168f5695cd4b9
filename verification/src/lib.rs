//! Reliable-UDP remote-control bridge: a verified command channel to a
//! single remote device, plus the bot-side interpreter that drives it.
//!
//! The crate owns the sequence space, retry and online clocks, the FIFO of
//! outstanding waiters, the wire codec, the keyed delay registry, and the
//! table-driven interpreter. Sockets, timers and the chat transport live
//! with the caller; every transition here takes the current time in
//! milliseconds as a plain value.

use vstd::prelude::*;

pub mod bot;
pub mod config;
pub mod server;

verus! {

/// Milliseconds between two transmissions of the in-flight command.
pub const RETRY_SPACING_MS: u64 = 1_000;

/// Milliseconds after acceptance at which the channel gives up on a command.
pub const ATTEMPT_WINDOW_MS: u64 = 4_000;

/// Milliseconds the device counts as online after its last status frame.
pub const ONLINE_TTL_MS: u64 = 40_000;

} // verus!
