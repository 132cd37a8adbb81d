//! Core logic of an approval-voting subsystem for a blockchain validator node.
//!
//! The crate tracks, per relay-chain block and per candidate, which validators
//! are assigned to check the candidate and which have approved it; schedules
//! tick-driven wakeups to broadcast the local assignment and to detect
//! no-shows; keeps a bounded sliding window of per-session validator-set
//! metadata; and serialises local approval-vote production through a bounded
//! ordered queue.

pub mod codec;
pub mod multiplexer;
pub mod scheduler;
pub mod session;
pub mod store;
pub mod subsystem;
