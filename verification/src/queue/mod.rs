//! The outbound queue: what its actor does with every command, and the
//! states of an acquire and of a permit on the caller's side.
//!
//! The actor is the sole owner of the scheduling state. Whoever runs it
//! receives commands, performs what the replies say and sleeps until the
//! next deadline.

pub mod actor;
pub mod client;
pub mod laws;
