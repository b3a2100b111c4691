//! Throttled requests: the limits of a bot account on top of the outbound
//! queue.
//!
//! What a throttled request promises:
//!
//! - only message sends are throttled, every other method passes through;
//! - every throttled request counts as one call, however many messages it
//!   carries;
//! - a `RetryAfter` outcome freezes everything until the backoff expires. The
//!   freeze is anchored at the moment the error was observed, and that one
//!   moment drives the scheduler penalty, the local sleep of a retry and the
//!   silence of the full-backlog callback;
//! - a retried request sleeps outside the queue, so requests that arrive
//!   during the freeze keep their place ahead of it;
//! - the backlog is bounded; a full backlog is reported at most once per four
//!   seconds, at the moment the last slot is taken. During a freeze the report
//!   is deferred and made once when the freeze ends.

pub mod laws;
pub mod limits;
pub mod methods;
pub mod run;
pub mod saturation;
