//! A verified outbound request scheduler.

pub mod adaptor;
pub mod classify;
pub mod heap;
pub mod idmap;
pub mod observability;
pub mod outbox;
pub mod payload;
pub mod queue;
pub mod scheduler;
pub mod text;
pub mod throttle;
pub mod time;
pub mod types;
pub mod window;
