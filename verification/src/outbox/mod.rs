//! Durable, application-defined outbox for outbound work.
//!
//! The outbox stores opaque application payloads and frozen scheduler
//! metadata. Delivery is at least once: a crash after the remote side
//! accepted a request but before its completion was stored can cause a
//! replay. The idempotency key is handed to whoever performs the request.
//!
//! A record is claimed under a lease that fences it: every change of a
//! claimed record names the lease, and only the current one counts.

pub mod history;
pub mod laws;
pub mod outcomes;
pub mod records;
pub mod store;
pub mod worker;
