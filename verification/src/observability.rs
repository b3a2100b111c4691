//! Observations of the life of a request.

use crate::time::Instant;
use crate::types::{OutboundCompletion, OutboundCorrelationId};
use vstd::prelude::*;

verus! {

/// Lifecycle phase emitted by an outbound queue observer.
#[derive(Clone, Copy, Debug, PartialEq, Eq, Structural)]
pub enum OutboundEventKind {
    Enqueued,
    Granted,
    Started,
    Completed { outcome: OutboundCompletion },
}

/// A point-in-time outbound lifecycle event.
#[derive(Clone, Copy, Debug, PartialEq, Eq, Structural)]
pub struct OutboundEvent {
    pub kind: OutboundEventKind,
    pub correlation_id: Option<OutboundCorrelationId>,
    pub at: Instant,
}

/// Receives outbound lifecycle events. Whoever runs the queue isolates it
/// from a faulty observer.
pub trait OutboundObserver {
    fn observe(&self, event: OutboundEvent);
}

/// An observer that intentionally discards all events.
#[derive(Clone, Copy, Debug, PartialEq, Eq, Structural)]
pub struct NoopOutboundObserver {
}

impl OutboundObserver for NoopOutboundObserver {
    fn observe(&self, _event: OutboundEvent) {
    }
}

} // verus!
