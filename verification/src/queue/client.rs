//! The states of an acquire and of a permit on the caller's side.

use super::actor::QueueCommand;
use crate::types;
use crate::types::{JobId, OutboundAcquireError, OutboundCompletion, OutboundQueueError};
use vstd::prelude::*;

verus! {

/// The pending state of an acquire.
#[derive(Clone, Copy, Debug, PartialEq, Eq, Structural)]
pub enum AcquireState {
    /// The enqueue command was sent; waiting for the actor's reply.
    Enqueuing,
    /// The job is enqueued; waiting for the grant (or supersede, or close).
    Waiting { job_id: JobId },
    /// The acquire has resolved.
    Done,
}

/// What reaches an acquire.
#[derive(Clone, Copy, Debug, PartialEq, Eq)]
pub enum AcquireEvent {
    Replied(Result<JobId, OutboundQueueError>),
    Granted,
    Superseded,
    /// The actor shut down, or is gone without an answer.
    Closed,
}

/// How an acquire resolves.
#[derive(Clone, Copy, Debug, PartialEq, Eq, Structural)]
pub enum AcquireOutcome {
    /// The caller owns the permit of this job.
    Permit(JobId),
    Failed(OutboundAcquireError),
}

/// What an acquire does with an event: the next state and how it resolves,
/// or `None` where it does not wait for the event.
pub open spec fn acquire_next(state: AcquireState, event: AcquireEvent) -> Option<
    (AcquireState, Option<AcquireOutcome>),
> {
    match (state, event) {
        (AcquireState::Enqueuing, AcquireEvent::Replied(Ok(job_id))) => Some(
            (AcquireState::Waiting { job_id }, None),
        ),
        (AcquireState::Enqueuing, AcquireEvent::Replied(Err(error))) => Some(
            (
                AcquireState::Done,
                Some(AcquireOutcome::Failed(types::acquire_error_of(error))),
            ),
        ),
        (AcquireState::Enqueuing, AcquireEvent::Closed) => Some(
            (AcquireState::Done, Some(AcquireOutcome::Failed(OutboundAcquireError::Closed))),
        ),
        (AcquireState::Waiting { job_id }, AcquireEvent::Granted) => Some(
            (AcquireState::Done, Some(AcquireOutcome::Permit(job_id))),
        ),
        (AcquireState::Waiting { .. }, AcquireEvent::Superseded) => Some(
            (AcquireState::Done, Some(AcquireOutcome::Failed(OutboundAcquireError::Superseded))),
        ),
        (AcquireState::Waiting { .. }, AcquireEvent::Closed) => Some(
            (AcquireState::Done, Some(AcquireOutcome::Failed(OutboundAcquireError::Closed))),
        ),
        _ => None,
    }
}

impl AcquireState {
    /// Takes in an event. One that the acquire does not wait for changes
    /// nothing; an acquire that has resolved waits for none.
    pub fn step(&mut self, event: AcquireEvent) -> (r: Option<AcquireOutcome>)
        ensures
            match acquire_next(*old(self), event) {
                Some((after, outcome)) => *final(self) == after && r == outcome,
                None => *final(self) == *old(self) && r is None,
            },
    {
        match (*self, event) {
            (AcquireState::Enqueuing, AcquireEvent::Replied(Ok(job_id))) => {
                *self = AcquireState::Waiting { job_id };
                None
            },
            (AcquireState::Enqueuing, AcquireEvent::Replied(Err(error))) => {
                *self = AcquireState::Done;
                Some(AcquireOutcome::Failed(OutboundAcquireError::from(error)))
            },
            (AcquireState::Enqueuing, AcquireEvent::Closed) => {
                *self = AcquireState::Done;
                Some(AcquireOutcome::Failed(OutboundAcquireError::Closed))
            },
            (AcquireState::Waiting { job_id }, AcquireEvent::Granted) => {
                *self = AcquireState::Done;
                Some(AcquireOutcome::Permit(job_id))
            },
            (AcquireState::Waiting { .. }, AcquireEvent::Superseded) => {
                *self = AcquireState::Done;
                Some(AcquireOutcome::Failed(OutboundAcquireError::Superseded))
            },
            (AcquireState::Waiting { .. }, AcquireEvent::Closed) => {
                *self = AcquireState::Done;
                Some(AcquireOutcome::Failed(OutboundAcquireError::Closed))
            },
            _ => None,
        }
    }

    /// What has to be sent when an acquire is dropped: only a job that is
    /// known and not resolved can be cancelled.
    pub fn dropped(&self) -> (r: Option<QueueCommand>)
        ensures
            r == match *self {
                AcquireState::Waiting { job_id } => Some(QueueCommand::Cancel { job_id }),
                _ => None::<QueueCommand>,
            },
    {
        match *self {
            AcquireState::Waiting { job_id } => Some(QueueCommand::Cancel { job_id }),
            _ => None,
        }
    }
}

/// The ownership of a granted slot.
#[derive(Clone, Copy, Debug, PartialEq, Eq, Structural)]
pub struct PermitState {
    pub job_id: JobId,
    pub completed: bool,
}

impl PermitState {
    pub fn new(job_id: JobId) -> (r: Self)
        ensures
            r == (PermitState { job_id, completed: false }),
    {
        PermitState { job_id, completed: false }
    }

    /// Reports that the request starts.
    pub fn start(&self) -> (r: QueueCommand)
        ensures
            r == (QueueCommand::Start { job_id: self.job_id }),
    {
        QueueCommand::Start { job_id: self.job_id }
    }

    /// Reports how the request ended.
    pub fn complete(&mut self, outcome: OutboundCompletion) -> (r: QueueCommand)
        ensures
            *final(self) == (PermitState { completed: true, ..*old(self) }),
            r == (QueueCommand::Complete { job_id: old(self).job_id, outcome }),
    {
        self.completed = true;
        QueueCommand::Complete { job_id: self.job_id, outcome }
    }

    /// What has to be sent when a permit is dropped: without an explicit
    /// completion it counts as cancelled.
    pub fn dropped(&self) -> (r: Option<QueueCommand>)
        ensures
            r == (if self.completed {
                None::<QueueCommand>
            } else {
                Some(
                    QueueCommand::Complete {
                        job_id: self.job_id,
                        outcome: OutboundCompletion::CancelledAfterGrant,
                    },
                )
            }),
    {
        if self.completed {
            None
        } else {
            Some(
                QueueCommand::Complete {
                    job_id: self.job_id,
                    outcome: OutboundCompletion::CancelledAfterGrant,
                },
            )
        }
    }
}

/// How the ingress of the queue took a command.
#[derive(Clone, Copy, Debug, PartialEq, Eq, Structural)]
pub enum Ingress {
    Sent,
    Full,
    Closed,
}

/// What an acquire learns right away from the ingress: a full one fails
/// fast, the actor never saw the command.
pub fn ingress_event(ingress: Ingress) -> (r: Option<AcquireEvent>)
    ensures
        r == match ingress {
            Ingress::Sent => None::<AcquireEvent>,
            Ingress::Full => Some(AcquireEvent::Replied(Err(OutboundQueueError::QueueFull))),
            Ingress::Closed => Some(AcquireEvent::Closed),
        },
{
    match ingress {
        Ingress::Sent => None,
        Ingress::Full => Some(AcquireEvent::Replied(Err(OutboundQueueError::QueueFull))),
        Ingress::Closed => Some(AcquireEvent::Closed),
    }
}

} // verus!
