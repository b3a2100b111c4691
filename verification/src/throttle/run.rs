//! A throttled request while it runs.

use super::saturation::{Accepted, CompatState};
use crate::adaptor::{OutboundHint, RequestOutcome};
use crate::time::{Duration, Instant};
use crate::types::{
    NonZeroU32, OutboundAcquireError, OutboundCompletion, OutboundMetadata, OutboundPriority,
    OutboundScope,
};
use vstd::prelude::*;

verus! {

/// How the inner request is held: shared with other wrappers, or owned.
#[derive(Clone, Copy, Debug, PartialEq, Eq, Structural)]
pub enum Sharing {
    Shared,
    Owned,
}

/// How the inner request is performed.
#[derive(Clone, Copy, Debug, PartialEq, Eq, Structural)]
pub enum InnerPath {
    /// By reference: the request can be performed again.
    SendRef,
    /// By value: the request is used up.
    IntoFuture,
}

/// The metadata of a throttled request: the payload's scope and class, one
/// priority for all, and a single unit (calls are counted, not messages).
pub fn compat_metadata(hint: &OutboundHint) -> (r: OutboundMetadata)
    ensures
        r.scope == hint.scope,
        r.class == hint.class,
        r.priority.value == 128,
        r.weight@ == 1,
{
    OutboundMetadata {
        scope: hint.scope,
        class: hint.class,
        priority: OutboundPriority::normal(),
        weight: NonZeroU32::one(),
    }
}

/// How the inner request is performed after a grant: only an owned request
/// that is never retried is used up.
pub open spec fn granted_path(retry: bool, sharing: Sharing) -> InnerPath {
    if retry || sharing is Shared {
        InnerPath::SendRef
    } else {
        InnerPath::IntoFuture
    }
}

/// How the inner request is performed without the queue.
pub open spec fn direct_path(sharing: Sharing) -> InnerPath {
    match sharing {
        Sharing::Shared => InnerPath::SendRef,
        Sharing::Owned => InnerPath::IntoFuture,
    }
}

/// How the permit of an outcome is completed: a `RetryAfter` penalizes
/// everything.
pub open spec fn completion_of(outcome: RequestOutcome) -> OutboundCompletion {
    match outcome {
        RequestOutcome::Success => OutboundCompletion::Success,
        RequestOutcome::RetryAfter(duration) => OutboundCompletion::RetryAfter {
            scope: OutboundScope::Global,
            duration,
        },
        RequestOutcome::Failed => OutboundCompletion::Failed,
    }
}

/// Completes the permit of an outcome that was classified once.
pub fn finish(outcome: RequestOutcome) -> (r: OutboundCompletion)
    ensures
        r == completion_of(outcome),
{
    match outcome {
        RequestOutcome::Success => OutboundCompletion::Success,
        RequestOutcome::RetryAfter(duration) => OutboundCompletion::RetryAfter {
            scope: OutboundScope::Global,
            duration,
        },
        RequestOutcome::Failed => OutboundCompletion::Failed,
    }
}

/// The completion of an outcome that was observed at `observed_at` and is
/// applied at `now`: what has passed of a penalty in the meantime counts.
pub open spec fn applied_late(
    completion: OutboundCompletion,
    observed_at: Instant,
    now: Instant,
) -> OutboundCompletion {
    match completion {
        OutboundCompletion::RetryAfter { scope, duration } => {
            let until = observed_at.plus(duration);
            OutboundCompletion::RetryAfter {
                scope,
                duration: if until.nanos > now.nanos {
                    Duration { nanos: (until.nanos - now.nanos) as u64 }
                } else {
                    Duration { nanos: 0 }
                },
            }
        },
        _ => completion,
    }
}

/// The completion to apply at `now` of an outcome observed at `observed_at`.
pub fn as_observed(completion: OutboundCompletion, observed_at: Instant, now: Instant) -> (r:
    OutboundCompletion)
    ensures
        r == applied_late(completion, observed_at, now),
{
    match completion {
        OutboundCompletion::RetryAfter { scope, duration } => {
            let until = observed_at.plus(duration);
            OutboundCompletion::RetryAfter { scope, duration: until.saturating_since(now) }
        },
        _ => completion,
    }
}

/// How far a throttled request has come.
#[derive(Clone, Copy, Debug, PartialEq, Eq, Structural)]
pub enum CompatPhase {
    /// Waiting for a slot of the backlog.
    WaitingSlot,
    /// Holding a slot, entering the queue.
    Enqueuing { was_last_slot: bool },
    /// In the backlog, waiting for the grant.
    Granting,
    Executing,
    /// Waiting for the end of the freeze, outside the queue.
    Sleeping,
    Done,
}

/// What happened.
#[derive(Clone, Copy, Debug, PartialEq, Eq)]
pub enum CompatEvent {
    /// A slot is held; whether none is left.
    SlotTaken { was_last_slot: bool },
    Enqueued(Result<(), OutboundAcquireError>),
    Granted(Result<(), OutboundAcquireError>),
    /// The inner request ended with `outcome`, observed at this moment.
    Executed { outcome: RequestOutcome, observed_at: Instant },
    Woken,
}

/// What to do next.
#[derive(Clone, Copy, Debug, PartialEq, Eq, Structural)]
pub enum CompatAction {
    TakeSlot,
    /// Enter the queue, after other tasks had a turn if a cancelled request
    /// still has to leave it.
    Enqueue { metadata: OutboundMetadata, after_yield: bool },
    AwaitGrant { accepted: Accepted },
    /// The queue is gone: release the slot and perform the request.
    SendDirectly(InnerPath),
    /// Release the slot and perform the request.
    Execute(InnerPath),
    /// Complete the permit as of the observed moment and return the outcome.
    CompleteAndReturn { completion: OutboundCompletion, observed_at: Instant },
    /// Complete the permit as of the observed moment and sleep.
    CompleteAndSleep { completion: OutboundCompletion, observed_at: Instant, until: Instant },
}

/// A throttled request while it runs.
#[derive(Clone, Copy, Debug, PartialEq, Eq, Structural)]
pub struct CompatRun {
    pub metadata: OutboundMetadata,
    pub sharing: Sharing,
    pub phase: CompatPhase,
}

impl CompatRun {
    pub open spec fn at(self, phase: CompatPhase) -> CompatRun {
        CompatRun { phase, ..self }
    }

    /// The next states and what to do, or `None` where the event does not
    /// belong to the phase.
    pub open spec fn next(self, state: CompatState, event: CompatEvent, now: Instant) -> Option<
        (CompatRun, CompatState, CompatAction),
    > {
        match (self.phase, event) {
            (CompatPhase::WaitingSlot, CompatEvent::SlotTaken { was_last_slot }) => Some(
                (
                    self.at(CompatPhase::Enqueuing { was_last_slot }),
                    state,
                    CompatAction::Enqueue { metadata: self.metadata, after_yield: false },
                ),
            ),
            (CompatPhase::Enqueuing { was_last_slot }, CompatEvent::Enqueued(Ok(_))) => Some(
                (
                    self.at(CompatPhase::Granting),
                    state.accepted_state(was_last_slot, now),
                    CompatAction::AwaitGrant { accepted: state.accepted_steps(was_last_slot, now) },
                ),
            ),
            (CompatPhase::Enqueuing { .. }, CompatEvent::Enqueued(Err(error))) => if error
                is QueueFull {
                Some(
                    (
                        self,
                        state,
                        CompatAction::Enqueue { metadata: self.metadata, after_yield: true },
                    ),
                )
            } else {
                Some(
                    (
                        self.at(CompatPhase::Done),
                        state,
                        CompatAction::SendDirectly(direct_path(self.sharing)),
                    ),
                )
            },
            (CompatPhase::Granting, CompatEvent::Granted(Ok(_))) => Some(
                (
                    self.at(CompatPhase::Executing),
                    state,
                    CompatAction::Execute(granted_path(state.retry, self.sharing)),
                ),
            ),
            (CompatPhase::Granting, CompatEvent::Granted(Err(_))) => Some(
                (
                    self.at(CompatPhase::Done),
                    CompatState { deferred_full: false, ..state },
                    CompatAction::SendDirectly(direct_path(self.sharing)),
                ),
            ),
            (CompatPhase::Executing, CompatEvent::Executed { outcome, observed_at }) => {
                match outcome {
                    RequestOutcome::RetryAfter(duration) => {
                        let known = state.freeze(observed_at, duration);
                        if state.retry {
                            Some(
                                (
                                    self.at(CompatPhase::Sleeping),
                                    known,
                                    CompatAction::CompleteAndSleep {
                                        completion: completion_of(outcome),
                                        observed_at,
                                        until: observed_at.plus(duration),
                                    },
                                ),
                            )
                        } else {
                            Some(
                                (
                                    self.at(CompatPhase::Done),
                                    known,
                                    CompatAction::CompleteAndReturn {
                                        completion: completion_of(outcome),
                                        observed_at,
                                    },
                                ),
                            )
                        }
                    },
                    _ => Some(
                        (
                            self.at(CompatPhase::Done),
                            state,
                            CompatAction::CompleteAndReturn {
                                completion: completion_of(outcome),
                                observed_at,
                            },
                        ),
                    ),
                }
            },
            (CompatPhase::Sleeping, CompatEvent::Woken) => Some(
                (self.at(CompatPhase::WaitingSlot), state, CompatAction::TakeSlot),
            ),
            _ => None,
        }
    }

    /// Begins a throttled request: it has to take a slot of the backlog.
    pub fn start(hint: &OutboundHint, sharing: Sharing) -> (r: (CompatRun, CompatAction))
        ensures
            r.0.metadata.scope == hint.scope,
            r.0.metadata.class == hint.class,
            r.0.metadata.priority.value == 128,
            r.0.metadata.weight@ == 1,
            r.0.sharing == sharing,
            r.0.phase is WaitingSlot,
            r.1 is TakeSlot,
    {
        let run = CompatRun {
            metadata: compat_metadata(hint),
            sharing,
            phase: CompatPhase::WaitingSlot,
        };
        (run, CompatAction::TakeSlot)
    }

    fn direct(&self) -> (r: InnerPath)
        ensures
            r == direct_path(self.sharing),
    {
        match self.sharing {
            Sharing::Shared => InnerPath::SendRef,
            Sharing::Owned => InnerPath::IntoFuture,
        }
    }

    /// Takes in what happened and says what to do. An event that does not
    /// belong to the phase is answered with `None` and changes nothing.
    pub fn step(&mut self, state: &mut CompatState, event: CompatEvent, now: Instant) -> (r: Option<
        CompatAction,
    >)
        ensures
            match old(self).next(*old(state), event, now) {
                Some((after, shared, action)) => *final(self) == after && *final(state) == shared
                    && r == Some(action),
                None => *final(self) == *old(self) && *final(state) == *old(state) && r is None,
            },
    {
        match (self.phase, event) {
            (CompatPhase::WaitingSlot, CompatEvent::SlotTaken { was_last_slot }) => {
                self.phase = CompatPhase::Enqueuing { was_last_slot };
                Some(CompatAction::Enqueue { metadata: self.metadata, after_yield: false })
            },
            (CompatPhase::Enqueuing { was_last_slot }, CompatEvent::Enqueued(Ok(_))) => {
                let accepted = state.accepted(was_last_slot, now);
                self.phase = CompatPhase::Granting;
                Some(CompatAction::AwaitGrant { accepted })
            },
            (CompatPhase::Enqueuing { .. }, CompatEvent::Enqueued(Err(error))) => {
                match error {
                    OutboundAcquireError::QueueFull => Some(
                        CompatAction::Enqueue { metadata: self.metadata, after_yield: true },
                    ),
                    _ => {
                        self.phase = CompatPhase::Done;
                        Some(CompatAction::SendDirectly(self.direct()))
                    },
                }
            },
            (CompatPhase::Granting, CompatEvent::Granted(Ok(_))) => {
                self.phase = CompatPhase::Executing;
                let path = if state.retry {
                    InnerPath::SendRef
                } else {
                    self.direct()
                };
                Some(CompatAction::Execute(path))
            },
            (CompatPhase::Granting, CompatEvent::Granted(Err(_))) => {
                state.forget_deferred();
                self.phase = CompatPhase::Done;
                Some(CompatAction::SendDirectly(self.direct()))
            },
            (CompatPhase::Executing, CompatEvent::Executed { outcome, observed_at }) => {
                let completion = finish(outcome);
                if let RequestOutcome::RetryAfter(duration) = outcome {
                    state.record_freeze_at(observed_at, duration);
                    if state.retry {
                        self.phase = CompatPhase::Sleeping;
                        return Some(
                            CompatAction::CompleteAndSleep {
                                completion,
                                observed_at,
                                until: observed_at.plus(duration),
                            },
                        );
                    }
                }
                self.phase = CompatPhase::Done;
                Some(CompatAction::CompleteAndReturn { completion, observed_at })
            },
            (CompatPhase::Sleeping, CompatEvent::Woken) => {
                self.phase = CompatPhase::WaitingSlot;
                Some(CompatAction::TakeSlot)
            },
            _ => None,
        }
    }
}

// ---------- laws ----------

/// A request is tried again if and only if retries are on and the remote
/// side asked to wait; it then sleeps until the freeze it caused may be over
/// and queues again from the start. The freeze is recorded either way.
pub proof fn law_retry_sleeps_through_its_freeze(
    run: CompatRun,
    state: CompatState,
    outcome: RequestOutcome,
    observed_at: Instant,
    now: Instant,
)
    requires
        run.phase is Executing,
    ensures
        ({
            let (after, known, action) = run.next(
                state,
                (CompatEvent::Executed { outcome, observed_at }),
                now,
            )->0;
            &&& (after.phase is Sleeping <==> state.retry && outcome is RetryAfter)
            &&& (action is CompleteAndSleep <==> after.phase is Sleeping)
            &&& outcome matches RequestOutcome::RetryAfter(duration) ==> {
                &&& known.freeze_until is Some
                &&& known.freeze_until->0.nanos >= observed_at.plus(duration).nanos
                &&& action is CompleteAndSleep ==> action->until == observed_at.plus(duration)
            }
            &&& outcome !is RetryAfter ==> known == state
        }),
{
}

/// The outcome decides the completion alone: a `RetryAfter` always penalizes
/// the global scope, whatever the request's own scope is.
pub proof fn law_backoff_is_global(outcome: RequestOutcome)
    ensures
        completion_of(outcome) matches OutboundCompletion::RetryAfter { scope, duration } ==> {
            &&& scope is Global
            &&& outcome == RequestOutcome::RetryAfter(duration)
        },
        outcome is RetryAfter ==> completion_of(outcome) is RetryAfter,
{
}

/// A completion that is applied late does not extend the freeze: the penalty
/// ends when it would have ended had it been applied at once, and a penalty
/// whose end has passed is none.
pub proof fn law_late_completion_keeps_the_end_of_the_freeze(
    scope: OutboundScope,
    duration: Duration,
    observed_at: Instant,
    now: Instant,
)
    ensures
        applied_late(
            OutboundCompletion::RetryAfter { scope, duration },
            observed_at,
            now,
        ) matches OutboundCompletion::RetryAfter { scope: penalized, duration: left } && {
            let until = observed_at.plus(duration);
            &&& penalized == scope
            &&& until.nanos > now.nanos ==> now.plus(left) == until
            &&& until.nanos <= now.nanos ==> left.nanos == 0
        },
{
}

/// A request that was granted is performed once per grant, and a request
/// that may be performed again is never used up.
pub proof fn law_retried_requests_are_never_used_up(
    run: CompatRun,
    state: CompatState,
    event: CompatEvent,
    now: Instant,
)
    ensures
        run.next(state, event, now) matches Some((after, known, action)) ==> {
            &&& (action is Execute <==> after.phase is Executing)
            &&& action is Execute ==> run.phase is Granting
            &&& action matches CompatAction::Execute(path) ==> (path is IntoFuture <==> !state.retry
                && run.sharing is Owned)
            &&& action is SendDirectly ==> after.phase is Done
            &&& known.retry == state.retry
            &&& after.metadata == run.metadata
        },
{
}

} // verus!
