//! Requests that run through the outbound queue.
//!
//! The classification is computed from the final payload, a permit is
//! acquired, the request is performed only after the grant, its outcome is
//! classified and the permit is completed exactly once on every path. There
//! is no automatic retry: the queue records the penalty, and whether to try
//! again is up to the caller.

use crate::classify;
use crate::classify::{ChatDirectory, ScopeView};
use crate::payload::hint;
use crate::payload::hint::{HintView, Payload, PayloadHint};
use crate::payload::table;
use crate::time::Duration;
use crate::types::{
    NonZeroU32, OutboundAcquireError, OutboundClass, OutboundCompletion, OutboundLaneKey,
    OutboundMetadata, OutboundPriority, OutboundScope,
};
use vstd::prelude::*;
use vstd::string::*;

verus! {

/// The classification of a request for the scheduler.
#[derive(Clone, Copy, Debug, PartialEq, Eq, Structural)]
pub struct OutboundHint {
    pub scope: OutboundScope,
    pub class: OutboundClass,
    pub priority: OutboundPriority,
    pub weight: NonZeroU32,
}

/// What a request changes about the classification of its payload. The scope
/// is tied to what is actually sent and cannot be changed.
#[derive(Clone, Copy, Debug, PartialEq, Eq, Structural)]
pub struct OutboundOverrides {
    pub class: Option<OutboundClass>,
    pub priority: Option<OutboundPriority>,
    pub weight: Option<NonZeroU32>,
}

impl Default for OutboundOverrides {
    /// Changes nothing.
    fn default() -> (r: Self)
        ensures
            r.class is None,
            r.priority is None,
            r.weight is None,
    {
        OutboundOverrides { class: None, priority: None, weight: None }
    }
}

/// What is overridden, or what there is.
pub open spec fn chosen<T>(over: Option<T>, base: T) -> T {
    match over {
        Some(value) => value,
        None => base,
    }
}

/// The metadata of a request: the payload's classification with the
/// overrides applied.
pub open spec fn metadata_of(hint: OutboundHint, overrides: OutboundOverrides) -> OutboundMetadata {
    OutboundMetadata {
        scope: hint.scope,
        class: chosen(overrides.class, hint.class),
        priority: chosen(overrides.priority, hint.priority),
        weight: chosen(overrides.weight, hint.weight),
    }
}

/// Builds the scheduler metadata from the payload hint with request-level
/// overrides applied. The scope always comes from the payload.
pub fn effective_metadata(hint: OutboundHint, overrides: OutboundOverrides) -> (r: OutboundMetadata)
    ensures
        r == metadata_of(hint, overrides),
{
    OutboundMetadata {
        scope: hint.scope,
        class: match overrides.class {
            Some(class) => class,
            None => hint.class,
        },
        priority: match overrides.priority {
            Some(priority) => priority,
            None => hint.priority,
        },
        weight: match overrides.weight {
            Some(weight) => weight,
            None => hint.weight,
        },
    }
}

/// The scope a `RetryAfter` outcome penalizes: the request's own. This is
/// the single place where that decision lives, so it is given the error too.
pub fn retry_after_scope<E>(metadata: &OutboundMetadata, _error: &E) -> (r: OutboundScope)
    ensures
        r == metadata.scope,
{
    metadata.scope
}

/// The error of a scheduled request: either the inner request failed after
/// the grant, or the request could not be admitted to the queue and never
/// ran.
#[derive(Clone, Copy, Debug, PartialEq, Eq)]
pub enum OutboundRequestError<E> {
    /// The inner request failed after the grant. Its own error is
    /// returned untouched.
    Inner(E),
    /// The request could not be admitted to the outbound queue. The inner
    /// request was never performed.
    Acquire(OutboundAcquireError),
}

impl<E> OutboundRequestError<E> {
    /// The text of the error, given that of what it holds.
    pub open spec fn message_spec(self, held: Seq<char>) -> Seq<char> {
        match self {
            OutboundRequestError::Inner(_) => "the scheduled request failed: "@ + held,
            OutboundRequestError::Acquire(_) => "the outbound queue rejected the request: "@ + held,
        }
    }

    /// The text of the error, given that of what it holds.
    pub fn message(&self, held: &str) -> (r: String)
        ensures
            r@ == self.message_spec(held@),
    {
        let mut text = match self {
            OutboundRequestError::Inner(_) => String::from_str("the scheduled request failed: "),
            OutboundRequestError::Acquire(_) => String::from_str(
                "the outbound queue rejected the request: ",
            ),
        };
        text.append(held);
        text
    }

    /// How long the remote side asks to wait, given what the inner error
    /// says about it. A rejection by the queue is local: there is nothing
    /// the remote side asked for.
    pub fn retry_after(&self, inner: Option<Duration>) -> (r: Option<Duration>)
        ensures
            r == (if self is Inner {
                inner
            } else {
                None::<Duration>
            }),
    {
        match self {
            OutboundRequestError::Inner(_) => inner,
            OutboundRequestError::Acquire(_) => None,
        }
    }
}

// ---------- a request ----------

/// The effective classification of a payload.
pub open spec fn overridden(view: HintView, overrides: OutboundOverrides) -> HintView {
    HintView {
        scope: view.scope,
        class: match overrides.class {
            Some(class) => class.value,
            None => view.class,
        },
        priority: match overrides.priority {
            Some(priority) => priority.value,
            None => view.priority,
        },
        weight: match overrides.weight {
            Some(weight) => weight@,
            None => view.weight,
        },
    }
}

/// The classification of a payload, if its method is classified and it has
/// the fields that the classification reads.
pub open spec fn payload_hint(payload: Payload) -> Option<HintView> {
    match table::policy_of(payload.method@) {
        Some(policy) => hint::hint_under(policy, payload.fields@),
        None => None,
    }
}

/// A request on its way to the queue. The payload can be changed until it is
/// sent; the classification always follows it.
#[derive(Debug, PartialEq, Eq)]
pub struct ScheduledRequest {
    pub request: Payload,
    pub lane: Option<OutboundLaneKey>,
    pub overrides: OutboundOverrides,
}

impl ScheduledRequest {
    pub fn new(request: Payload) -> (r: Self)
        ensures
            r.request == request,
            r.lane is None,
            r.overrides == (OutboundOverrides { class: None, priority: None, weight: None }),
    {
        ScheduledRequest { request, lane: None, overrides: OutboundOverrides::default() }
    }

    /// Attaches an ordering lane: at most one request of the lane is in
    /// flight and the lane is served strictly in enqueue order.
    pub fn on_lane(self, lane: OutboundLaneKey) -> (r: Self)
        ensures
            r == (ScheduledRequest { lane: Some(lane), ..self }),
    {
        ScheduledRequest { lane: Some(lane), ..self }
    }

    /// Overrides the payload's base priority.
    pub fn priority(self, priority: OutboundPriority) -> (r: Self)
        ensures
            r == (ScheduledRequest {
                overrides: OutboundOverrides { priority: Some(priority), ..self.overrides },
                ..self
            }),
    {
        let overrides = OutboundOverrides { priority: Some(priority), ..self.overrides };
        ScheduledRequest { overrides, ..self }
    }

    /// Overrides the payload's accounting weight.
    pub fn weight(self, weight: NonZeroU32) -> (r: Self)
        ensures
            r == (ScheduledRequest {
                overrides: OutboundOverrides { weight: Some(weight), ..self.overrides },
                ..self
            }),
    {
        let overrides = OutboundOverrides { weight: Some(weight), ..self.overrides };
        ScheduledRequest { overrides, ..self }
    }

    /// Overrides the payload's request class.
    pub fn class(self, class: OutboundClass) -> (r: Self)
        ensures
            r == (ScheduledRequest {
                overrides: OutboundOverrides { class: Some(class), ..self.overrides },
                ..self
            }),
    {
        let overrides = OutboundOverrides { class: Some(class), ..self.overrides };
        ScheduledRequest { overrides, ..self }
    }

    /// Replaces the whole override set.
    pub fn with_outbound_overrides(self, overrides: OutboundOverrides) -> (r: Self)
        ensures
            r == (ScheduledRequest { overrides, ..self }),
    {
        ScheduledRequest { overrides, ..self }
    }

    /// The effective classification of the current payload.
    pub fn metadata(&self) -> (r: Option<PayloadHint>)
        ensures
            match (r, payload_hint(self.request)) {
                (Some(effective), Some(view)) => effective@ == overridden(view, self.overrides),
                (None, None) => true,
                _ => false,
            },
    {
        match self.request.outbound_hint() {
            Some(hint) => Some(
                PayloadHint {
                    scope: hint.scope,
                    class: match self.overrides.class {
                        Some(class) => class,
                        None => hint.class,
                    },
                    priority: match self.overrides.priority {
                        Some(priority) => priority,
                        None => hint.priority,
                    },
                    weight: match self.overrides.weight {
                        Some(weight) => weight,
                        None => hint.weight,
                    },
                },
            ),
            None => None,
        }
    }

    /// Unwraps the payload.
    pub fn into_inner(self) -> (r: Payload)
        ensures
            r == self.request,
    {
        self.request
    }

    /// Begins to send: the payload is classified now, its chat gets its key
    /// in the directory, and a permit has to be acquired.
    pub fn send(&self, directory: &mut ChatDirectory) -> (r: Option<(ScheduledRun, RequestAction)>)
        requires
            old(directory).wf(),
            old(directory)@.len() < classify::CHAT_KEYS,
        ensures
            final(directory).wf(),
            match (r, payload_hint(self.request)) {
                (Some((run, action)), Some(view)) => {
                    let effective = overridden(view, self.overrides);
                    &&& run.metadata.scope == classify::scheduler_scope(
                        old(directory)@,
                        effective.scope,
                    )
                    &&& final(directory)@ == match effective.scope {
                        ScopeView::Global => old(directory)@,
                        ScopeView::Chat(identity) => classify::with_identity(
                            old(directory)@,
                            identity,
                        ),
                    }
                    &&& run.metadata.class.value == effective.class
                    &&& run.metadata.priority.value == effective.priority
                    &&& run.metadata.weight@ == effective.weight
                    &&& run.phase is Acquiring
                    &&& action == (RequestAction::Acquire {
                        metadata: run.metadata,
                        lane: self.lane,
                    })
                },
                (None, None) => final(directory)@ == old(directory)@,
                _ => false,
            },
    {
        match self.request.outbound_hint() {
            Some(base) => {
                let scope = directory.scope_of(&base.scope);
                let hint = OutboundHint {
                    scope,
                    class: base.class,
                    priority: base.priority,
                    weight: base.weight,
                };
                let metadata = effective_metadata(hint, self.overrides);
                let run = ScheduledRun { metadata, phase: RequestPhase::Acquiring };
                Some((run, RequestAction::Acquire { metadata, lane: self.lane }))
            },
            None => None,
        }
    }
}

// ---------- running it ----------

/// How a performed request ended.
#[derive(Clone, Copy, Debug, PartialEq, Eq, Structural)]
pub enum RequestOutcome {
    Success,
    /// The remote side asks to wait this long.
    RetryAfter(Duration),
    Failed,
}

/// How far a scheduled request has come.
#[derive(Clone, Copy, Debug, PartialEq, Eq, Structural)]
pub enum RequestPhase {
    Acquiring,
    Executing,
    /// The outcome is being applied by the queue.
    Completing,
    Done,
}

/// What happened.
#[derive(Clone, Copy, Debug, PartialEq, Eq)]
pub enum RequestEvent {
    Acquired(Result<(), OutboundAcquireError>),
    Executed(RequestOutcome),
    Completed,
}

/// What to do next.
#[derive(Clone, Copy, Debug, PartialEq, Eq, Structural)]
pub enum RequestAction {
    Acquire { metadata: OutboundMetadata, lane: Option<OutboundLaneKey> },
    /// Perform the inner request.
    Execute,
    /// Complete the permit and wait until the queue has applied it.
    Complete(OutboundCompletion),
    /// Return what the inner request returned.
    Return,
    /// Return the rejection.
    Reject(OutboundAcquireError),
}

/// How the permit of a performed request is completed.
pub open spec fn completion_of(
    metadata: OutboundMetadata,
    outcome: RequestOutcome,
) -> OutboundCompletion {
    match outcome {
        RequestOutcome::Success => OutboundCompletion::Success,
        RequestOutcome::RetryAfter(duration) => OutboundCompletion::RetryAfter {
            scope: metadata.scope,
            duration,
        },
        RequestOutcome::Failed => OutboundCompletion::Failed,
    }
}

/// A scheduled request while it runs.
#[derive(Clone, Copy, Debug, PartialEq, Eq, Structural)]
pub struct ScheduledRun {
    pub metadata: OutboundMetadata,
    pub phase: RequestPhase,
}

impl ScheduledRun {
    pub open spec fn at(self, phase: RequestPhase) -> ScheduledRun {
        ScheduledRun { phase, ..self }
    }

    /// The next state and what to do, or `None` where the event does not
    /// belong to the phase.
    pub open spec fn next(self, event: RequestEvent) -> Option<(ScheduledRun, RequestAction)> {
        match (self.phase, event) {
            (RequestPhase::Acquiring, RequestEvent::Acquired(Ok(_))) => Some(
                (self.at(RequestPhase::Executing), RequestAction::Execute),
            ),
            (RequestPhase::Acquiring, RequestEvent::Acquired(Err(error))) => Some(
                (self.at(RequestPhase::Done), RequestAction::Reject(error)),
            ),
            (RequestPhase::Executing, RequestEvent::Executed(outcome)) => Some(
                (
                    self.at(RequestPhase::Completing),
                    RequestAction::Complete(completion_of(self.metadata, outcome)),
                ),
            ),
            (RequestPhase::Completing, RequestEvent::Completed) => Some(
                (self.at(RequestPhase::Done), RequestAction::Return),
            ),
            _ => None,
        }
    }

    /// Takes in what happened and says what to do. An event that does not
    /// belong to the phase is answered with `None` and changes nothing.
    pub fn step(&mut self, event: RequestEvent) -> (r: Option<RequestAction>)
        ensures
            match old(self).next(event) {
                Some((after, action)) => *final(self) == after && r == Some(action),
                None => *final(self) == *old(self) && r is None,
            },
    {
        match (self.phase, event) {
            (RequestPhase::Acquiring, RequestEvent::Acquired(Ok(_))) => {
                self.phase = RequestPhase::Executing;
                Some(RequestAction::Execute)
            },
            (RequestPhase::Acquiring, RequestEvent::Acquired(Err(error))) => {
                self.phase = RequestPhase::Done;
                Some(RequestAction::Reject(error))
            },
            (RequestPhase::Executing, RequestEvent::Executed(outcome)) => {
                self.phase = RequestPhase::Completing;
                let completion = match outcome {
                    RequestOutcome::Success => OutboundCompletion::Success,
                    RequestOutcome::RetryAfter(duration) => OutboundCompletion::RetryAfter {
                        scope: retry_after_scope(&self.metadata, &outcome),
                        duration,
                    },
                    RequestOutcome::Failed => OutboundCompletion::Failed,
                };
                Some(RequestAction::Complete(completion))
            },
            (RequestPhase::Completing, RequestEvent::Completed) => {
                self.phase = RequestPhase::Done;
                Some(RequestAction::Return)
            },
            _ => None,
        }
    }
}

// ---------- laws ----------

/// Overrides never move a request to another scope.
pub proof fn law_scope_follows_the_payload(hint: OutboundHint, overrides: OutboundOverrides)
    ensures
        metadata_of(hint, overrides).scope == hint.scope,
        metadata_of(
            hint,
            OutboundOverrides { class: None, priority: None, weight: None },
        ) == (OutboundMetadata {
            scope: hint.scope,
            class: hint.class,
            priority: hint.priority,
            weight: hint.weight,
        }),
{
}

/// How many steps a scheduled request still takes at most.
pub open spec fn steps_left(phase: RequestPhase) -> nat {
    match phase {
        RequestPhase::Acquiring => 3,
        RequestPhase::Executing => 2,
        RequestPhase::Completing => 1,
        RequestPhase::Done => 0,
    }
}

/// The inner request is performed only after the grant and at most once,
/// whatever its outcome: there is no retry. A permit that was granted is
/// completed exactly once, before the outcome is returned, and a request
/// that was rejected is never performed.
pub proof fn law_request_runs_once_after_the_grant(run: ScheduledRun, event: RequestEvent)
    ensures
        run.next(event) matches Some((after, action)) ==> {
            &&& steps_left(after.phase) < steps_left(run.phase)
            &&& after.metadata == run.metadata
            &&& (action is Execute <==> run.phase is Acquiring && event
                == RequestEvent::Acquired(Ok::<(), OutboundAcquireError>(())))
            &&& (action is Complete <==> run.phase is Executing)
            &&& (action is Return <==> run.phase is Completing)
            &&& (action is Reject ==> run.phase is Acquiring && after.phase is Done)
        },
{
    match (run.phase, event) {
        (RequestPhase::Acquiring, RequestEvent::Acquired(Ok(u))) => {
            assert(u == ());
        },
        _ => {},
    }
}

/// What a request overrides is used, and what it does not stays as its payload
/// says: class, priority and weight each for itself. The scope cannot be
/// overridden.
pub proof fn law_overrides_win_one_by_one(
    hint: OutboundHint,
    view: HintView,
    overrides: OutboundOverrides,
)
    ensures
        ({
            let told = metadata_of(hint, overrides);
            &&& told.scope == hint.scope
            &&& overrides.class matches Some(class) ==> told.class == class
            &&& overrides.class is None ==> told.class == hint.class
            &&& overrides.priority matches Some(priority) ==> told.priority == priority
            &&& overrides.priority is None ==> told.priority == hint.priority
            &&& overrides.weight matches Some(weight) ==> told.weight == weight
            &&& overrides.weight is None ==> told.weight == hint.weight
        }),
        ({
            let told = overridden(view, overrides);
            &&& told.scope == view.scope
            &&& overrides.class matches Some(class) ==> told.class == class.value
            &&& overrides.class is None ==> told.class == view.class
            &&& overrides.priority matches Some(priority) ==> told.priority == priority.value
            &&& overrides.priority is None ==> told.priority == view.priority
            &&& overrides.weight matches Some(weight) ==> told.weight == weight@
            &&& overrides.weight is None ==> told.weight == view.weight
        }),
{
}

/// The steps of a scheduled request, and what its outcome does to the queue: a
/// grant leads to performing it and a rejection ends it with the reason; once
/// it was performed its permit is completed as it ended, and where the remote
/// side asks to wait, the request's own scope is closed for just that long;
/// then its result is returned.
pub proof fn law_the_outcome_completes_the_permit(
    run: ScheduledRun,
    outcome: RequestOutcome,
    error: OutboundAcquireError,
)
    ensures
        run.phase is Acquiring ==> (run.next(RequestEvent::Acquired(Ok(()))) matches Some(
            (after, action),
        ) && after.phase is Executing && action is Execute),
        run.phase is Acquiring ==> (run.next(RequestEvent::Acquired(Err(error))) matches Some(
            (after, action),
        ) && after.phase is Done && action == RequestAction::Reject(error)),
        run.phase is Executing ==> (run.next(RequestEvent::Executed(outcome)) matches Some(
            (after, RequestAction::Complete(completion)),
        ) && after.phase is Completing && match outcome {
            RequestOutcome::Success => completion is Success,
            RequestOutcome::Failed => completion is Failed,
            RequestOutcome::RetryAfter(duration) => completion == (OutboundCompletion::RetryAfter {
                scope: run.metadata.scope,
                duration,
            }),
        }),
        run.phase is Completing ==> (run.next(RequestEvent::Completed) matches Some(
            (after, action),
        ) && after.phase is Done && action is Return),
{
}

} // verus!
