//! What a worker decides while it delivers claimed records.
//!
//! A delivery is a state machine: it takes what just happened and says what
//! to do next. Whoever runs it performs the step, renewing the lease in the
//! meantime, and reports back.

use super::records::{
    ClaimedOutboxRequest, OutboxAttemptStart, OutboxExecutionError, OutboxFailure,
    OutboxFailureKind, OutboxId, OutboxLease, OutboxRetry, OutboxWorkerError, OutboxWorkerId,
};
use crate::time::{Duration, SystemTime};
use crate::types::{
    NonZeroU32, OutboundAcquireError, OutboundCompletion, OutboundCorrelationId, OutboundLaneKey,
    OutboundMetadata,
};
use vstd::arithmetic::power2;
use vstd::prelude::*;

verus! {

/// Runtime policy for a bounded outbox worker.
#[derive(Clone, Copy, Debug, PartialEq, Eq, Structural)]
pub struct OutboxWorkerSettings {
    pub worker: OutboxWorkerId,
    pub max_in_flight: usize,
    pub lease_for: Duration,
    pub poll_interval: Duration,
    pub scheduler_retry_delay: Duration,
    pub transient_backoff_base: Duration,
    pub transient_backoff_max: Duration,
    /// Optional runtime ordering lane. The lane is not persisted; it is a
    /// worker-local execution policy layered over durable metadata.
    pub lane: Option<OutboundLaneKey>,
}

impl Default for OutboxWorkerSettings {
    fn default() -> (r: Self)
        ensures
            r.worker.value == 1,
            r.max_in_flight == 8,
            r.lease_for.nanos == 60_000_000_000,
            r.poll_interval.nanos == 1_000_000_000,
            r.scheduler_retry_delay.nanos == 1_000_000_000,
            r.transient_backoff_base.nanos == 1_000_000_000,
            r.transient_backoff_max.nanos == 60_000_000_000,
            r.lane is None,
    {
        OutboxWorkerSettings {
            worker: OutboxWorkerId { value: 1 },
            max_in_flight: 8,
            lease_for: Duration::from_secs(60),
            poll_interval: Duration::from_secs(1),
            scheduler_retry_delay: Duration::from_secs(1),
            transient_backoff_base: Duration::from_secs(1),
            transient_backoff_max: Duration::from_secs(60),
            lane: None,
        }
    }
}

// ---------- leases ----------

/// One millisecond: a lease is not renewed more often than that.
pub const SHORTEST_RENEWAL_NANOS: u64 = 1_000_000;

/// How often a lease is renewed: three times while it lasts.
pub open spec fn renewal_period(lease_for: Duration) -> Duration {
    if lease_for.nanos / 3 > SHORTEST_RENEWAL_NANOS {
        Duration { nanos: lease_for.nanos / 3 }
    } else {
        Duration { nanos: SHORTEST_RENEWAL_NANOS }
    }
}

/// How often a lease is renewed.
pub fn renew_period(lease_for: Duration) -> (r: Duration)
    ensures
        r == renewal_period(lease_for),
{
    let third: u64 = lease_for.nanos / 3;
    if third > SHORTEST_RENEWAL_NANOS {
        Duration { nanos: third }
    } else {
        Duration { nanos: SHORTEST_RENEWAL_NANOS }
    }
}

// ---------- retries ----------

/// The delay before a transient failure of attempt `attempt` is retried: the
/// base doubled once for every attempt before it, at most the maximum.
pub open spec fn backoff_nanos(base: u64, max: u64, attempt: u32) -> int {
    let doublings: nat = if attempt > 1 {
        (attempt - 1) as nat
    } else {
        0
    };
    let delay = base * power2::pow2(doublings);
    if delay < max {
        delay
    } else {
        max as int
    }
}

proof fn lemma_more_doublings(base: u64, a: nat, b: nat)
    requires
        a <= b,
    ensures
        base * power2::pow2(a) <= base * power2::pow2(b),
{
    let x = power2::pow2(a) as int;
    let y = power2::pow2(b) as int;
    if a < b {
        power2::lemma_pow2_strictly_increases(a, b);
    }
    assert(base * x <= base * y) by (nonlinear_arith)
        requires
            x <= y,
            base >= 0,
    ;
}

impl OutboxWorkerSettings {
    /// The delay before a transient failure of attempt `attempt` is retried.
    pub fn transient_backoff(&self, attempt: u32) -> (r: Duration)
        ensures
            r.nanos == backoff_nanos(
                self.transient_backoff_base.nanos,
                self.transient_backoff_max.nanos,
                attempt,
            ),
    {
        let base: u64 = self.transient_backoff_base.nanos;
        let max: u64 = self.transient_backoff_max.nanos;
        let mut delay: u64 = base;
        let mut i: u32 = 1;
        proof {
            power2::lemma2_to64();
            assert(base * 1 == base);
        }
        while i < attempt
            invariant
                1 <= i,
                i <= attempt || attempt == 0 && i == 1,
                delay == base * power2::pow2((i - 1) as nat),
                base == self.transient_backoff_base.nanos,
                max == self.transient_backoff_max.nanos,
            decreases attempt - i,
        {
            proof {
                power2::lemma_pow2_unfold(i as nat);
                let p = power2::pow2((i - 1) as nat) as int;
                assert(base * (2 * p) == 2 * (base * p)) by (nonlinear_arith);
                lemma_more_doublings(base, i as nat, (attempt - 1) as nat);
            }
            match delay.checked_mul(2) {
                Some(doubled) => {
                    if doubled >= max {
                        return Duration { nanos: max };
                    }
                    delay = doubled;
                },
                None => {
                    return Duration { nanos: max };
                },
            }
            i = i + 1;
        }
        if delay < max {
            Duration { nanos: delay }
        } else {
            Duration { nanos: max }
        }
    }
}

/// What is stored at the end of a delivery.
#[derive(Clone, Copy, Debug, PartialEq, Eq, Structural)]
pub enum StoreAction {
    Complete,
    Fail(OutboxFailure),
    Reschedule(OutboxRetry),
}

/// A failure that is retried while attempts are left: else the record fails
/// as exhausted.
pub open spec fn retry_action(
    attempt: u32,
    max_attempts: u32,
    failure: OutboxFailure,
    delay: Duration,
    now: SystemTime,
) -> StoreAction {
    if attempt >= max_attempts {
        StoreAction::Fail(OutboxFailure { kind: OutboxFailureKind::Exhausted })
    } else {
        StoreAction::Reschedule(OutboxRetry { available_at: now.plus_or_self(delay), failure })
    }
}

/// Decides what becomes of a failure that may be retried.
pub fn retry_or_fail(
    attempt: u32,
    max_attempts: u32,
    failure: OutboxFailure,
    delay: Duration,
    now: SystemTime,
) -> (r: StoreAction)
    ensures
        r == retry_action(attempt, max_attempts, failure, delay, now),
{
    if attempt >= max_attempts {
        return StoreAction::Fail(OutboxFailure { kind: OutboxFailureKind::Exhausted });
    }
    StoreAction::Reschedule(OutboxRetry { available_at: now.plus_or_self(delay), failure })
}

// ---------- one delivery ----------

/// What is settled once the permit has been given back.
#[derive(Clone, Copy, Debug, PartialEq, Eq, Structural)]
pub enum Settlement {
    Complete,
    Fail(OutboxFailure),
    Retry { attempt: u32, failure: OutboxFailure, delay: Duration },
}

/// How far a delivery has come.
#[derive(Clone, Copy, Debug, PartialEq, Eq, Structural)]
pub enum DeliveryPhase {
    /// Waiting for a permit of the scheduler.
    Acquiring,
    /// Holding a permit, before the attempt is counted.
    Beginning,
    /// The request is being performed.
    Executing { attempt: u32 },
    /// The permit is being given back.
    Settling(Settlement),
    /// The outcome is being stored.
    Storing,
    Done,
}

/// What happened.
#[derive(Clone, Copy, Debug, PartialEq, Eq)]
pub enum DeliveryEvent {
    Acquired(Result<(), OutboundAcquireError>),
    Began(OutboxAttemptStart),
    Executed(Result<(), OutboxExecutionError>),
    PermitCompleted,
    Stored,
}

/// What to do next.
#[derive(Clone, Copy, Debug, PartialEq, Eq, Structural)]
pub enum DeliveryAction {
    /// Ask the scheduler for a permit.
    Acquire {
        metadata: OutboundMetadata,
        correlation_id: OutboundCorrelationId,
        lane: Option<OutboundLaneKey>,
    },
    /// Count the attempt in the store.
    BeginAttempt,
    /// Start the permit and perform the request.
    Execute { attempt: u32 },
    /// Give the permit back.
    CompletePermit(OutboundCompletion),
    /// Store the outcome.
    Store(StoreAction),
    Finish,
}

/// The delivery of one claimed record.
#[derive(Clone, Copy, Debug, PartialEq, Eq, Structural)]
pub struct Delivery {
    pub id: OutboxId,
    /// Attempts that had started when the record was claimed.
    pub attempt_before_start: u32,
    pub max_attempts: NonZeroU32,
    pub metadata: OutboundMetadata,
    /// The lease as it was last renewed.
    pub lease: OutboxLease,
    pub phase: DeliveryPhase,
}

/// What a refused permit leads to.
pub open spec fn refused_permit(
    d: Delivery,
    error: OutboundAcquireError,
    settings: OutboxWorkerSettings,
    now: SystemTime,
) -> StoreAction {
    match error {
        OutboundAcquireError::QueueFull | OutboundAcquireError::Closed
        | OutboundAcquireError::Superseded => retry_action(
            d.attempt_before_start,
            d.max_attempts@,
            OutboxFailure { kind: OutboxFailureKind::SchedulerUnavailable },
            settings.scheduler_retry_delay,
            now,
        ),
        OutboundAcquireError::WeightExceedsWindow { .. }
        | OutboundAcquireError::IncompatibleCoalesceMetadata => StoreAction::Fail(
            OutboxFailure { kind: OutboxFailureKind::Permanent },
        ),
    }
}

/// How the permit of an execution is completed.
pub open spec fn completion_of(result: Result<(), OutboxExecutionError>) -> OutboundCompletion {
    match result {
        Ok(_) => OutboundCompletion::Success,
        Err(OutboxExecutionError::RetryAfter { scope, duration }) =>
            OutboundCompletion::RetryAfter { scope, duration },
        Err(OutboxExecutionError::Transient) => OutboundCompletion::Failed,
        Err(OutboxExecutionError::Permanent) => OutboundCompletion::Failed,
    }
}

/// What an execution leads to.
pub open spec fn settlement_of(
    attempt: u32,
    result: Result<(), OutboxExecutionError>,
    settings: OutboxWorkerSettings,
) -> Settlement {
    match result {
        Ok(_) => Settlement::Complete,
        Err(OutboxExecutionError::RetryAfter { scope, duration }) => Settlement::Retry {
            attempt,
            failure: OutboxFailure { kind: OutboxFailureKind::RetryAfter },
            delay: duration,
        },
        Err(OutboxExecutionError::Transient) => Settlement::Retry {
            attempt,
            failure: OutboxFailure { kind: OutboxFailureKind::Transient },
            delay: Duration {
                nanos: backoff_nanos(
                    settings.transient_backoff_base.nanos,
                    settings.transient_backoff_max.nanos,
                    attempt,
                ) as u64,
            },
        },
        Err(OutboxExecutionError::Permanent) => Settlement::Fail(
            OutboxFailure { kind: OutboxFailureKind::Permanent },
        ),
    }
}

/// What is stored for a settlement.
pub open spec fn settled(d: Delivery, settlement: Settlement, now: SystemTime) -> StoreAction {
    match settlement {
        Settlement::Complete => StoreAction::Complete,
        Settlement::Fail(failure) => StoreAction::Fail(failure),
        Settlement::Retry { attempt, failure, delay } => retry_action(
            attempt,
            d.max_attempts@,
            failure,
            delay,
            now,
        ),
    }
}

impl Delivery {
    pub open spec fn at(self, phase: DeliveryPhase) -> Delivery {
        Delivery { phase, ..self }
    }

    /// The next state and what to do, or `None` where the event does not
    /// belong to the phase.
    pub open spec fn next(
        self,
        event: DeliveryEvent,
        settings: OutboxWorkerSettings,
        now: SystemTime,
    ) -> Option<(Delivery, DeliveryAction)> {
        match (self.phase, event) {
            (DeliveryPhase::Acquiring, DeliveryEvent::Acquired(Ok(_))) => Some(
                (self.at(DeliveryPhase::Beginning), DeliveryAction::BeginAttempt),
            ),
            (DeliveryPhase::Acquiring, DeliveryEvent::Acquired(Err(error))) => Some(
                (
                    self.at(DeliveryPhase::Storing),
                    DeliveryAction::Store(refused_permit(self, error, settings, now)),
                ),
            ),
            (DeliveryPhase::Beginning, DeliveryEvent::Began(OutboxAttemptStart::Started { attempt }))
                => Some(
                (
                    self.at(DeliveryPhase::Executing { attempt }),
                    DeliveryAction::Execute { attempt },
                ),
            ),
            (DeliveryPhase::Beginning, DeliveryEvent::Began(OutboxAttemptStart::Exhausted)) => Some(
                (
                    self.at(
                        DeliveryPhase::Settling(
                            Settlement::Fail(
                                OutboxFailure { kind: OutboxFailureKind::Exhausted },
                            ),
                        ),
                    ),
                    DeliveryAction::CompletePermit(OutboundCompletion::NoRequest),
                ),
            ),
            (DeliveryPhase::Executing { attempt }, DeliveryEvent::Executed(result)) => Some(
                (
                    self.at(DeliveryPhase::Settling(settlement_of(attempt, result, settings))),
                    DeliveryAction::CompletePermit(completion_of(result)),
                ),
            ),
            (DeliveryPhase::Settling(settlement), DeliveryEvent::PermitCompleted) => Some(
                (
                    self.at(DeliveryPhase::Storing),
                    DeliveryAction::Store(settled(self, settlement, now)),
                ),
            ),
            (DeliveryPhase::Storing, DeliveryEvent::Stored) => Some(
                (self.at(DeliveryPhase::Done), DeliveryAction::Finish),
            ),
            _ => None,
        }
    }

    /// Begins the delivery of a claimed record by asking for a permit.
    pub fn start(request: &ClaimedOutboxRequest, settings: &OutboxWorkerSettings) -> (r: (
        Delivery,
        DeliveryAction,
    ))
        ensures
            r.0.id == request.id,
            r.0.attempt_before_start == request.attempt,
            r.0.max_attempts == request.max_attempts,
            r.0.metadata == request.metadata,
            r.0.lease == request.lease,
            r.0.phase is Acquiring,
            r.1 == (DeliveryAction::Acquire {
                metadata: request.metadata,
                correlation_id: OutboundCorrelationId { value: request.id.value },
                lane: settings.lane,
            }),
    {
        let delivery = Delivery {
            id: request.id,
            attempt_before_start: request.attempt,
            max_attempts: request.max_attempts,
            metadata: request.metadata,
            lease: request.lease,
            phase: DeliveryPhase::Acquiring,
        };
        let action = DeliveryAction::Acquire {
            metadata: request.metadata,
            correlation_id: OutboundCorrelationId::new(request.id.get()),
            lane: settings.lane,
        };
        (delivery, action)
    }

    /// Notes a renewed lease: everything stored from now on names it.
    pub fn renewed(&mut self, lease: OutboxLease)
        ensures
            *final(self) == (Delivery { lease, ..*old(self) }),
    {
        self.lease = lease;
    }

    /// Takes in what happened and says what to do. An event that does not
    /// belong to the phase is answered with `None` and changes nothing.
    pub fn step(
        &mut self,
        event: DeliveryEvent,
        settings: &OutboxWorkerSettings,
        now: SystemTime,
    ) -> (r: Option<DeliveryAction>)
        ensures
            match old(self).next(event, *settings, now) {
                Some((after, action)) => *final(self) == after && r == Some(action),
                None => *final(self) == *old(self) && r is None,
            },
    {
        match (self.phase, event) {
            (DeliveryPhase::Acquiring, DeliveryEvent::Acquired(Ok(_))) => {
                self.phase = DeliveryPhase::Beginning;
                Some(DeliveryAction::BeginAttempt)
            },
            (DeliveryPhase::Acquiring, DeliveryEvent::Acquired(Err(error))) => {
                let action = self.after_refusal(error, settings, now);
                self.phase = DeliveryPhase::Storing;
                Some(DeliveryAction::Store(action))
            },
            (
                DeliveryPhase::Beginning,
                DeliveryEvent::Began(OutboxAttemptStart::Started { attempt }),
            ) => {
                self.phase = DeliveryPhase::Executing { attempt };
                Some(DeliveryAction::Execute { attempt })
            },
            (DeliveryPhase::Beginning, DeliveryEvent::Began(OutboxAttemptStart::Exhausted)) => {
                self.phase = DeliveryPhase::Settling(
                    Settlement::Fail(OutboxFailure::new(OutboxFailureKind::Exhausted)),
                );
                Some(DeliveryAction::CompletePermit(OutboundCompletion::NoRequest))
            },
            (DeliveryPhase::Executing { attempt }, DeliveryEvent::Executed(result)) => {
                let (completion, settlement) = after_execution(attempt, result, settings);
                self.phase = DeliveryPhase::Settling(settlement);
                Some(DeliveryAction::CompletePermit(completion))
            },
            (DeliveryPhase::Settling(settlement), DeliveryEvent::PermitCompleted) => {
                let action = match settlement {
                    Settlement::Complete => StoreAction::Complete,
                    Settlement::Fail(failure) => StoreAction::Fail(failure),
                    Settlement::Retry { attempt, failure, delay } => retry_or_fail(
                        attempt,
                        self.max_attempts.get(),
                        failure,
                        delay,
                        now,
                    ),
                };
                self.phase = DeliveryPhase::Storing;
                Some(DeliveryAction::Store(action))
            },
            (DeliveryPhase::Storing, DeliveryEvent::Stored) => {
                self.phase = DeliveryPhase::Done;
                Some(DeliveryAction::Finish)
            },
            _ => None,
        }
    }

    /// What a refused permit leads to: an unavailable scheduler is retried
    /// without counting an attempt, a request it can never admit fails.
    fn after_refusal(
        &self,
        error: OutboundAcquireError,
        settings: &OutboxWorkerSettings,
        now: SystemTime,
    ) -> (r: StoreAction)
        ensures
            r == refused_permit(*self, error, *settings, now),
    {
        match error {
            OutboundAcquireError::QueueFull | OutboundAcquireError::Closed
            | OutboundAcquireError::Superseded => retry_or_fail(
                self.attempt_before_start,
                self.max_attempts.get(),
                OutboxFailure::new(OutboxFailureKind::SchedulerUnavailable),
                settings.scheduler_retry_delay,
                now,
            ),
            OutboundAcquireError::WeightExceedsWindow { .. }
            | OutboundAcquireError::IncompatibleCoalesceMetadata => StoreAction::Fail(
                OutboxFailure::new(OutboxFailureKind::Permanent),
            ),
        }
    }
}

/// How an execution ends the permit, and what it leads to.
fn after_execution(
    attempt: u32,
    result: Result<(), OutboxExecutionError>,
    settings: &OutboxWorkerSettings,
) -> (r: (OutboundCompletion, Settlement))
    ensures
        r.0 == completion_of(result),
        r.1 == settlement_of(attempt, result, *settings),
{
    match result {
        Ok(_) => (OutboundCompletion::Success, Settlement::Complete),
        Err(OutboxExecutionError::RetryAfter { scope, duration }) => (
            OutboundCompletion::RetryAfter { scope, duration },
            Settlement::Retry {
                attempt,
                failure: OutboxFailure::new(OutboxFailureKind::RetryAfter),
                delay: duration,
            },
        ),
        Err(OutboxExecutionError::Transient) => (
            OutboundCompletion::Failed,
            Settlement::Retry {
                attempt,
                failure: OutboxFailure::new(OutboxFailureKind::Transient),
                delay: settings.transient_backoff(attempt),
            },
        ),
        Err(OutboxExecutionError::Permanent) => (
            OutboundCompletion::Failed,
            Settlement::Fail(OutboxFailure::new(OutboxFailureKind::Permanent)),
        ),
    }
}

// ---------- one batch ----------

/// Whether a worker may claim: a lease has to last.
pub fn check_settings<E>(settings: &OutboxWorkerSettings) -> (r: Result<(), OutboxWorkerError<E>>)
    ensures
        r is Ok <==> settings.lease_for.nanos > 0,
        r is Err ==> r->Err_0 is InvalidLeaseDuration,
{
    if settings.lease_for.is_zero() {
        Err(OutboxWorkerError::InvalidLeaseDuration)
    } else {
        Ok(())
    }
}

/// The outcome of a batch whose deliveries ended one after the other with
/// `results`: the first error, or how many were processed.
pub fn batch_outcome<E>(results: Vec<Result<(), OutboxWorkerError<E>>>) -> (r: Result<
    usize,
    OutboxWorkerError<E>,
>)
    ensures
        r is Ok <==> forall|i: int| 0 <= i < results.len() ==> (#[trigger] results@[i]) is Ok,
        r matches Ok(n) ==> n == results.len(),
        r matches Err(error) ==> exists|i: int|
            0 <= i < results.len() && (#[trigger] results@[i]) == Err::<(), OutboxWorkerError<E>>(
                error,
            ) && forall|j: int| 0 <= j < i ==> (#[trigger] results@[j]) is Ok,
{
    let count: usize = results.len();
    let ghost all = results@;
    let mut rest = results;
    let mut first: Option<OutboxWorkerError<E>> = None;
    while rest.len() > 0
        invariant
            rest.len() <= all.len(),
            rest@ == all.take(rest.len() as int),
            first is None <==> forall|i: int|
                rest.len() <= i < all.len() ==> (#[trigger] all[i]) is Ok,
            first matches Some(error) ==> exists|i: int|
                rest.len() <= i < all.len() && (#[trigger] all[i]) == Err::<
                    (),
                    OutboxWorkerError<E>,
                >(error) && forall|j: int| rest.len() <= j < i ==> (#[trigger] all[j]) is Ok,
        decreases rest.len(),
    {
        let ghost n = rest.len();
        let last = rest.pop();
        assert(rest@ =~= all.take(rest.len() as int));
        assert(last == Some(all[n - 1]));
        match last {
            Some(Err(error)) => {
                assert(all[n - 1] == Err::<(), OutboxWorkerError<E>>(error));
                first = Some(error);
            },
            _ => {
                assert(all[n - 1] is Ok);
            },
        }
    }
    match first {
        Some(error) => Err(error),
        None => Ok(count),
    }
}

} // verus!
