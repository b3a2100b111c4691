//! The durable outbox: its store, its worker and its deliveries.

use outbound::outbox::records::{
    ClaimedOutboxRequest, InMemoryOutboxError, NewOutboxRequest, OutboxAttemptStart,
    OutboxEnqueueResult, OutboxExecutionError, OutboxFailure, OutboxFailureKind, OutboxId,
    OutboxLease, OutboxRetry, OutboxStatus, OutboxWorkerError, OutboxWorkerId,
};
use outbound::outbox::store::InMemoryOutboxStore;
use outbound::outbox::worker::{
    batch_outcome, check_settings, renew_period, retry_or_fail, Delivery, DeliveryAction,
    DeliveryEvent, OutboxWorkerSettings, StoreAction,
};
use outbound::queue::actor::{OutboundActor, QueueCommand, QueueReply};
use outbound::queue::client::PermitState;
use outbound::time::{Duration, Instant, SystemTime};
use outbound::types::{
    AgingPolicy, JobId, NonZeroU32, OutboundAcquireError, OutboundClass, OutboundCompletion,
    OutboundCorrelationId, OutboundEnqueueMode, OutboundLaneKey, OutboundLaneMode, OutboundLimits,
    OutboundMetadata, OutboundPriority, OutboundScope, OutboundSettings, WindowLimit,
};

fn metadata() -> OutboundMetadata {
    OutboundMetadata {
        scope: OutboundScope::Global,
        class: OutboundClass::new(1),
        priority: OutboundPriority::normal(),
        weight: NonZeroU32::new(1).unwrap(),
    }
}

fn day() -> SystemTime {
    SystemTime::from_nanos(86_400_000_000_000)
}

fn after(at: SystemTime, span: Duration) -> SystemTime {
    SystemTime::from_nanos(at.nanos + span.nanos)
}

fn request(key: &str) -> NewOutboxRequest {
    NewOutboxRequest::new(key.to_string(), vec![1, 2, 3], metadata(), day())
        .with_available_at(SystemTime::unix_epoch())
        .with_max_attempts(NonZeroU32::new(3).unwrap())
}

fn queue_of(capacity: usize, per_window: u32, window: Duration) -> OutboundActor {
    OutboundActor::new(OutboundSettings {
        queue_capacity: capacity,
        limits: OutboundLimits {
            global: vec![WindowLimit::new(per_window, window)],
            chat: Vec::new(),
        },
        aging: AgingPolicy { quantum: Duration::from_secs(1), max_boost: u8::MAX },
    })
    .unwrap()
}

fn queue() -> OutboundActor {
    queue_of(32, 100, Duration::from_secs(60))
}

fn insert(store: &mut InMemoryOutboxStore, request: NewOutboxRequest) -> OutboxId {
    match store.enqueue(request).unwrap() {
        OutboxEnqueueResult::Inserted(id) => id,
        OutboxEnqueueResult::Existing(_) => unreachable!(),
    }
}

fn claim(
    store: &mut InMemoryOutboxStore,
    worker: u64,
    now: SystemTime,
    lease_for: Duration,
) -> ClaimedOutboxRequest {
    store.claim_due(OutboxWorkerId::new(worker), now, lease_for, 1).unwrap().pop().unwrap()
}

/// Asks the queue for a permit and waits for the grant of the same moment.
fn acquire(
    actor: &mut OutboundActor,
    metadata: OutboundMetadata,
    now: Instant,
) -> Result<JobId, OutboundAcquireError> {
    let command = QueueCommand::Enqueue {
        metadata,
        lane: None,
        mode: OutboundEnqueueMode::Fifo,
    };
    match actor.handle_command(command, now) {
        QueueReply::Enqueued { job, .. } => {
            actor.handle_command(QueueCommand::ReplyTaken { job_id: job }, now);
            let (delivered, _) = actor.run_admission(now);
            assert!(delivered.iter().any(|grant| grant.job == job));
            Ok(job)
        }
        QueueReply::Refused(error) => Err(OutboundAcquireError::from(error)),
        other => panic!("unexpected reply {other:?}"),
    }
}

/// Carries a delivery through, against a queue that may be gone.
fn deliver(
    store: &mut InMemoryOutboxStore,
    mut actor: Option<&mut OutboundActor>,
    claimed: &ClaimedOutboxRequest,
    settings: &OutboxWorkerSettings,
    outcome: Result<(), OutboxExecutionError>,
    now: SystemTime,
) -> Result<(), InMemoryOutboxError> {
    let clock = Instant::from_nanos(now.nanos);
    let mut permit: Option<JobId> = None;
    let (mut delivery, mut action) = Delivery::start(claimed, settings);
    loop {
        let event = match action {
            DeliveryAction::Acquire { metadata, .. } => {
                let acquired = match actor.as_deref_mut() {
                    Some(actor) => acquire(actor, metadata, clock),
                    None => Err(OutboundAcquireError::Closed),
                };
                DeliveryEvent::Acquired(acquired.map(|job| {
                    permit = Some(job);
                }))
            }
            DeliveryAction::BeginAttempt => {
                DeliveryEvent::Began(store.begin_attempt(delivery.id, delivery.lease, now)?)
            }
            DeliveryAction::Execute { .. } => {
                assert!(permit.is_some());
                DeliveryEvent::Executed(outcome)
            }
            DeliveryAction::CompletePermit(outcome) => {
                let job_id = permit.take().unwrap();
                let command = QueueCommand::Complete { job_id, outcome };
                actor.as_deref_mut().unwrap().handle_command(command, clock);
                DeliveryEvent::PermitCompleted
            }
            DeliveryAction::Store(what) => {
                match what {
                    StoreAction::Complete => store.complete(delivery.id, delivery.lease, now, now)?,
                    StoreAction::Fail(failure) => {
                        store.fail(delivery.id, delivery.lease, failure, now)?
                    }
                    StoreAction::Reschedule(retry) => {
                        store.reschedule(delivery.id, delivery.lease, retry, now)?
                    }
                }
                DeliveryEvent::Stored
            }
            DeliveryAction::Finish => return Ok(()),
        };
        action = delivery.step(event, settings, now).unwrap();
    }
}

#[test]
fn dedup_same_key_and_reject_conflict() {
    let mut store = InMemoryOutboxStore::new();
    let first = store.enqueue(request("same")).unwrap();
    assert!(matches!(first, OutboxEnqueueResult::Inserted(_)));
    let second = store.enqueue(request("same")).unwrap();
    assert_eq!(
        second,
        OutboxEnqueueResult::Existing(match first {
            OutboxEnqueueResult::Inserted(id) => id,
            OutboxEnqueueResult::Existing(id) => id,
        })
    );
    let other = NewOutboxRequest::new("same".to_string(), vec![9], metadata(), day());
    assert!(matches!(store.enqueue(other), Err(InMemoryOutboxError::Conflict { .. })));
    assert_eq!(store.pending_count(), Ok(1));
}

#[test]
fn lease_fencing_and_expired_lease_reclaim() {
    let mut store = InMemoryOutboxStore::new();
    let id = insert(&mut store, request("lease"));
    let now = day();
    let first = claim(&mut store, 1, now, Duration::from_secs(1));
    let stale = store.complete(
        id,
        OutboxLease { until: SystemTime::unix_epoch(), ..first.lease },
        SystemTime::unix_epoch(),
        now,
    );
    assert!(matches!(stale, Err(InMemoryOutboxError::LeaseMismatch { .. })));
    let later = after(now, Duration::from_secs(2));
    let second = claim(&mut store, 2, later, Duration::from_secs(30));
    assert_ne!(first.lease.token, second.lease.token);
    store.complete(id, second.lease, later, later).unwrap();
    assert_eq!(store.get(id).unwrap().unwrap().status, OutboxStatus::Completed);
}

#[test]
fn expired_lease_before_begin_attempt_does_not_consume_delivery_attempt() {
    let mut store = InMemoryOutboxStore::new();
    let id = insert(&mut store, request("expired-before-attempt"));
    let claimed = claim(&mut store, 1, day(), Duration::from_millis(1));
    let later = after(day(), Duration::from_millis(10));
    let result = store.begin_attempt(id, claimed.lease, later);
    assert!(matches!(result, Err(InMemoryOutboxError::LeaseMismatch { .. })));
    let snapshot = store.get(id).unwrap().unwrap();
    assert_eq!(snapshot.attempt, 0);
    assert_eq!(snapshot.claim_count, 1);
}

#[test]
fn scheduler_permit_is_acquired_before_executor_and_success_completes() {
    let mut store = InMemoryOutboxStore::new();
    let id = insert(&mut store, request("success"));
    let mut actor = queue();
    let settings = OutboxWorkerSettings::default();
    let claimed = claim(&mut store, 1, day(), settings.lease_for);
    deliver(&mut store, Some(&mut actor), &claimed, &settings, Ok(()), day()).unwrap();
    let snapshot = store.get(id).unwrap().unwrap();
    assert_eq!(snapshot.status, OutboxStatus::Completed);
    assert_eq!(snapshot.attempt, 1);
    assert_eq!(actor.scheduler.snapshot().in_flight, 0);
}

#[test]
fn retry_after_penalizes_scheduler_and_reschedules() {
    let mut store = InMemoryOutboxStore::new();
    let id = insert(&mut store, request("retry-after"));
    let mut actor = queue();
    let settings = OutboxWorkerSettings::default();
    let claimed = claim(&mut store, 1, day(), settings.lease_for);
    let outcome = Err(OutboxExecutionError::RetryAfter {
        scope: OutboundScope::Global,
        duration: Duration::from_secs(30),
    });
    deliver(&mut store, Some(&mut actor), &claimed, &settings, outcome, day()).unwrap();
    let snapshot = store.get(id).unwrap().unwrap();
    assert_eq!(snapshot.status, OutboxStatus::Pending);
    assert_eq!(snapshot.last_failure, Some(OutboxFailureKind::RetryAfter));
    assert_eq!(snapshot.available_at, after(day(), Duration::from_secs(30)));
    let closed = Instant::from_nanos(after(day(), Duration::from_secs(30)).nanos);
    assert_eq!(actor.scheduler.penalties.get(OutboundScope::Global), Some(closed));
}

#[test]
fn transient_retry_is_capped_and_exhaustion_is_terminal() {
    let mut store = InMemoryOutboxStore::new();
    let id = insert(
        &mut store,
        request("transient").with_max_attempts(NonZeroU32::new(2).unwrap()),
    );
    let mut actor = queue();
    let settings = OutboxWorkerSettings {
        transient_backoff_base: Duration::zero(),
        transient_backoff_max: Duration::from_secs(1),
        ..OutboxWorkerSettings::default()
    };
    for _ in 0..2 {
        let claimed = claim(&mut store, 1, day(), settings.lease_for);
        let outcome = Err(OutboxExecutionError::Transient);
        deliver(&mut store, Some(&mut actor), &claimed, &settings, outcome, day()).unwrap();
    }
    assert_eq!(
        store.get(id).unwrap().unwrap().status,
        OutboxStatus::Failed(OutboxFailureKind::Exhausted)
    );
    assert!(store
        .claim_due(OutboxWorkerId::new(1), day(), settings.lease_for, 1)
        .unwrap()
        .is_empty());
}

#[test]
fn queue_closed_preserves_durable_record() {
    let mut store = InMemoryOutboxStore::new();
    let id = insert(&mut store, request("closed"));
    let settings = OutboxWorkerSettings {
        scheduler_retry_delay: Duration::zero(),
        ..OutboxWorkerSettings::default()
    };
    let claimed = claim(&mut store, 1, day(), settings.lease_for);
    deliver(&mut store, None, &claimed, &settings, Ok(()), day()).unwrap();
    let snapshot = store.get(id).unwrap().unwrap();
    assert_eq!(snapshot.status, OutboxStatus::Pending);
    assert_eq!(snapshot.attempt, 0);
    assert_eq!(snapshot.claim_count, 1);
}

#[test]
fn scheduler_queue_full_does_not_consume_delivery_attempt() {
    let mut actor = queue_of(1, 1, Duration::from_secs(1));
    let clock = Instant::from_nanos(day().nanos);
    let holder = acquire(&mut actor, metadata(), clock).unwrap();
    let blocked = QueueCommand::Enqueue {
        metadata: metadata(),
        lane: None,
        mode: OutboundEnqueueMode::Fifo,
    };
    assert!(matches!(actor.handle_command(blocked, clock), QueueReply::Enqueued { .. }));
    assert!(actor.run_admission(clock).0.is_empty());

    let mut store = InMemoryOutboxStore::new();
    let id = insert(
        &mut store,
        request("queue-full").with_max_attempts(NonZeroU32::new(1).unwrap()),
    );
    let settings = OutboxWorkerSettings {
        scheduler_retry_delay: Duration::zero(),
        ..OutboxWorkerSettings::default()
    };
    let claimed = claim(&mut store, 1, day(), settings.lease_for);
    deliver(&mut store, Some(&mut actor), &claimed, &settings, Ok(()), day()).unwrap();

    let snapshot = store.get(id).unwrap().unwrap();
    assert_eq!(snapshot.status, OutboxStatus::Pending);
    assert_eq!(snapshot.attempt, 0);
    assert_eq!(snapshot.claim_count, 1);
    let done = QueueCommand::Complete { job_id: holder, outcome: OutboundCompletion::Success };
    actor.handle_command(done, clock);
}

#[test]
fn failed_store_completion_leaves_claim_for_replay_after_lease() {
    let mut store = InMemoryOutboxStore::new();
    let id = insert(&mut store, request("at-least-once"));
    store.fail_next_complete().unwrap();
    let mut actor = queue();
    let settings = OutboxWorkerSettings {
        lease_for: Duration::from_secs(1),
        ..OutboxWorkerSettings::default()
    };
    let claimed = claim(&mut store, 1, day(), settings.lease_for);
    let result = deliver(&mut store, Some(&mut actor), &claimed, &settings, Ok(()), day());
    assert_eq!(result, Err(InMemoryOutboxError::InjectedFailure));
    assert_eq!(store.get(id).unwrap().unwrap().status, OutboxStatus::Claimed);
    // the lease runs out and the record is delivered again
    let later = after(day(), Duration::from_secs(1));
    let again = claim(&mut store, 2, later, settings.lease_for);
    assert_eq!(again.id, id);
    assert_eq!(again.attempt, 1);
    assert_eq!(again.claim_count, 2);
}

#[test]
fn a_permanent_failure_is_final() {
    let mut store = InMemoryOutboxStore::new();
    let id = insert(&mut store, request("permanent"));
    let mut actor = queue();
    let settings = OutboxWorkerSettings::default();
    let claimed = claim(&mut store, 1, day(), settings.lease_for);
    let outcome = Err(OutboxExecutionError::Permanent);
    deliver(&mut store, Some(&mut actor), &claimed, &settings, outcome, day()).unwrap();
    let snapshot = store.get(id).unwrap().unwrap();
    assert_eq!(snapshot.status, OutboxStatus::Failed(OutboxFailureKind::Permanent));
    assert_eq!(snapshot.last_failure, Some(OutboxFailureKind::Permanent));
}

#[test]
fn a_renewed_lease_keeps_owner_and_token() {
    let mut store = InMemoryOutboxStore::new();
    let id = insert(&mut store, request("renew"));
    let claimed = claim(&mut store, 7, day(), Duration::from_secs(1));
    let until = after(day(), Duration::from_secs(9));
    let renewed = store.renew_lease(id, claimed.lease, until, day()).unwrap();
    assert_eq!(renewed, OutboxLease { until, ..claimed.lease });
    // the old form of the lease no longer counts
    assert_eq!(
        store.begin_attempt(id, claimed.lease, day()),
        Err(InMemoryOutboxError::LeaseMismatch { id })
    );
    assert_eq!(
        store.begin_attempt(id, renewed, day()),
        Ok(OutboxAttemptStart::Started { attempt: 1 })
    );
}

#[test]
fn attempts_run_out() {
    let mut store = InMemoryOutboxStore::new();
    let id = insert(&mut store, request("once").with_max_attempts(NonZeroU32::new(1).unwrap()));
    let claimed = claim(&mut store, 1, day(), Duration::from_secs(60));
    assert_eq!(
        store.begin_attempt(id, claimed.lease, day()),
        Ok(OutboxAttemptStart::Started { attempt: 1 })
    );
    assert_eq!(
        store.begin_attempt(id, claimed.lease, day()),
        Ok(OutboxAttemptStart::Exhausted)
    );
}

#[test]
fn claims_respect_the_limit_the_order_and_the_moment() {
    let mut store = InMemoryOutboxStore::new();
    let late = insert(
        &mut store,
        request("late").with_available_at(after(day(), Duration::from_secs(5))),
    );
    let first = insert(&mut store, request("first"));
    let second = insert(&mut store, request("second"));
    let worker = OutboxWorkerId::new(1);
    let lease = Duration::from_secs(60);
    let claimed = store.claim_due(worker, day(), lease, 5).unwrap();
    let ids: Vec<OutboxId> = claimed.iter().map(|claim| claim.id).collect();
    assert_eq!(ids, vec![first, second]);
    assert!(claimed[0].lease.token != claimed[1].lease.token);
    let later = after(day(), Duration::from_secs(5));
    let claimed = store.claim_due(worker, later, lease, 1).unwrap();
    assert_eq!(claimed[0].id, late);
}

#[test]
fn a_rescheduled_record_waits_for_its_moment() {
    let mut store = InMemoryOutboxStore::new();
    let id = insert(&mut store, request("again"));
    let claimed = claim(&mut store, 1, day(), Duration::from_secs(60));
    let retry = OutboxRetry {
        available_at: after(day(), Duration::from_secs(3)),
        failure: OutboxFailure::new(OutboxFailureKind::Transient),
    };
    store.reschedule(id, claimed.lease, retry, day()).unwrap();
    let worker = OutboxWorkerId::new(1);
    assert!(store.claim_due(worker, day(), Duration::from_secs(1), 1).unwrap().is_empty());
    let later = after(day(), Duration::from_secs(3));
    assert_eq!(store.claim_due(worker, later, Duration::from_secs(1), 1).unwrap().len(), 1);
}

#[test]
fn unknown_records_are_not_found() {
    let mut store = InMemoryOutboxStore::new();
    let id = OutboxId::new(4);
    let lease =
        OutboxLease { worker: OutboxWorkerId::new(1), token: 1, until: day() };
    assert_eq!(store.get(id), Ok(None));
    assert_eq!(
        store.complete(id, lease, day(), day()),
        Err(InMemoryOutboxError::NotFound { id })
    );
}

#[test]
fn store_errors_have_texts() {
    let id = OutboxId::new(120);
    assert_eq!(
        InMemoryOutboxError::Conflict { id }.message(),
        "idempotency key conflicts with outbox record 120"
    );
    assert_eq!(
        InMemoryOutboxError::NotFound { id }.message(),
        "outbox record 120 was not found"
    );
    assert_eq!(
        InMemoryOutboxError::LeaseMismatch { id }.message(),
        "outbox lease mismatch for record 120"
    );
    assert_eq!(InMemoryOutboxError::Poisoned.message(), "in-memory outbox mutex is poisoned");
    assert_eq!(
        InMemoryOutboxError::InjectedFailure.message(),
        "injected in-memory outbox failure"
    );
    let store: OutboxWorkerError<u8> = OutboxWorkerError::Store(1);
    assert_eq!(store.message("down"), "outbox store operation failed: down");
    let lease: OutboxWorkerError<u8> = OutboxWorkerError::InvalidLeaseDuration;
    assert_eq!(lease.message(""), "outbox lease_for must be positive");
}

#[test]
fn backoff_doubles_up_to_the_maximum() {
    let settings = OutboxWorkerSettings {
        transient_backoff_base: Duration::from_secs(2),
        transient_backoff_max: Duration::from_secs(15),
        ..OutboxWorkerSettings::default()
    };
    let delays: Vec<u64> =
        (1..6).map(|attempt| settings.transient_backoff(attempt).nanos / 1_000_000_000).collect();
    assert_eq!(delays, vec![2, 4, 8, 15, 15]);
    assert_eq!(settings.transient_backoff(0), Duration::from_secs(2));
    assert_eq!(settings.transient_backoff(u32::MAX), Duration::from_secs(15));
}

#[test]
fn retries_end_with_the_last_attempt() {
    let failure = OutboxFailure::new(OutboxFailureKind::Transient);
    let delay = Duration::from_secs(4);
    assert_eq!(
        retry_or_fail(1, 2, failure, delay, day()),
        StoreAction::Reschedule(OutboxRetry { available_at: after(day(), delay), failure })
    );
    assert_eq!(
        retry_or_fail(2, 2, failure, delay, day()),
        StoreAction::Fail(OutboxFailure::new(OutboxFailureKind::Exhausted))
    );
}

#[test]
fn a_lease_is_renewed_three_times_while_it_lasts() {
    assert_eq!(renew_period(Duration::from_secs(30)), Duration::from_secs(10));
    assert_eq!(renew_period(Duration::from_nanos(1)), Duration::from_millis(1));
}

#[test]
fn settings_are_checked_and_batches_report_the_first_error() {
    let fine: Result<(), OutboxWorkerError<u8>> =
        check_settings(&OutboxWorkerSettings::default());
    assert!(fine.is_ok());
    let faulty: Result<(), OutboxWorkerError<u8>> = check_settings(&OutboxWorkerSettings {
        lease_for: Duration::zero(),
        ..OutboxWorkerSettings::default()
    });
    assert!(matches!(faulty, Err(OutboxWorkerError::InvalidLeaseDuration)));
    let none: Vec<Result<(), OutboxWorkerError<u8>>> = vec![Ok(()), Ok(())];
    assert!(matches!(batch_outcome(none), Ok(2)));
    let some = vec![Ok(()), Err(OutboxWorkerError::Store(1u8)), Err(OutboxWorkerError::Store(2))];
    assert!(matches!(batch_outcome(some), Err(OutboxWorkerError::Store(1))));
}

#[test]
fn a_new_request_carries_what_it_is_given() {
    let metadata = OutboundMetadata {
        scope: OutboundScope::Global,
        class: OutboundClass::new(0),
        priority: OutboundPriority::normal(),
        weight: NonZeroU32::new(1).unwrap(),
    };
    let now = SystemTime::from_nanos(7);
    let later = SystemTime::from_nanos(9);
    let request = NewOutboxRequest::new("key".to_string(), vec![1, 2], metadata, now);
    assert_eq!((request.payload_version, request.available_at), (1, now));
    assert_eq!(request.max_attempts, NonZeroU32::new(5).unwrap());
    let request = request.with_payload_version(3).with_available_at(later);
    assert_eq!((request.payload_version, request.available_at), (3, later));
    assert_eq!((request.idempotency_key.as_str(), request.payload), ("key", vec![1, 2]));
}

#[test]
fn a_claim_writes_its_lease_and_nothing_else() {
    let mut store = InMemoryOutboxStore::new();
    let done = insert(&mut store, request("done"));
    let first = claim(&mut store, 1, day(), Duration::from_secs(30));
    store.complete(done, first.lease, day(), day()).unwrap();
    let held = insert(&mut store, request("held"));
    let second = claim(&mut store, 2, day(), Duration::from_secs(30));
    let id = insert(&mut store, request("due"));
    let later = after(day(), Duration::from_secs(10));
    let claimed = claim(&mut store, 3, later, Duration::from_secs(20));
    assert_eq!(claimed.id, id);
    assert_eq!(claimed.lease.worker, OutboxWorkerId { value: 3 });
    assert_eq!(claimed.lease.until, after(day(), Duration::from_secs(30)));
    assert!(claimed.lease.token > second.lease.token);
    assert_eq!((claimed.attempt, claimed.claim_count), (0, 1));
    // neither the completed one nor the one whose lease runs is touched
    assert_eq!(store.get(done).unwrap().unwrap().status, OutboxStatus::Completed);
    let other = store.get(held).unwrap().unwrap();
    assert_eq!((other.status, other.claim_count), (OutboxStatus::Claimed, 1));
}

#[test]
fn ordered_start_lane_reaches_the_next_executor_before_first_finishes() {
    let mut store = InMemoryOutboxStore::new();
    store.enqueue(request("ordered-first")).unwrap();
    store.enqueue(request("ordered-second")).unwrap();
    let mut actor = queue();
    let lane = OutboundLaneKey::of_mode(0, OutboundLaneMode::OrderedStart);
    let settings =
        OutboxWorkerSettings { max_in_flight: 2, lane: Some(lane), ..Default::default() };
    let clock = Instant::from_nanos(day().nanos);
    let claimed =
        store.claim_due(settings.worker, day(), settings.lease_for, settings.max_in_flight).unwrap();
    let mut waiting: Vec<(JobId, Delivery)> = Vec::new();
    for claim in &claimed {
        let (delivery, action) = Delivery::start(claim, &settings);
        let DeliveryAction::Acquire { metadata, correlation_id, lane } = action else {
            panic!("unexpected action {action:?}");
        };
        assert_eq!(correlation_id, OutboundCorrelationId::new(claim.id.get()));
        let command = QueueCommand::Enqueue { metadata, lane, mode: OutboundEnqueueMode::Fifo };
        let QueueReply::Enqueued { job, .. } = actor.handle_command(command, clock) else {
            panic!("refused");
        };
        actor.handle_command(QueueCommand::ReplyTaken { job_id: job }, clock);
        waiting.push((job, delivery));
    }
    // Neither request ends here: the second one runs all the same.
    let mut started: Vec<OutboxId> = Vec::new();
    for (job, delivery) in waiting.iter_mut() {
        let granted: Vec<JobId> =
            actor.run_admission(clock).0.iter().map(|grant| grant.job).collect();
        assert_eq!(granted, vec![*job]);
        assert_eq!(
            delivery.step(DeliveryEvent::Acquired(Ok(())), &settings, day()),
            Some(DeliveryAction::BeginAttempt)
        );
        let began = store.begin_attempt(delivery.id, delivery.lease, day()).unwrap();
        assert_eq!(
            delivery.step(DeliveryEvent::Began(began), &settings, day()),
            Some(DeliveryAction::Execute { attempt: 1 })
        );
        assert!(actor.run_admission(clock).0.is_empty());
        let reply = actor.handle_command(PermitState::new(*job).start(), clock);
        assert_eq!(reply, QueueReply::Done);
        started.push(delivery.id);
    }
    assert_eq!(started, vec![OutboxId::new(0), OutboxId::new(1)]);
    for (job, delivery) in waiting.iter_mut() {
        let ended = delivery.step(DeliveryEvent::Executed(Ok(())), &settings, day());
        assert_eq!(ended, Some(DeliveryAction::CompletePermit(OutboundCompletion::Success)));
        let command = PermitState::new(*job).complete(OutboundCompletion::Success);
        actor.handle_command(command, clock);
    }
    assert_eq!(actor.scheduler.snapshot().in_flight, 0);
    let outcome: Result<usize, OutboxWorkerError<InMemoryOutboxError>> =
        batch_outcome(vec![Ok(()), Ok(())]);
    assert!(matches!(outcome, Ok(2)));
}

#[test]
fn a_record_shows_what_was_stored_whatever_happens_to_it() {
    let mut store = InMemoryOutboxStore::new();
    assert_eq!(store.get(OutboxId::new(0)), Ok(None));
    let id = insert(&mut store, request("shown").with_payload_version(7));
    assert_eq!(store.get(OutboxId::new(1)), Ok(None));
    let shown = |store: &InMemoryOutboxStore| {
        let snapshot = store.get(id).unwrap().unwrap();
        assert_eq!(snapshot.id, id);
        assert_eq!(snapshot.idempotency_key, "shown");
        assert_eq!(snapshot.metadata, metadata());
        assert_eq!(snapshot.payload_version, 7);
        assert_eq!(snapshot.max_attempts, NonZeroU32::new(3).unwrap());
        assert!(snapshot.attempt <= 3);
        assert_eq!(snapshot.lease.is_some(), snapshot.status == OutboxStatus::Claimed);
        snapshot.status
    };
    assert_eq!(shown(&store), OutboxStatus::Pending);
    let claimed = claim(&mut store, 1, day(), Duration::from_secs(30));
    assert_eq!(shown(&store), OutboxStatus::Claimed);
    store.begin_attempt(id, claimed.lease, day()).unwrap();
    let later = after(day(), Duration::from_secs(5));
    let failure = OutboxFailure::new(OutboxFailureKind::Transient);
    let retry = OutboxRetry { available_at: later, failure };
    store.reschedule(id, claimed.lease, retry, day()).unwrap();
    assert_eq!(shown(&store), OutboxStatus::Pending);
    assert_eq!(store.get(id).unwrap().unwrap().available_at, later);
    let again = claim(&mut store, 1, later, Duration::from_secs(30));
    store.complete(id, again.lease, later, later).unwrap();
    assert_eq!(shown(&store), OutboxStatus::Completed);
}

#[test]
fn record_ids_compare_by_their_numbers() {
    for a in [0u64, 1, 7, u64::MAX] {
        for b in [0u64, 1, 7, u64::MAX] {
            let (x, y) = (OutboxId::new(a), OutboxId::new(b));
            assert_eq!((x < y, x == y, x > y), (a < b, a == b, a > b));
            assert_eq!(x.cmp(&y), a.cmp(&b));
        }
    }
}
