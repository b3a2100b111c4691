//! The queue actor, acquires and permits.

use outbound::queue::actor::{
    timer_deadline, Delivered, OutboundActor, QueueCommand, QueueReply, PARKED_NANOS,
};
use outbound::queue::client::{
    ingress_event, AcquireEvent, AcquireOutcome, AcquireState, Ingress, PermitState,
};
use outbound::time::{Duration, Instant};
use outbound::types::{
    AgingPolicy, JobId, NonZeroU32, OutboundAcquireError, OutboundChatKey, OutboundClass,
    OutboundCompletion, OutboundEnqueueMode, OutboundLaneKey, OutboundLimits, OutboundMetadata,
    OutboundPriority, OutboundQueueError, OutboundScope, OutboundSettings, SchedulerConfigError,
    SchedulerWakeup, WindowLimit,
};

fn window(capacity: u32, span: Duration) -> WindowLimit {
    WindowLimit::new(capacity, span)
}

fn settings_with(global: Vec<WindowLimit>, chat: Vec<WindowLimit>) -> OutboundSettings {
    OutboundSettings {
        limits: OutboundLimits { global, chat },
        queue_capacity: 1024,
        aging: AgingPolicy { quantum: Duration::from_secs(1), max_boost: u8::MAX },
    }
}

fn settings() -> OutboundSettings {
    settings_with(Vec::new(), Vec::new())
}

fn minute(capacity: u32) -> Vec<WindowLimit> {
    vec![window(capacity, Duration::from_secs(60))]
}

fn at(secs: u64) -> Instant {
    Instant::from_nanos((1_000 + secs) * 1_000_000_000)
}

fn metadata(priority: OutboundPriority) -> OutboundMetadata {
    OutboundMetadata {
        scope: OutboundScope::Global,
        class: OutboundClass::new(0),
        priority,
        weight: NonZeroU32::new(1).unwrap(),
    }
}

fn normal() -> OutboundMetadata {
    metadata(OutboundPriority::normal())
}

fn chat_metadata(chat: u64) -> OutboundMetadata {
    OutboundMetadata { scope: OutboundScope::Chat(OutboundChatKey::new(chat)), ..normal() }
}

fn send(
    actor: &mut OutboundActor,
    metadata: OutboundMetadata,
    lane: Option<OutboundLaneKey>,
    mode: OutboundEnqueueMode,
    now: Instant,
) -> QueueReply {
    let reply = actor.handle_command(QueueCommand::Enqueue { metadata, lane, mode }, now);
    if let QueueReply::Enqueued { job, .. } = &reply {
        let job_id = *job;
        actor.handle_command(QueueCommand::ReplyTaken { job_id }, now);
    }
    reply
}

fn enqueue(actor: &mut OutboundActor, metadata: OutboundMetadata, now: Instant) -> JobId {
    match send(actor, metadata, None, OutboundEnqueueMode::Fifo, now) {
        QueueReply::Enqueued { job, .. } => job,
        other => panic!("unexpected reply {other:?}"),
    }
}

fn lane(value: u64) -> Option<OutboundLaneKey> {
    Some(OutboundLaneKey { value })
}

fn enqueue_in(
    actor: &mut OutboundActor,
    metadata: OutboundMetadata,
    lane: Option<OutboundLaneKey>,
    now: Instant,
) -> JobId {
    match send(actor, metadata, lane, OutboundEnqueueMode::Fifo, now) {
        QueueReply::Enqueued { job, .. } => job,
        other => panic!("unexpected reply {other:?}"),
    }
}

fn latest_wins(actor: &mut OutboundActor, user_key: u64, now: Instant) -> (JobId, Option<JobId>) {
    match send(actor, normal(), None, OutboundEnqueueMode::ReplacePending { user_key }, now) {
        QueueReply::Enqueued { job, superseded } => (job, superseded),
        other => panic!("unexpected reply {other:?}"),
    }
}

/// How an acquire that waits for `job` resolves on `event`.
fn resolved(job_id: JobId, event: AcquireEvent) -> Option<AcquireOutcome> {
    let mut state = AcquireState::Waiting { job_id };
    state.step(event)
}

fn weighing(weight: u32) -> OutboundMetadata {
    OutboundMetadata { weight: NonZeroU32::new(weight).unwrap(), ..normal() }
}

fn counts(actor: &mut OutboundActor, now: Instant) -> (usize, usize) {
    match actor.handle_command(QueueCommand::GetSnapshot, now) {
        QueueReply::Snapshot(snapshot) => (snapshot.pending, snapshot.in_flight),
        other => panic!("unexpected reply {other:?}"),
    }
}

fn granted(actor: &mut OutboundActor, now: Instant) -> Vec<JobId> {
    actor.run_admission(now).0.iter().map(|grant| grant.job).collect()
}

fn complete(actor: &mut OutboundActor, job_id: JobId, outcome: OutboundCompletion, now: Instant) {
    assert_eq!(
        actor.handle_command(QueueCommand::Complete { job_id, outcome }, now),
        QueueReply::Done
    );
}

#[test]
fn higher_priority_is_granted_before_lower_priority() {
    let mut actor = OutboundActor::new(settings_with(minute(1), Vec::new())).unwrap();
    // fill the window first so both acquires are pending when it frees:
    // only then does priority decide between them
    let holder = enqueue(&mut actor, metadata(OutboundPriority::critical()), at(0));
    assert_eq!(granted(&mut actor, at(0)), vec![holder]);
    let normal = enqueue(&mut actor, metadata(OutboundPriority::normal()), at(0));
    assert!(granted(&mut actor, at(0)).is_empty());
    let critical = enqueue(&mut actor, metadata(OutboundPriority::critical()), at(0));
    assert!(granted(&mut actor, at(0)).is_empty());
    complete(&mut actor, holder, OutboundCompletion::Success, at(0));
    // only one of the two can pass the window; the higher priority must win
    // despite being enqueued second
    assert_eq!(granted(&mut actor, at(61)), vec![critical]);
    complete(&mut actor, critical, OutboundCompletion::Success, at(61));
    assert_eq!(granted(&mut actor, at(122)), vec![normal]);
}

#[test]
fn same_priority_jobs_are_granted_in_fifo_order() {
    let mut actor = OutboundActor::new(settings_with(minute(1), Vec::new())).unwrap();
    let first = enqueue(&mut actor, normal(), at(0));
    let second = enqueue(&mut actor, normal(), at(0));
    assert_eq!(granted(&mut actor, at(0)), vec![first]);
    complete(&mut actor, first, OutboundCompletion::Success, at(0));
    assert_eq!(granted(&mut actor, at(61)), vec![second]);
}

#[test]
fn retry_after_penalizes_only_the_reported_chat_scope() {
    let mut actor = OutboundActor::new(settings_with(Vec::new(), minute(1))).unwrap();
    // chat 1 consumes its window and then reports a chat-scoped penalty
    let first = enqueue(&mut actor, chat_metadata(1), at(0));
    assert_eq!(granted(&mut actor, at(0)), vec![first]);
    let flooded = OutboundCompletion::RetryAfter {
        scope: OutboundScope::Chat(OutboundChatKey::new(1)),
        duration: Duration::from_secs(60),
    };
    complete(&mut actor, first, flooded, at(0));
    // a new chat-1 acquire is blocked by the penalty, chat 2 is not
    let blocked = enqueue(&mut actor, chat_metadata(1), at(0));
    assert!(granted(&mut actor, at(0)).is_empty());
    let other = enqueue(&mut actor, chat_metadata(2), at(0));
    assert_eq!(granted(&mut actor, at(0)), vec![other]);
    assert_eq!(granted(&mut actor, at(61)), vec![blocked]);
}

#[test]
fn retry_after_of_a_chat_request_can_penalize_the_global_scope() {
    let mut actor = OutboundActor::new(settings_with(minute(1), Vec::new())).unwrap();
    let first = enqueue(&mut actor, chat_metadata(1), at(0));
    assert_eq!(granted(&mut actor, at(0)), vec![first]);
    let flooded = OutboundCompletion::RetryAfter {
        scope: OutboundScope::Global,
        duration: Duration::from_secs(60),
    };
    complete(&mut actor, first, flooded, at(0));
    let blocked = enqueue(&mut actor, normal(), at(0));
    assert!(granted(&mut actor, at(0)).is_empty());
    assert_eq!(granted(&mut actor, at(61)), vec![blocked]);
}

#[test]
fn a_global_penalty_closes_every_chat() {
    let mut actor = OutboundActor::new(settings()).unwrap();
    let first = enqueue(&mut actor, chat_metadata(1), at(0));
    assert_eq!(granted(&mut actor, at(0)), vec![first]);
    let flooded = OutboundCompletion::RetryAfter {
        scope: OutboundScope::Global,
        duration: Duration::from_secs(30),
    };
    complete(&mut actor, first, flooded, at(0));
    let other = enqueue(&mut actor, chat_metadata(2), at(0));
    assert!(granted(&mut actor, at(29)).is_empty());
    assert_eq!(granted(&mut actor, at(30)), vec![other]);
}

#[test]
fn aging_grants_a_background_job_under_continuous_critical_load() {
    let mut actor = OutboundActor::new(settings_with(minute(1), Vec::new())).unwrap();
    let holder = enqueue(&mut actor, metadata(OutboundPriority::critical()), at(0));
    assert_eq!(granted(&mut actor, at(0)), vec![holder]);
    let background = enqueue(&mut actor, metadata(OutboundPriority::background()), at(0));
    granted(&mut actor, at(0));
    // a fresh critical request every second; the background job must still
    // be granted within a bounded time
    let mut found = false;
    for second in 1..=300u64 {
        if granted(&mut actor, at(second)).contains(&background) {
            found = true;
            break;
        }
        let critical = enqueue(&mut actor, metadata(OutboundPriority::critical()), at(second));
        if granted(&mut actor, at(second)).contains(&critical) {
            complete(&mut actor, critical, OutboundCompletion::Success, at(second));
        } else {
            actor.handle_command(QueueCommand::Cancel { job_id: critical }, at(second));
        }
    }
    assert!(found, "the background job starved under critical load");
}

#[test]
fn dropping_an_acquire_before_grant_cancels_the_job_without_consuming_budget() {
    // if the cancelled job leaked a consumption, the window would stay full
    // and the third acquire would block
    let mut actor = OutboundActor::new(settings_with(minute(2), Vec::new())).unwrap();
    let first = enqueue(&mut actor, normal(), at(0));
    assert_eq!(granted(&mut actor, at(0)), vec![first]);
    let second = enqueue(&mut actor, normal(), at(0));
    let dropped = AcquireState::Waiting { job_id: second }.dropped();
    actor.handle_command(dropped.unwrap(), at(0));
    assert_eq!(counts(&mut actor, at(0)), (0, 1));
    let third = enqueue(&mut actor, normal(), at(0));
    assert_eq!(granted(&mut actor, at(0)), vec![third]);
}

#[test]
fn dropping_an_acquire_before_the_enqueue_is_processed_leaves_no_job_behind() {
    let mut actor = OutboundActor::new(settings()).unwrap();
    // nobody takes the reply to the enqueue
    let command = QueueCommand::Enqueue {
        metadata: normal(),
        lane: None,
        mode: OutboundEnqueueMode::Fifo,
    };
    match actor.handle_command(command, at(0)) {
        QueueReply::Enqueued { job, .. } => {
            actor.handle_command(QueueCommand::ReplyLost { job_id: job }, at(0));
        }
        other => panic!("unexpected reply {other:?}"),
    }
    assert!(granted(&mut actor, at(0)).is_empty());
    assert_eq!(counts(&mut actor, at(0)), (0, 0));
    // the queue keeps working normally afterwards
    let next = enqueue(&mut actor, normal(), at(0));
    assert_eq!(granted(&mut actor, at(0)), vec![next]);
}

#[test]
fn dropping_an_acknowledged_acquire_before_polling_releases_the_job() {
    let mut actor = OutboundActor::new(settings_with(minute(1), Vec::new())).unwrap();
    let holder = enqueue(&mut actor, normal(), at(0));
    assert_eq!(granted(&mut actor, at(0)), vec![holder]);
    let acquire = enqueue(&mut actor, normal(), at(0));
    assert!(granted(&mut actor, at(0)).is_empty());
    complete(&mut actor, holder, OutboundCompletion::Success, at(0));
    // the permit is granted and never looked at
    assert_eq!(granted(&mut actor, at(61)), vec![acquire]);
    assert_eq!(counts(&mut actor, at(61)), (0, 1));
    actor.handle_command(PermitState::new(acquire).dropped().unwrap(), at(61));
    assert_eq!(counts(&mut actor, at(61)), (0, 0));
    let next = enqueue(&mut actor, normal(), at(122));
    assert_eq!(granted(&mut actor, at(122)), vec![next]);
}

#[test]
fn dropping_a_permit_releases_the_lane_as_cancelled() {
    let mut actor = OutboundActor::new(settings()).unwrap();
    let first = enqueue_in(&mut actor, normal(), lane(1), at(0));
    assert_eq!(granted(&mut actor, at(0)), vec![first]);
    let second = enqueue_in(&mut actor, normal(), lane(1), at(0));
    assert!(granted(&mut actor, at(0)).is_empty());
    actor.handle_command(PermitState::new(first).dropped().unwrap(), at(0));
    assert_eq!(granted(&mut actor, at(0)), vec![second]);
}

#[test]
fn dropping_a_permit_keeps_the_consumed_window_budget() {
    let mut actor = OutboundActor::new(settings_with(minute(1), Vec::new())).unwrap();
    let first = enqueue(&mut actor, normal(), at(0));
    assert_eq!(granted(&mut actor, at(0)), vec![first]);
    actor.handle_command(PermitState::new(first).dropped().unwrap(), at(0));
    let blocked = enqueue(&mut actor, normal(), at(0));
    assert!(granted(&mut actor, at(0)).is_empty());
    // only time frees the window
    assert_eq!(granted(&mut actor, at(61)), vec![blocked]);
}

#[test]
fn lane_is_strictly_fifo_across_priorities() {
    let mut actor = OutboundActor::new(settings()).unwrap();
    // the low-priority head is granted before the high-priority tail
    let background = metadata(OutboundPriority::background());
    let first = enqueue_in(&mut actor, background, lane(1), at(0));
    let critical = metadata(OutboundPriority::critical());
    let second = enqueue_in(&mut actor, critical, lane(1), at(0));
    assert_eq!(granted(&mut actor, at(0)), vec![first]);
    complete(&mut actor, first, OutboundCompletion::Success, at(0));
    assert_eq!(granted(&mut actor, at(0)), vec![second]);
}

#[test]
fn drained_completions_wake_all_serial_lanes() {
    let mut actor = OutboundActor::new(settings()).unwrap();
    let a1 = enqueue_in(&mut actor, chat_metadata(1), lane(1), at(0));
    let b1 = enqueue_in(&mut actor, chat_metadata(2), lane(2), at(0));
    assert_eq!(granted(&mut actor, at(0)), vec![a1, b1]);
    let a2 = enqueue_in(&mut actor, chat_metadata(1), lane(1), at(0));
    let b2 = enqueue_in(&mut actor, chat_metadata(2), lane(2), at(0));
    assert!(granted(&mut actor, at(0)).is_empty());
    assert_eq!(counts(&mut actor, at(0)), (2, 2));
    // both completions come before the next pass, which must grant both tails
    complete(&mut actor, a1, OutboundCompletion::Success, at(0));
    complete(&mut actor, b1, OutboundCompletion::Success, at(0));
    assert_eq!(granted(&mut actor, at(0)), vec![a2, b2]);
}

#[test]
fn drained_set_limits_wakes_newly_admissible_jobs() {
    let mut actor = OutboundActor::new(settings_with(minute(2), Vec::new())).unwrap();
    let h1 = enqueue(&mut actor, weighing(1), at(0));
    let h2 = enqueue(&mut actor, weighing(1), at(0));
    assert_eq!(granted(&mut actor, at(0)), vec![h1, h2]);
    let pending = enqueue(&mut actor, weighing(2), at(0));
    assert!(granted(&mut actor, at(0)).is_empty());
    // only the wider window makes the job admissible
    complete(&mut actor, h1, OutboundCompletion::Success, at(0));
    let limits = OutboundLimits { global: minute(4), chat: Vec::new() };
    actor.handle_command(QueueCommand::SetLimits { limits }, at(0));
    assert_eq!(granted(&mut actor, at(0)), vec![pending]);
}

#[test]
fn drained_cancellation_wakes_a_parked_reservation_job() {
    let mut actor = OutboundActor::new(settings_with(minute(10), Vec::new())).unwrap();
    for _ in 0..9 {
        let job = enqueue(&mut actor, weighing(1), at(0));
        assert_eq!(granted(&mut actor, at(0)), vec![job]);
        complete(&mut actor, job, OutboundCompletion::Success, at(0));
    }
    assert_eq!(counts(&mut actor, at(0)), (0, 0));
    // the heavy job holds the window back, the light one is parked behind it
    let heavy = enqueue(&mut actor, weighing(10), at(0));
    assert!(granted(&mut actor, at(0)).is_empty());
    let light = enqueue(&mut actor, weighing(1), at(0));
    assert!(granted(&mut actor, at(0)).is_empty());
    assert_eq!(counts(&mut actor, at(0)), (2, 0));
    let penalty =
        QueueCommand::Penalize { scope: OutboundScope::Global, duration: Duration::from_secs(0) };
    actor.handle_command(penalty, at(0));
    actor.handle_command(QueueCommand::Cancel { job_id: heavy }, at(0));
    assert_eq!(granted(&mut actor, at(0)), vec![light]);
}

#[test]
fn latest_wins_supersedes_the_replaced_waiter_and_inherits_its_position() {
    let mut actor = OutboundActor::new(settings_with(minute(1), Vec::new())).unwrap();
    let in_flight = enqueue(&mut actor, normal(), at(0));
    assert_eq!(granted(&mut actor, at(0)), vec![in_flight]);
    let (replaced, _) = latest_wins(&mut actor, 7, at(0));
    let (replacement, superseded) = latest_wins(&mut actor, 7, at(0));
    let fifo = enqueue(&mut actor, normal(), at(0));
    assert!(granted(&mut actor, at(0)).is_empty());
    // the replaced waiter is told, it does not get a permit
    assert_eq!(superseded, Some(replaced));
    assert_eq!(
        resolved(replaced, AcquireEvent::Superseded),
        Some(AcquireOutcome::Failed(OutboundAcquireError::Superseded))
    );
    // the replacement stands where the superseded job stood
    complete(&mut actor, in_flight, OutboundCompletion::Success, at(0));
    assert_eq!(granted(&mut actor, at(61)), vec![replacement]);
    assert_eq!(granted(&mut actor, at(122)), vec![fifo]);
}

#[test]
fn latest_wins_never_touches_an_in_flight_job() {
    let mut actor = OutboundActor::new(settings_with(minute(1), Vec::new())).unwrap();
    let (in_flight, _) = latest_wins(&mut actor, 7, at(0));
    assert_eq!(granted(&mut actor, at(0)), vec![in_flight]);
    // the permit in flight is never replaced, only the pending job is
    let (first, none) = latest_wins(&mut actor, 7, at(0));
    assert_eq!(none, None);
    let (pending, superseded) = latest_wins(&mut actor, 7, at(0));
    assert_eq!(superseded, Some(first));
    assert!(granted(&mut actor, at(0)).is_empty());
    complete(&mut actor, in_flight, OutboundCompletion::Success, at(0));
    assert_eq!(granted(&mut actor, at(61)), vec![pending]);
}

#[test]
fn independent_chats_do_not_block_each_other() {
    let mut actor = OutboundActor::new(settings_with(Vec::new(), minute(1))).unwrap();
    let first = enqueue(&mut actor, chat_metadata(1), at(0));
    assert_eq!(granted(&mut actor, at(0)), vec![first]);
    let second = enqueue(&mut actor, chat_metadata(2), at(0));
    assert_eq!(granted(&mut actor, at(0)), vec![second]);
    let blocked = enqueue(&mut actor, chat_metadata(1), at(0));
    assert!(granted(&mut actor, at(0)).is_empty());
    complete(&mut actor, second, OutboundCompletion::Success, at(0));
    complete(&mut actor, first, OutboundCompletion::Success, at(0));
    assert_eq!(granted(&mut actor, at(61)), vec![blocked]);
}

#[test]
fn shutdown_resolves_pending_acquires_with_closed() {
    let mut actor = OutboundActor::new(settings_with(minute(1), Vec::new())).unwrap();
    let first = enqueue(&mut actor, normal(), at(0));
    assert_eq!(granted(&mut actor, at(0)), vec![first]);
    let pending = enqueue(&mut actor, normal(), at(0));
    assert_eq!(actor.shutdown_waiters(), vec![pending]);
    assert!(actor.shutdown_waiters().is_empty());
    assert_eq!(
        resolved(pending, AcquireEvent::Closed),
        Some(AcquireOutcome::Failed(OutboundAcquireError::Closed))
    );
    // an acquire after the shutdown fails fast as well
    let mut late = AcquireState::Enqueuing;
    assert_eq!(
        late.step(ingress_event(Ingress::Closed).unwrap()),
        Some(AcquireOutcome::Failed(OutboundAcquireError::Closed))
    );
    complete(&mut actor, first, OutboundCompletion::Success, at(0));
}

#[test]
fn snapshot_reports_pending_and_in_flight_counts() {
    let mut actor = OutboundActor::new(settings_with(minute(1), Vec::new())).unwrap();
    let first = enqueue(&mut actor, normal(), at(0));
    assert_eq!(granted(&mut actor, at(0)), vec![first]);
    let second = enqueue(&mut actor, normal(), at(0));
    assert!(granted(&mut actor, at(0)).is_empty());
    assert_eq!(counts(&mut actor, at(0)), (1, 1));
    complete(&mut actor, first, OutboundCompletion::Success, at(0));
    assert_eq!(granted(&mut actor, at(61)), vec![second]);
    assert_eq!(counts(&mut actor, at(61)), (0, 1));
    complete(&mut actor, second, OutboundCompletion::Success, at(61));
    assert_eq!(counts(&mut actor, at(61)), (0, 0));
}

#[test]
fn a_blocked_job_and_its_hold_are_counted() {
    let mut actor = OutboundActor::new(settings_with(minute(1), Vec::new())).unwrap();
    enqueue(&mut actor, normal(), at(0));
    enqueue(&mut actor, normal(), at(0));
    granted(&mut actor, at(0));
    let snapshot = actor.scheduler.snapshot();
    assert_eq!((snapshot.blocked, snapshot.reservations), (1, 1));
}

#[test]
fn a_lost_reply_leaves_no_job_behind() {
    let mut actor = OutboundActor::new(settings()).unwrap();
    let command = QueueCommand::Enqueue {
        metadata: normal(),
        lane: None,
        mode: OutboundEnqueueMode::Fifo,
    };
    let job_id = match actor.handle_command(command, at(0)) {
        QueueReply::Enqueued { job, .. } => job,
        other => panic!("unexpected reply {other:?}"),
    };
    actor.handle_command(QueueCommand::ReplyLost { job_id }, at(0));
    assert!(granted(&mut actor, at(0)).is_empty());
    assert_eq!(actor.scheduler.snapshot().pending, 0);
}

#[test]
fn queue_capacity_backpressure_rejects_new_acquires() {
    let mut settings = settings_with(vec![window(1, Duration::from_secs(60))], Vec::new());
    settings.queue_capacity = 2;
    let mut actor = OutboundActor::new(settings).unwrap();

    // one in flight, two pending: the backlog is at capacity
    let first = enqueue(&mut actor, normal(), at(0));
    assert_eq!(granted(&mut actor, at(0)), vec![first]);
    enqueue(&mut actor, normal(), at(0));
    enqueue(&mut actor, normal(), at(0));

    assert_eq!(
        send(&mut actor, normal(), None, OutboundEnqueueMode::Fifo, at(0)),
        QueueReply::Refused(OutboundQueueError::QueueFull)
    );
}

#[test]
fn latest_wins_replacement_is_admitted_at_queue_capacity() {
    let mut settings = settings_with(vec![window(1, Duration::from_secs(60))], Vec::new());
    settings.queue_capacity = 1;
    let mut actor = OutboundActor::new(settings).unwrap();

    let in_flight = enqueue(&mut actor, normal(), at(0));
    assert_eq!(granted(&mut actor, at(0)), vec![in_flight]);
    let latest = OutboundEnqueueMode::ReplacePending { user_key: 7 };
    let replaced = match send(&mut actor, normal(), None, latest, at(0)) {
        QueueReply::Enqueued { job, superseded: None } => job,
        other => panic!("unexpected reply {other:?}"),
    };
    let replacement = match send(&mut actor, normal(), None, latest, at(0)) {
        QueueReply::Enqueued { job, superseded } => {
            assert_eq!(superseded, Some(replaced));
            job
        }
        other => panic!("unexpected reply {other:?}"),
    };
    let mut state = AcquireState::Waiting { job_id: replaced };
    assert_eq!(
        state.step(AcquireEvent::Superseded),
        Some(AcquireOutcome::Failed(OutboundAcquireError::Superseded))
    );
    complete(&mut actor, in_flight, OutboundCompletion::Success, at(0));
    assert_eq!(granted(&mut actor, at(61)), vec![replacement]);
}

#[test]
fn fresh_latest_wins_key_at_queue_capacity_is_rejected() {
    let mut settings = settings_with(vec![window(1, Duration::from_secs(60))], Vec::new());
    settings.queue_capacity = 1;
    let mut actor = OutboundActor::new(settings).unwrap();
    let in_flight = enqueue(&mut actor, normal(), at(0));
    assert_eq!(granted(&mut actor, at(0)), vec![in_flight]);
    let mode = |user_key: u64| OutboundEnqueueMode::ReplacePending { user_key };
    send(&mut actor, normal(), None, mode(7), at(0));
    // a new latest-wins key would grow the backlog at capacity
    assert_eq!(
        send(&mut actor, normal(), None, mode(8), at(0)),
        QueueReply::Refused(OutboundQueueError::QueueFull)
    );
}

#[test]
fn refusals_of_the_scheduler_reach_the_caller() {
    let mut actor = OutboundActor::new(settings_with(minute(100), Vec::new())).unwrap();
    let heavy = weighing(101);
    assert_eq!(
        send(&mut actor, heavy, None, OutboundEnqueueMode::Fifo, at(0)),
        QueueReply::Refused(OutboundQueueError::WeightExceedsWindow {
            scope: OutboundScope::Global,
            weight: NonZeroU32::new(101).unwrap(),
            capacity: 100,
        })
    );
    let latest = OutboundEnqueueMode::ReplacePending { user_key: 1 };
    send(&mut actor, normal(), None, latest, at(0));
    let heavier = weighing(2);
    assert_eq!(
        send(&mut actor, heavier, None, latest, at(0)),
        QueueReply::Refused(OutboundQueueError::IncompatibleCoalesceMetadata)
    );
}

#[test]
fn set_limits_with_unchanged_values_keeps_the_consumed_budget() {
    let limits = || OutboundLimits {
        global: vec![window(1, Duration::from_secs(60))],
        chat: Vec::new(),
    };
    let mut actor =
        OutboundActor::new(settings_with(limits().global, limits().chat)).unwrap();
    let first = enqueue(&mut actor, normal(), at(0));
    assert_eq!(granted(&mut actor, at(0)), vec![first]);
    // the same limits: the history stays, no burst is possible
    assert_eq!(
        actor.handle_command(QueueCommand::GetLimits, at(0)),
        QueueReply::Limits(limits())
    );
    assert_eq!(
        actor.handle_command(QueueCommand::SetLimits { limits: limits() }, at(0)),
        QueueReply::LimitsSet(Ok(()))
    );
    let blocked = enqueue(&mut actor, normal(), at(0));
    assert!(granted(&mut actor, at(0)).is_empty());
    complete(&mut actor, first, OutboundCompletion::Success, at(0));
    assert_eq!(granted(&mut actor, at(61)), vec![blocked]);
}

#[test]
fn set_limits_below_pending_weight_is_rejected() {
    let mut actor =
        OutboundActor::new(settings_with(vec![window(10, Duration::from_secs(60))], Vec::new()))
            .unwrap();
    let heavy = weighing(10);
    let holder = enqueue(&mut actor, heavy, at(0));
    assert_eq!(granted(&mut actor, at(0)), vec![holder]);
    enqueue(&mut actor, heavy, at(0));
    let limits =
        OutboundLimits { global: vec![window(1, Duration::from_secs(60))], chat: Vec::new() };
    assert_eq!(
        actor.handle_command(QueueCommand::SetLimits { limits }, at(0)),
        QueueReply::LimitsSet(Err(SchedulerConfigError::PendingWeightExceedsWindow {
            scope: OutboundScope::Global,
            weight: 10,
            capacity: 1,
        }))
    );
    // the previous limits stay in effect
    assert_eq!(
        actor.handle_command(QueueCommand::GetLimits, at(0)),
        QueueReply::Limits(OutboundLimits {
            global: vec![window(10, Duration::from_secs(60))],
            chat: Vec::new(),
        })
    );
}

#[test]
fn set_limits_preserves_history_of_unequal_global_windows() {
    // two windows of different length: the short one has forgotten the
    // grant, the long one has not
    let global = || vec![window(1, Duration::from_secs(1)), window(1, Duration::from_secs(60))];
    let mut actor = OutboundActor::new(settings_with(global(), Vec::new())).unwrap();
    let first = enqueue(&mut actor, normal(), at(0));
    assert_eq!(granted(&mut actor, at(0)), vec![first]);
    let limits = OutboundLimits { global: global(), chat: Vec::new() };
    actor.handle_command(QueueCommand::SetLimits { limits }, at(2));
    let blocked = enqueue(&mut actor, normal(), at(2));
    assert!(granted(&mut actor, at(2)).is_empty());
    complete(&mut actor, first, OutboundCompletion::Success, at(2));
    assert_eq!(granted(&mut actor, at(63)), vec![blocked]);
}

#[test]
fn set_limits_preserves_history_of_unequal_chat_windows() {
    let chat = || vec![window(1, Duration::from_secs(1)), window(1, Duration::from_secs(60))];
    let mut actor = OutboundActor::new(settings_with(Vec::new(), chat())).unwrap();
    let first = enqueue(&mut actor, chat_metadata(1), at(0));
    assert_eq!(granted(&mut actor, at(0)), vec![first]);
    let limits = OutboundLimits { global: Vec::new(), chat: chat() };
    actor.handle_command(QueueCommand::SetLimits { limits }, at(2));
    let blocked = enqueue(&mut actor, chat_metadata(1), at(2));
    assert!(granted(&mut actor, at(2)).is_empty());
    complete(&mut actor, first, OutboundCompletion::Success, at(2));
    assert_eq!(granted(&mut actor, at(63)), vec![blocked]);
}

#[test]
fn zero_queue_capacity_is_rejected() {
    let mut settings = settings();
    settings.queue_capacity = 0;
    let error = match OutboundActor::new(settings) {
        Ok(_actor) => panic!("zero queue capacity unexpectedly accepted"),
        Err(error) => error,
    };
    assert_eq!(error, SchedulerConfigError::ZeroQueueCapacity);
}

#[test]
fn set_limits_rejects_invalid_configuration() {
    let mut actor = OutboundActor::new(settings()).unwrap();
    let limits =
        OutboundLimits { global: vec![window(0, Duration::from_secs(60))], chat: Vec::new() };
    assert_eq!(
        actor.handle_command(QueueCommand::SetLimits { limits }, at(0)),
        QueueReply::LimitsSet(Err(SchedulerConfigError::ZeroWindowCapacity))
    );
    // the previous limits stay in effect and the queue keeps working
    let job = enqueue(&mut actor, normal(), at(0));
    assert_eq!(granted(&mut actor, at(0)), vec![job]);
}

#[test]
fn set_limits_wakes_up_blocked_candidates() {
    let mut actor =
        OutboundActor::new(settings_with(Vec::new(), vec![window(1, Duration::from_secs(60))]))
            .unwrap();
    let first = enqueue(&mut actor, chat_metadata(1), at(0));
    assert_eq!(granted(&mut actor, at(0)), vec![first]);
    let blocked = enqueue(&mut actor, chat_metadata(1), at(0));
    assert!(granted(&mut actor, at(0)).is_empty());
    // without windows the blocked candidate is granted at once
    let limits = OutboundLimits { global: Vec::new(), chat: Vec::new() };
    actor.handle_command(QueueCommand::SetLimits { limits }, at(0));
    assert_eq!(granted(&mut actor, at(0)), vec![blocked]);
}

#[test]
fn an_unclaimed_grant_is_given_back() {
    let mut actor = OutboundActor::new(settings()).unwrap();
    let command = QueueCommand::Enqueue {
        metadata: normal(),
        lane: Some(OutboundLaneKey { value: 1 }),
        mode: OutboundEnqueueMode::Fifo,
    };
    let job = match actor.handle_command(command, at(0)) {
        QueueReply::Enqueued { job, .. } => job,
        other => panic!("unexpected reply {other:?}"),
    };
    // nobody took the reply, so nobody waits for the grant
    let (delivered, _) = actor.run_admission(at(0));
    assert_eq!(delivered, vec![Delivered { job, waited: false }]);
    assert_eq!(actor.scheduler.snapshot().in_flight, 1);
    // its permit is dropped unused, which frees the lane again
    actor.handle_command(PermitState::new(job).dropped().unwrap(), at(0));
    assert_eq!(actor.scheduler.snapshot().in_flight, 0);
}

#[test]
fn a_penalty_closes_its_scope() {
    let mut actor = OutboundActor::new(settings()).unwrap();
    let command = QueueCommand::Penalize {
        scope: OutboundScope::Global,
        duration: Duration::from_secs(5),
    };
    assert_eq!(actor.handle_command(command, at(0)), QueueReply::Done);
    let job = enqueue(&mut actor, normal(), at(0));
    let (delivered, wakeup) = actor.run_admission(at(0));
    assert!(delivered.is_empty());
    assert_eq!(wakeup, SchedulerWakeup::At(at(5)));
    assert_eq!(granted(&mut actor, at(5)), vec![job]);
}

#[test]
fn the_timer_follows_the_wakeup() {
    assert_eq!(timer_deadline(SchedulerWakeup::Immediate, at(0)), at(0));
    assert_eq!(timer_deadline(SchedulerWakeup::At(at(7)), at(0)), at(7));
    assert_eq!(
        timer_deadline(SchedulerWakeup::ExternalEvent, at(0)),
        Instant::from_nanos(at(0).nanos + PARKED_NANOS)
    );
}

#[test]
fn an_acquire_resolves_once() {
    let job = JobId { value: 3 };
    let mut state = AcquireState::Enqueuing;
    assert_eq!(state.dropped(), None);
    assert_eq!(state.step(AcquireEvent::Granted), None);
    assert_eq!(state.step(AcquireEvent::Replied(Ok(job))), None);
    assert_eq!(state.dropped(), Some(QueueCommand::Cancel { job_id: job }));
    assert_eq!(state.step(AcquireEvent::Granted), Some(AcquireOutcome::Permit(job)));
    assert_eq!(state.step(AcquireEvent::Closed), None);
    assert_eq!(state.dropped(), None);
    let mut refused = AcquireState::Enqueuing;
    assert_eq!(
        refused.step(AcquireEvent::Replied(Err(OutboundQueueError::QueueFull))),
        Some(AcquireOutcome::Failed(OutboundAcquireError::QueueFull))
    );
}

#[test]
fn a_completed_permit_says_nothing_when_dropped() {
    let job = JobId { value: 3 };
    let mut permit = PermitState::new(job);
    assert_eq!(
        permit.dropped(),
        Some(QueueCommand::Complete {
            job_id: job,
            outcome: OutboundCompletion::CancelledAfterGrant,
        })
    );
    assert_eq!(
        permit.complete(OutboundCompletion::Failed),
        QueueCommand::Complete { job_id: job, outcome: OutboundCompletion::Failed }
    );
    assert_eq!(permit.dropped(), None);
}

#[test]
fn a_full_ingress_fails_fast() {
    assert_eq!(ingress_event(Ingress::Sent), None);
    assert_eq!(
        ingress_event(Ingress::Full),
        Some(AcquireEvent::Replied(Err(OutboundQueueError::QueueFull)))
    );
    assert_eq!(ingress_event(Ingress::Closed), Some(AcquireEvent::Closed));
}
