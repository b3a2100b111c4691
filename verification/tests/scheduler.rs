//! Scenarios of the scheduler state machine.

use outbound::scheduler::entries::CoalesceKey;
use outbound::scheduler::lane::LaneState;
use outbound::scheduler::state::SchedulerState;
use outbound::time::{Duration, Instant};
use outbound::types::{
    AgingPolicy, EnqueueError, EnqueueOutcome, Grant, JobId, NonZeroU32, OutboundChatKey,
    OutboundClass, OutboundCompletion, OutboundEnqueueMode, OutboundLaneKey, OutboundLaneMode,
    OutboundLimits, OutboundMeta, OutboundPriority, OutboundScope, SchedulerConfigError,
    SchedulerWakeup, WindowChatKind, WindowLimit,
};
use std::collections::VecDeque;

fn base() -> Instant {
    Instant::from_nanos(1_000_000_000_000)
}

fn after(at: Instant, span: Duration) -> Instant {
    Instant::from_nanos(at.nanos + span.nanos)
}

fn before(at: Instant, span: Duration) -> Instant {
    Instant::from_nanos(at.nanos - span.nanos)
}

fn micros(count: u64) -> Duration {
    Duration::from_nanos(count * 1_000)
}

fn lane_key(value: u64) -> OutboundLaneKey {
    OutboundLaneKey { value }
}

fn meta(
    scope: OutboundScope,
    lane: Option<OutboundLaneKey>,
    priority: OutboundPriority,
) -> OutboundMeta {
    meta_with_class(scope, lane, priority, 0)
}

fn meta_with_class(
    scope: OutboundScope,
    lane: Option<OutboundLaneKey>,
    priority: OutboundPriority,
    class: u64,
) -> OutboundMeta {
    OutboundMeta {
        scope,
        lane,
        class: OutboundClass::new(class),
        priority,
        weight: NonZeroU32::new(1).unwrap(),
    }
}

fn global(priority: OutboundPriority) -> OutboundMeta {
    meta(OutboundScope::Global, None, priority)
}

fn limits(capacity: u32) -> OutboundLimits {
    OutboundLimits {
        global: vec![WindowLimit::new(capacity, Duration::from_secs(1))],
        chat: vec![WindowLimit::new(capacity, Duration::from_secs(1))],
    }
}

fn aging() -> AgingPolicy {
    AgingPolicy { quantum: Duration::from_secs(1), max_boost: u8::MAX }
}

fn scheduler(limits: OutboundLimits, aging: AgingPolicy) -> SchedulerState {
    SchedulerState::new(limits, aging).unwrap()
}

fn jobs(grants: &[Grant]) -> Vec<JobId> {
    grants.iter().map(|grant| grant.job).collect()
}

/// How many candidates wait behind the hold on a window.
fn parked(s: &SchedulerState, window: OutboundScope) -> Option<usize> {
    s.reservations.iter().find(|hold| hold.window == window).map(|hold| hold.queue.len())
}

fn fifo(s: &mut SchedulerState, meta: OutboundMeta, now: Instant) -> JobId {
    s.enqueue(meta, OutboundEnqueueMode::Fifo, None, now).unwrap().job
}

fn replace(
    s: &mut SchedulerState,
    meta: OutboundMeta,
    user_key: u64,
    now: Instant,
) -> EnqueueOutcome {
    s.enqueue(meta, OutboundEnqueueMode::ReplacePending { user_key }, None, now).unwrap()
}

#[test]
fn fifo_within_priority_and_lane() {
    let mut s = scheduler(limits(100), aging());
    let t0 = base();
    let a = fifo(&mut s, global(OutboundPriority::normal()), t0);
    let b = fifo(&mut s, global(OutboundPriority::normal()), t0);
    let c = fifo(&mut s, global(OutboundPriority::normal()), t0);
    assert_eq!(jobs(&s.grant_ready(t0)), vec![a, b, c]);
}

#[test]
fn fifo_survives_sequence_wraparound() {
    let mut s = scheduler(limits(100), aging());
    s.next_sequence = u64::MAX - 1;
    let t0 = base();
    let a = fifo(&mut s, global(OutboundPriority::normal()), t0);
    let b = fifo(&mut s, global(OutboundPriority::normal()), t0);
    let c = fifo(&mut s, global(OutboundPriority::normal()), t0);
    assert_eq!(jobs(&s.grant_ready(t0)), vec![a, b, c]);
}

#[test]
fn different_chats_do_not_block_each_other() {
    let mut s = scheduler(limits(100), aging());
    let t0 = base();
    let a = fifo(
        &mut s,
        meta(
            OutboundScope::Chat(OutboundChatKey::new(1)),
            Some(lane_key(1)),
            OutboundPriority::normal(),
        ),
        t0,
    );
    let b = fifo(
        &mut s,
        meta(
            OutboundScope::Chat(OutboundChatKey::new(2)),
            Some(lane_key(2)),
            OutboundPriority::normal(),
        ),
        t0,
    );
    assert_eq!(jobs(&s.grant_ready(t0)), vec![a, b]);
}

#[test]
fn one_lane_gets_no_second_permit_until_completion() {
    let mut s = scheduler(limits(100), aging());
    let t0 = base();
    let lane = Some(lane_key(1));
    let chat = OutboundScope::Chat(OutboundChatKey::new(1));
    let a = fifo(&mut s, meta(chat, lane, OutboundPriority::normal()), t0);
    let b = fifo(&mut s, meta(chat, lane, OutboundPriority::normal()), t0);
    assert_eq!(jobs(&s.grant_ready(t0)), vec![a]);
    assert!(s.grant_ready(t0).is_empty());
    s.complete(a, OutboundCompletion::Success, t0);
    assert_eq!(jobs(&s.grant_ready(t0)), vec![b]);
}

#[test]
fn global_and_chat_windows_apply_together() {
    let mut s = scheduler(
        OutboundLimits {
            global: vec![WindowLimit::new(1, Duration::from_millis(500))],
            chat: vec![WindowLimit::new(1, Duration::from_secs(10))],
        },
        aging(),
    );
    let t0 = base();
    let a = fifo(
        &mut s,
        meta(OutboundScope::Chat(OutboundChatKey::new(1)), None, OutboundPriority::normal()),
        t0,
    );
    assert_eq!(jobs(&s.grant_ready(t0)), vec![a]);

    // chat 2's window is free, but the global window is exhausted
    let b = fifo(
        &mut s,
        meta(OutboundScope::Chat(OutboundChatKey::new(2)), None, OutboundPriority::normal()),
        t0,
    );
    assert!(s.grant_ready(t0).is_empty());

    // the global window refilled, but chat 1's window is still exhausted
    let t1 = after(t0, Duration::from_millis(501));
    let c = fifo(
        &mut s,
        meta(OutboundScope::Chat(OutboundChatKey::new(1)), None, OutboundPriority::normal()),
        t1,
    );
    assert_eq!(jobs(&s.grant_ready(t1)), vec![b]);
    assert!(s.grant_ready(t1).is_empty());

    // chat 1's window refills as well
    let t2 = after(after(t0, Duration::from_secs(10)), Duration::from_millis(1));
    assert_eq!(jobs(&s.grant_ready(t2)), vec![c]);
}

#[test]
fn delayed_job_becomes_ready_exactly_at_its_deadline() {
    let mut s = scheduler(limits(100), aging());
    let t0 = base();
    let not_before = after(t0, Duration::from_secs(5));
    let a = s
        .enqueue(
            global(OutboundPriority::normal()),
            OutboundEnqueueMode::Fifo,
            Some(not_before),
            t0,
        )
        .unwrap()
        .job;
    assert!(s.grant_ready(t0).is_empty());
    assert_eq!(s.next_deadline(t0), SchedulerWakeup::At(not_before));
    assert!(s.grant_ready(after(t0, Duration::from_millis(4999))).is_empty());
    assert_eq!(jobs(&s.grant_ready(not_before)), vec![a]);
}

#[test]
fn cancelling_the_head_job_unblocks_the_next_one() {
    let mut s = scheduler(limits(100), aging());
    let t0 = base();
    let lane = Some(lane_key(1));
    let chat = OutboundScope::Chat(OutboundChatKey::new(1));
    let a = fifo(&mut s, meta(chat, lane, OutboundPriority::normal()), t0);
    let b = fifo(&mut s, meta(chat, lane, OutboundPriority::normal()), t0);
    s.cancel(a);
    assert_eq!(jobs(&s.grant_ready(t0)), vec![b]);
}

#[test]
fn cancelling_a_waiting_job_does_not_consume_budget() {
    let mut s = scheduler(limits(2), aging());
    let t0 = base();
    let a = fifo(&mut s, global(OutboundPriority::normal()), t0);
    let b = fifo(&mut s, global(OutboundPriority::normal()), t0);
    s.cancel(b);
    assert_eq!(jobs(&s.grant_ready(t0)), vec![a]);
    // the cancelled job never consumed window budget
    let c = fifo(&mut s, global(OutboundPriority::normal()), t0);
    assert_eq!(jobs(&s.grant_ready(t0)), vec![c]);
}

#[test]
fn critical_bypasses_background() {
    let mut s = scheduler(limits(100), aging());
    let t0 = base();
    let bg = fifo(&mut s, global(OutboundPriority::background()), t0);
    let critical = fifo(&mut s, global(OutboundPriority::critical()), t0);
    assert_eq!(jobs(&s.grant_ready(t0)), vec![critical, bg]);
}

#[test]
fn priorities_are_strictly_ordered() {
    let mut s = scheduler(limits(100), aging());
    let t0 = base();
    let background = fifo(&mut s, global(OutboundPriority::background()), t0);
    let normal = fifo(&mut s, global(OutboundPriority::normal()), t0);
    let interactive = fifo(&mut s, global(OutboundPriority::interactive()), t0);
    let critical = fifo(&mut s, global(OutboundPriority::critical()), t0);
    assert_eq!(jobs(&s.grant_ready(t0)), vec![critical, interactive, normal, background]);
}

#[test]
fn aging_prevents_background_starvation() {
    let mut s = scheduler(
        limits(100),
        AgingPolicy { quantum: Duration::from_millis(1), max_boost: u8::MAX },
    );
    let t0 = base();
    let bg = fifo(&mut s, global(OutboundPriority::lowest()), t0);
    let mut criticals = Vec::new();
    for i in 1..=4u64 {
        criticals.push(fifo(
            &mut s,
            global(OutboundPriority::highest()),
            after(t0, micros(i * 100)),
        ));
    }
    // after max_boost quanta the background job ties at the highest
    // level and outranks everything that arrived later (FIFO by age)
    let t1 = after(after(t0, Duration::from_millis(255)), micros(1));
    let mut granted = jobs(&s.grant_ready(t1));
    assert_eq!(granted.first(), Some(&bg));
    granted.remove(0);
    assert_eq!(granted, criticals);
}

#[test]
fn penalty_extension_keeps_the_later_deadline() {
    let mut s = scheduler(limits(100), aging());
    let t0 = base();
    let scope = OutboundScope::Chat(OutboundChatKey::new(1));
    s.penalize(scope, after(t0, Duration::from_secs(5)));
    s.penalize(scope, after(t0, Duration::from_secs(3))); // shorter: ignored
    let a = fifo(&mut s, meta(scope, None, OutboundPriority::critical()), t0);
    assert!(s.grant_ready(after(t0, Duration::from_secs(4))).is_empty());
    s.penalize(scope, after(t0, Duration::from_secs(7))); // longer: replaces
    assert!(s.grant_ready(after(t0, Duration::from_secs(6))).is_empty());
    assert_eq!(jobs(&s.grant_ready(after(t0, Duration::from_secs(7)))), vec![a]);
}

#[test]
fn same_priority_scoped_penalty_does_not_block_other_scopes() {
    let mut s = scheduler(limits(100), aging());
    let t0 = base();
    let _a = fifo(
        &mut s,
        meta(OutboundScope::Chat(OutboundChatKey::new(1)), None, OutboundPriority::normal()),
        t0,
    );
    let b = fifo(
        &mut s,
        meta(OutboundScope::Chat(OutboundChatKey::new(2)), None, OutboundPriority::normal()),
        t0,
    );
    s.penalize(OutboundScope::Chat(OutboundChatKey::new(1)), after(t0, Duration::from_secs(60)));
    // the penalized chat 1 job must not block the same-priority chat 2 job
    assert_eq!(jobs(&s.grant_ready(t0)), vec![b]);
}

#[test]
fn same_priority_chat_window_block_does_not_block_other_scopes() {
    let mut s = scheduler(
        OutboundLimits {
            global: vec![WindowLimit::new(100, Duration::from_secs(1))],
            chat: vec![WindowLimit::new(1, Duration::from_secs(60))],
        },
        aging(),
    );
    let t0 = base();
    let a = fifo(
        &mut s,
        meta(OutboundScope::Chat(OutboundChatKey::new(1)), None, OutboundPriority::normal()),
        t0,
    );
    assert_eq!(jobs(&s.grant_ready(t0)), vec![a]); // chat 1 window exhausted
    let b = fifo(
        &mut s,
        meta(OutboundScope::Chat(OutboundChatKey::new(2)), None, OutboundPriority::normal()),
        t0,
    );
    assert_eq!(jobs(&s.grant_ready(t0)), vec![b]); // chat 2 unaffected
}

#[test]
fn retry_after_blocks_only_the_scoped_chat() {
    let mut s = scheduler(limits(100), aging());
    let t0 = base();
    let _a = fifo(
        &mut s,
        meta(OutboundScope::Chat(OutboundChatKey::new(1)), None, OutboundPriority::critical()),
        t0,
    );
    let b = fifo(
        &mut s,
        meta(OutboundScope::Chat(OutboundChatKey::new(2)), None, OutboundPriority::background()),
        t0,
    );
    s.penalize(OutboundScope::Chat(OutboundChatKey::new(1)), after(t0, Duration::from_secs(60)));
    assert_eq!(jobs(&s.grant_ready(t0)), vec![b]);
    assert!(s.grant_ready(t0).is_empty());
}

#[test]
fn lane_order_is_strict_across_priorities() {
    let mut s = scheduler(limits(100), aging());
    let t0 = base();
    let lane = Some(lane_key(1));
    let chat = OutboundScope::Chat(OutboundChatKey::new(1));
    let a = fifo(&mut s, meta(chat, lane, OutboundPriority::normal()), t0);
    let b = fifo(&mut s, meta(chat, lane, OutboundPriority::critical()), t0);
    // the lane is strictly FIFO: the critical job cannot overtake
    assert_eq!(jobs(&s.grant_ready(t0)), vec![a]);
    s.complete(a, OutboundCompletion::Success, t0);
    assert_eq!(jobs(&s.grant_ready(t0)), vec![b]);
}

#[test]
fn delayed_lane_head_blocks_later_lane_jobs() {
    let mut s = scheduler(limits(100), aging());
    let t0 = base();
    let lane = Some(lane_key(1));
    let chat = OutboundScope::Chat(OutboundChatKey::new(1));
    let not_before = after(t0, Duration::from_secs(5));
    let a = s
        .enqueue(
            meta(chat, lane, OutboundPriority::normal()),
            OutboundEnqueueMode::Fifo,
            Some(not_before),
            t0,
        )
        .unwrap()
        .job;
    let b = fifo(&mut s, meta(chat, lane, OutboundPriority::critical()), t0);
    // the delayed head blocks the lane regardless of the later priority
    assert!(s.grant_ready(t0).is_empty());
    assert_eq!(jobs(&s.grant_ready(not_before)), vec![a]);
    s.complete(a, OutboundCompletion::Success, not_before);
    assert_eq!(jobs(&s.grant_ready(not_before)), vec![b]);
}

#[test]
fn completion_releases_the_lane_exactly_once() {
    let mut s = scheduler(limits(100), aging());
    let t0 = base();
    let lane = Some(lane_key(1));
    let chat = OutboundScope::Chat(OutboundChatKey::new(1));
    let a = fifo(&mut s, meta(chat, lane, OutboundPriority::normal()), t0);
    let b = fifo(&mut s, meta(chat, lane, OutboundPriority::normal()), t0);
    assert_eq!(jobs(&s.grant_ready(t0)), vec![a]);
    s.complete(a, OutboundCompletion::Success, t0);
    s.complete(a, OutboundCompletion::Success, t0); // no-op
    assert_eq!(jobs(&s.grant_ready(t0)), vec![b]);
}

#[test]
fn failed_completion_does_not_refund_the_window_budget() {
    let mut s = scheduler(limits(1), aging());
    let t0 = base();
    let a = fifo(&mut s, global(OutboundPriority::normal()), t0);
    assert_eq!(jobs(&s.grant_ready(t0)), vec![a]);
    s.complete(a, OutboundCompletion::Failed, t0);
    let _b = fifo(&mut s, global(OutboundPriority::normal()), t0);
    assert!(s.grant_ready(t0).is_empty());
}

#[test]
fn cancelled_after_grant_releases_the_lane_without_refunding() {
    let mut s = scheduler(limits(2), aging());
    let t0 = base();
    let lane = Some(lane_key(1));
    let scope = OutboundScope::Chat(OutboundChatKey::new(1));
    let a = fifo(&mut s, meta(scope, lane, OutboundPriority::normal()), t0);
    assert_eq!(jobs(&s.grant_ready(t0)), vec![a]);

    // the permit was dropped without an explicit completion
    s.complete(a, OutboundCompletion::CancelledAfterGrant, t0);

    // the lane is released, but the window budget is not refunded
    let b = fifo(&mut s, meta(scope, lane, OutboundPriority::normal()), t0);
    assert_eq!(jobs(&s.grant_ready(t0)), vec![b]);
    let _c = fifo(&mut s, global(OutboundPriority::normal()), t0);
    assert!(s.grant_ready(t0).is_empty());
}

#[test]
fn retry_after_completion_penalizes_the_reported_scope() {
    let mut s = scheduler(limits(100), aging());
    let t0 = base();
    let chat = OutboundChatKey::new(1);
    let a = fifo(&mut s, meta(OutboundScope::Chat(chat), None, OutboundPriority::normal()), t0);
    assert_eq!(jobs(&s.grant_ready(t0)), vec![a]);
    s.complete(
        a,
        OutboundCompletion::RetryAfter {
            scope: OutboundScope::Chat(chat),
            duration: Duration::from_secs(5),
        },
        t0,
    );
    let b = fifo(&mut s, meta(OutboundScope::Chat(chat), None, OutboundPriority::critical()), t0);
    assert!(s.grant_ready(after(t0, Duration::from_secs(4))).is_empty());
    assert_eq!(jobs(&s.grant_ready(after(t0, Duration::from_secs(5)))), vec![b]);
}

#[test]
fn global_retry_after_from_a_chat_request() {
    let mut s = scheduler(limits(100), aging());
    let t0 = base();
    let a = fifo(
        &mut s,
        meta(OutboundScope::Chat(OutboundChatKey::new(1)), None, OutboundPriority::normal()),
        t0,
    );
    assert_eq!(jobs(&s.grant_ready(t0)), vec![a]);
    // a chat request can report a *global* flood penalty
    s.complete(
        a,
        OutboundCompletion::RetryAfter {
            scope: OutboundScope::Global,
            duration: Duration::from_secs(5),
        },
        t0,
    );
    // the global penalty blocks every scope
    let b = fifo(
        &mut s,
        meta(OutboundScope::Chat(OutboundChatKey::new(2)), None, OutboundPriority::critical()),
        t0,
    );
    assert!(s.grant_ready(after(t0, Duration::from_secs(4))).is_empty());
    assert_eq!(jobs(&s.grant_ready(after(t0, Duration::from_secs(5)))), vec![b]);
}

#[test]
fn pending_job_is_replaced_and_the_old_one_is_superseded() {
    let mut s = scheduler(limits(100), aging());
    let t0 = base();
    let a = replace(&mut s, global(OutboundPriority::normal()), 7, t0);
    let outcome = replace(&mut s, global(OutboundPriority::normal()), 7, t0);
    assert_eq!(outcome.superseded, Some(a.job));
    assert_eq!(jobs(&s.grant_ready(t0)), vec![outcome.job]);
}

#[test]
fn replacement_inherits_the_queue_position() {
    let mut s = scheduler(limits(100), aging());
    let t0 = base();
    let a = fifo(&mut s, global(OutboundPriority::normal()), t0);
    let b = replace(&mut s, global(OutboundPriority::normal()), 7, t0);
    let c = fifo(&mut s, global(OutboundPriority::normal()), t0);
    // the replacement keeps b's position instead of joining the tail
    let outcome = replace(&mut s, global(OutboundPriority::normal()), 7, t0);
    assert_eq!(outcome.superseded, Some(b.job));
    assert_eq!(jobs(&s.grant_ready(t0)), vec![a, outcome.job, c]);
}

#[test]
fn cancelling_the_superseded_job_id_does_not_remove_the_replacement() {
    let mut s = scheduler(limits(100), aging());
    let t0 = base();
    let a = replace(&mut s, global(OutboundPriority::normal()), 7, t0);
    let outcome = replace(&mut s, global(OutboundPriority::normal()), 7, t0);
    s.cancel(a.job); // the old id is invalidated: must not remove the replacement
    assert_eq!(jobs(&s.grant_ready(t0)), vec![outcome.job]);
}

#[test]
fn in_flight_jobs_are_not_replaced() {
    let mut s = scheduler(limits(100), aging());
    let t0 = base();
    let lane = Some(lane_key(1));
    let scope = OutboundScope::Chat(OutboundChatKey::new(1));
    let old = replace(&mut s, meta(scope, lane, OutboundPriority::normal()), 1, t0);
    assert_eq!(jobs(&s.grant_ready(t0)), vec![old.job]);

    // the in-flight job is never replaced: the new job becomes pending
    let fresh = replace(&mut s, meta(scope, lane, OutboundPriority::normal()), 1, t0);
    assert_eq!(fresh.superseded, None);
    assert!(s.grant_ready(t0).is_empty()); // lane is locked

    // after the old completes, the latest pending runs
    s.complete(old.job, OutboundCompletion::Success, t0);
    assert_eq!(jobs(&s.grant_ready(t0)), vec![fresh.job]);
}

#[test]
fn exactly_one_latest_pending_remains_behind_in_flight() {
    let mut s = scheduler(limits(100), aging());
    let t0 = base();
    let lane = Some(lane_key(1));
    let scope = OutboundScope::Chat(OutboundChatKey::new(1));
    let old = replace(&mut s, meta(scope, lane, OutboundPriority::normal()), 1, t0);
    assert_eq!(jobs(&s.grant_ready(t0)), vec![old.job]);

    let a = replace(&mut s, meta(scope, lane, OutboundPriority::normal()), 1, t0);
    let b = replace(&mut s, meta(scope, lane, OutboundPriority::normal()), 1, t0);
    let c = replace(&mut s, meta(scope, lane, OutboundPriority::normal()), 1, t0);
    assert_eq!(a.superseded, None);
    assert_eq!(b.superseded, Some(a.job));
    assert_eq!(c.superseded, Some(b.job));

    s.complete(old.job, OutboundCompletion::Success, t0);
    assert_eq!(jobs(&s.grant_ready(t0)), vec![c.job]);
}

#[test]
fn replacement_does_not_debit_rate_budget() {
    let mut s = scheduler(limits(1), aging());
    let t0 = base();
    let a = replace(&mut s, global(OutboundPriority::normal()), 7, t0);
    let outcome = replace(&mut s, global(OutboundPriority::normal()), 7, t0);
    assert_eq!(outcome.superseded, Some(a.job));
    // the superseded job was never granted, so the window holds one unit
    assert_eq!(jobs(&s.grant_ready(t0)), vec![outcome.job]);
    let _x = fifo(&mut s, global(OutboundPriority::normal()), t0);
    assert!(s.grant_ready(t0).is_empty());
}

#[test]
fn replacement_keeps_the_penalty_scope() {
    let mut s = scheduler(limits(100), aging());
    let t0 = base();
    let scope = OutboundScope::Chat(OutboundChatKey::new(1));
    let a = replace(&mut s, meta(scope, None, OutboundPriority::normal()), 1, t0);
    s.penalize(scope, after(t0, Duration::from_secs(60)));
    let outcome = replace(&mut s, meta(scope, None, OutboundPriority::normal()), 1, t0);
    assert_eq!(outcome.superseded, Some(a.job));
    assert!(s.grant_ready(t0).is_empty());
}

#[test]
fn hot_latest_wins_slot_keeps_its_scheduling_age() {
    let mut s = scheduler(
        limits(100),
        AgingPolicy { quantum: Duration::from_millis(1), max_boost: u8::MAX },
    );
    let t0 = base();
    let _first = replace(&mut s, global(OutboundPriority::lowest()), 7, t0);
    // the lowest-priority slot is replaced every half quantum while
    // highest-priority jobs keep arriving; the inherited age must keep
    // growing through the replacements
    let mut last = None;
    for i in 1..=10u64 {
        let t = after(t0, micros(i * 500));
        last = Some(replace(&mut s, global(OutboundPriority::lowest()), 7, t).job);
        let _critical = fifo(&mut s, global(OutboundPriority::highest()), t);
    }
    // after max_boost quanta the slot reaches the highest level and,
    // being the oldest at that level, is granted before the flood
    let t1 = after(after(t0, Duration::from_millis(255)), micros(1));
    let granted = jobs(&s.grant_ready(t1));
    assert_eq!(granted.first(), Some(&last.unwrap()));
}

#[test]
fn hot_latest_wins_key_does_not_bloat_the_queue() {
    let mut s = scheduler(limits(100), aging());
    let t0 = base();
    let mut superseded = 0;
    let mut last = None;
    for _ in 0..10 {
        let outcome = replace(&mut s, global(OutboundPriority::normal()), 7, t0);
        superseded += usize::from(outcome.superseded.is_some());
        last = Some(outcome.job);
    }
    assert_eq!(superseded, 9);
    assert_eq!(jobs(&s.grant_ready(t0)), vec![last.unwrap()]);
}

#[test]
fn replacement_does_not_break_fifo_of_other_lanes() {
    let mut s = scheduler(limits(100), aging());
    let t0 = base();
    let scope_a = OutboundScope::Chat(OutboundChatKey::new(1));
    let scope_b = OutboundScope::Chat(OutboundChatKey::new(2));
    let a1 = replace(
        &mut s,
        meta(scope_a, Some(lane_key(1)), OutboundPriority::normal()),
        1,
        t0,
    );
    let b1 = replace(
        &mut s,
        meta(scope_b, Some(lane_key(2)), OutboundPriority::normal()),
        1,
        t0,
    );
    // replacing the head of lane A must not push it behind lane B
    let a2 = replace(
        &mut s,
        meta(scope_a, Some(lane_key(1)), OutboundPriority::normal()),
        1,
        t0,
    );
    let b2 = replace(
        &mut s,
        meta(scope_b, Some(lane_key(2)), OutboundPriority::normal()),
        1,
        t0,
    );
    assert_eq!(a2.superseded, Some(a1.job));
    assert_eq!(b2.superseded, Some(b1.job));
    assert_eq!(jobs(&s.grant_ready(t0)), vec![a2.job, b2.job]);
}

#[test]
fn coalesce_slot_is_bound_to_the_request_metadata() {
    let mut s = scheduler(limits(100), aging());
    let t0 = base();
    let a = replace(
        &mut s,
        meta(OutboundScope::Chat(OutboundChatKey::new(1)), None, OutboundPriority::normal()),
        7,
        t0,
    );
    // the same user key with a different scope is a different slot
    let b = replace(
        &mut s,
        meta(OutboundScope::Chat(OutboundChatKey::new(2)), None, OutboundPriority::normal()),
        7,
        t0,
    );
    assert_eq!(b.superseded, None);

    // a different class is a different slot as well
    let c = replace(
        &mut s,
        meta_with_class(
            OutboundScope::Chat(OutboundChatKey::new(1)),
            None,
            OutboundPriority::normal(),
            9,
        ),
        7,
        t0,
    );
    assert_eq!(c.superseded, None);

    // none of the replacements collided: all three jobs are still pending
    // and are granted in FIFO order
    assert_eq!(jobs(&s.grant_ready(t0)), vec![a.job, b.job, c.job]);
}

#[test]
fn incompatible_weight_is_an_explicit_error() {
    let mut s = scheduler(limits(100), aging());
    let t0 = base();
    let a = replace(&mut s, global(OutboundPriority::normal()), 7, t0);
    let heavy = OutboundMeta {
        weight: NonZeroU32::new(10).unwrap(),
        ..global(OutboundPriority::normal())
    };
    assert_eq!(
        s.enqueue(heavy, OutboundEnqueueMode::ReplacePending { user_key: 7 }, None, t0),
        Err(EnqueueError::IncompatibleCoalesceMetadata)
    );
    // the old job is untouched and still grants
    assert_eq!(jobs(&s.grant_ready(t0)), vec![a.job]);
}

#[test]
fn alternating_weights_do_not_bloat_the_queue() {
    let mut s = scheduler(limits(100), aging());
    let t0 = base();
    let mut last = replace(&mut s, global(OutboundPriority::normal()), 7, t0).job;
    for i in 0..10u32 {
        let weight = if i % 2 == 0 { 10 } else { 1 };
        let meta = OutboundMeta {
            weight: NonZeroU32::new(weight).unwrap(),
            ..global(OutboundPriority::normal())
        };
        match s.enqueue(meta, OutboundEnqueueMode::ReplacePending { user_key: 7 }, None, t0) {
            Ok(outcome) => {
                assert_eq!(outcome.superseded, Some(last));
                last = outcome.job;
            }
            Err(EnqueueError::IncompatibleCoalesceMetadata)
            | Err(EnqueueError::WeightExceedsWindow { .. })
            | Err(EnqueueError::QueueFull) => {}
        }
    }
    // exactly one pending job remains despite the weight alternation
    assert_eq!(jobs(&s.grant_ready(t0)), vec![last]);
}

#[test]
fn stale_coalesce_entries_are_removed_on_grant_and_cancel() {
    let mut s = scheduler(limits(100), aging());
    let t0 = base();
    let meta = global(OutboundPriority::normal());
    let key = CoalesceKey {
        scope: meta.scope,
        lane: meta.lane,
        class: meta.class,
        user_key: 7,
    };
    let a = replace(&mut s, meta, 7, t0);
    assert_eq!(s.coalesce.get(key), Some(a.job));
    // after the grant the slot is cleaned up
    assert_eq!(jobs(&s.grant_ready(t0)), vec![a.job]);
    assert!(s.coalesce.len() == 0);
    // and after a cancel too
    let b = replace(&mut s, global(OutboundPriority::normal()), 7, t0);
    s.cancel(b.job);
    assert!(s.coalesce.len() == 0);
}

#[test]
fn delayed_latest_wins_does_not_bloat_the_delayed_heap() {
    let mut s = scheduler(limits(100), aging());
    let t0 = base();
    let not_before = after(t0, Duration::from_secs(60));
    let mut first = true;
    for _ in 0..100 {
        let outcome = s
            .enqueue(
                global(OutboundPriority::normal()),
                OutboundEnqueueMode::ReplacePending { user_key: 7 },
                Some(not_before),
                t0,
            )
            .unwrap();
        if first {
            assert_eq!(outcome.superseded, None);
            first = false;
        } else {
            assert!(outcome.superseded.is_some());
        }
    }
    // stale heap entries are compacted: only one live delayed job remains
    assert!(s.delayed.len() <= 8, "heap grew to {} entries", s.delayed.len());
}

#[test]
fn expired_penalties_are_pruned() {
    let mut s = scheduler(limits(100), aging());
    let t0 = base();
    s.penalize(OutboundScope::Global, after(t0, Duration::from_secs(5)));
    assert!(s.penalties.get(OutboundScope::Global).is_some());
    s.grant_ready(after(t0, Duration::from_secs(6))); // triggers the prune
    assert!(s.penalties.is_empty());
}

#[test]
fn idle_chat_windows_are_pruned() {
    let mut s = scheduler(limits(100), aging());
    let t0 = base();
    let a = fifo(
        &mut s,
        meta(OutboundScope::Chat(OutboundChatKey::new(1)), None, OutboundPriority::normal()),
        t0,
    );
    assert_eq!(jobs(&s.grant_ready(t0)), vec![a]);
    assert!(s.chat_window_sets.contains(1));
    // after the window expires, the idle set is pruned
    s.grant_ready(after(t0, Duration::from_secs(2)));
    assert!(s.chat_window_sets.is_empty());
}

#[test]
fn next_deadline_does_not_return_now_for_a_blocked_candidate() {
    let mut s = scheduler(
        OutboundLimits {
            global: vec![WindowLimit::new(100, Duration::from_secs(1))],
            chat: vec![WindowLimit::new(1, Duration::from_secs(10))],
        },
        aging(),
    );
    let t0 = base();
    let a = fifo(
        &mut s,
        meta(OutboundScope::Chat(OutboundChatKey::new(1)), None, OutboundPriority::normal()),
        t0,
    );
    assert_eq!(jobs(&s.grant_ready(t0)), vec![a]); // chat 1 window exhausted
    let _b = fifo(
        &mut s,
        meta(OutboundScope::Chat(OutboundChatKey::new(1)), None, OutboundPriority::normal()),
        t0,
    );
    assert!(s.grant_ready(t0).is_empty());
    // the global window is free, but the chat window is not: the
    // candidate's constraints are AND-ed, so the wake-up is the max
    match s.next_deadline(t0) {
        SchedulerWakeup::At(at) => assert_eq!(at, after(t0, Duration::from_secs(10))),
        other => panic!("expected a future wake-up, got {other:?}"),
    }
}

#[test]
fn oversized_weight_is_rejected_at_enqueue() {
    let mut s = scheduler(limits(1), aging());
    let t0 = base();
    let heavy = OutboundMeta {
        weight: NonZeroU32::new(2).unwrap(),
        ..global(OutboundPriority::normal())
    };
    // the weight exceeds the window capacity: the job could never be
    // granted, so it is rejected instead of waiting forever
    assert_eq!(
        s.enqueue(heavy, OutboundEnqueueMode::Fifo, None, t0),
        Err(EnqueueError::WeightExceedsWindow {
            scope: OutboundScope::Global,
            weight: NonZeroU32::new(2).unwrap(),
            capacity: 1,
        })
    );
    // the scheduler state is unchanged and nothing schedules a wake-up
    assert_eq!(s.grant_ready(t0), vec![]);
    assert_eq!(s.next_deadline(t0), SchedulerWakeup::ExternalEvent);
}

#[test]
fn aging_policy_must_span_the_full_priority_range() {
    assert!(matches!(
        SchedulerState::new(
            limits(100),
            AgingPolicy { quantum: Duration::from_secs(1), max_boost: 3 },
        ),
        Err(SchedulerConfigError::AgingCannotReachHighest { max_boost: 3 })
    ));
    // a spanning policy is accepted
    let _ = SchedulerState::new(limits(100), aging()).unwrap();
}

#[test]
fn invalid_window_configs_are_rejected() {
    assert!(matches!(
        SchedulerState::new(
            OutboundLimits {
                global: vec![WindowLimit::new(0, Duration::from_secs(1))],
                chat: vec![],
            },
            aging(),
        ),
        Err(SchedulerConfigError::ZeroWindowCapacity)
    ));
    assert!(matches!(
        SchedulerState::new(
            OutboundLimits {
                global: vec![WindowLimit::new(1, Duration::zero())],
                chat: vec![],
            },
            aging(),
        ),
        Err(SchedulerConfigError::ZeroWindowDuration)
    ));
    assert!(matches!(
        SchedulerState::new(
            limits(100),
            AgingPolicy { quantum: Duration::zero(), max_boost: u8::MAX },
        ),
        Err(SchedulerConfigError::ZeroAgingQuantum)
    ));
}

#[test]
fn empty_chat_window_set_admits_everything() {
    let mut s = scheduler(
        OutboundLimits {
            global: vec![WindowLimit::new(1, Duration::from_secs(1))],
            chat: vec![],
        },
        aging(),
    );
    let t0 = base();
    let a = fifo(
        &mut s,
        meta(OutboundScope::Chat(OutboundChatKey::new(1)), None, OutboundPriority::normal()),
        t0,
    );
    assert_eq!(jobs(&s.grant_ready(t0)), vec![a]);
    // the empty set admits everything and is pruned right away
    assert!(s.chat_window_sets.is_empty());
}

#[test]
fn multiple_windows_in_one_set_all_must_pass() {
    let mut s = scheduler(
        OutboundLimits {
            global: vec![
                WindowLimit::new(1, Duration::from_secs(1)),
                WindowLimit::new(1, Duration::from_secs(5)),
            ],
            chat: vec![],
        },
        aging(),
    );
    let t0 = base();
    let a = fifo(&mut s, global(OutboundPriority::normal()), t0);
    assert_eq!(jobs(&s.grant_ready(t0)), vec![a]); // both windows consumed
    let b = fifo(&mut s, global(OutboundPriority::normal()), t0);
    assert!(s.grant_ready(t0).is_empty());
    // the candidate is ready when the *last* blocking window frees it
    match s.next_deadline(t0) {
        SchedulerWakeup::At(at) => assert_eq!(at, after(t0, Duration::from_secs(5))),
        other => panic!("expected a future wake-up, got {other:?}"),
    }
    assert_eq!(jobs(&s.grant_ready(after(t0, Duration::from_secs(5)))), vec![b]);
}

#[test]
fn delayed_replacement_waits_for_its_own_not_before() {
    let mut s = scheduler(limits(100), aging());
    let t0 = base();
    let a_outcome = s
        .enqueue(
            global(OutboundPriority::normal()),
            OutboundEnqueueMode::ReplacePending { user_key: 7 },
            Some(after(t0, Duration::from_secs(10))),
            t0,
        )
        .unwrap();
    assert_eq!(a_outcome.superseded, None);
    let a = a_outcome.job;
    let b_outcome = s
        .enqueue(
            global(OutboundPriority::normal()),
            OutboundEnqueueMode::ReplacePending { user_key: 7 },
            Some(after(t0, Duration::from_secs(20))),
            t0,
        )
        .unwrap();
    assert_eq!(b_outcome.superseded, Some(a));
    let b = b_outcome.job;
    // the old deadline does not leak into the replacement
    assert!(s.grant_ready(after(t0, Duration::from_secs(10))).is_empty());
    assert_eq!(jobs(&s.grant_ready(after(t0, Duration::from_secs(20)))), vec![b]);
}

#[test]
fn delayed_replacement_keeps_blocking_its_lane() {
    let mut s = scheduler(limits(100), aging());
    let t0 = base();
    let lane = Some(lane_key(1));
    let scope = OutboundScope::Chat(OutboundChatKey::new(1));
    let old_outcome = s
        .enqueue(
            meta(scope, lane, OutboundPriority::normal()),
            OutboundEnqueueMode::ReplacePending { user_key: 1 },
            Some(after(t0, Duration::from_secs(10))),
            t0,
        )
        .unwrap();
    assert_eq!(old_outcome.superseded, None);
    let old = old_outcome.job;
    let fresh_outcome = s
        .enqueue(
            meta(scope, lane, OutboundPriority::normal()),
            OutboundEnqueueMode::ReplacePending { user_key: 1 },
            Some(after(t0, Duration::from_secs(20))),
            t0,
        )
        .unwrap();
    assert_eq!(fresh_outcome.superseded, Some(old));
    let fresh = fresh_outcome.job;
    let later = fifo(&mut s, meta(scope, lane, OutboundPriority::critical()), t0);
    // the delayed lane head blocks the whole lane regardless of priority
    assert!(s.grant_ready(after(t0, Duration::from_secs(10))).is_empty());
    assert_eq!(jobs(&s.grant_ready(after(t0, Duration::from_secs(20)))), vec![fresh]);
    s.complete(fresh, OutboundCompletion::Success, after(t0, Duration::from_secs(20)));
    assert_eq!(jobs(&s.grant_ready(after(t0, Duration::from_secs(20)))), vec![later]);
}

#[test]
fn stale_delayed_counter_stays_consistent() {
    let mut s = scheduler(limits(100), aging());
    let t0 = base();
    let not_before = after(t0, Duration::from_secs(60));
    let mut ids = Vec::new();
    for i in 0..20u64 {
        ids.push(
            s.enqueue(
                global(OutboundPriority::normal()),
                OutboundEnqueueMode::ReplacePending { user_key: i },
                Some(not_before),
                t0,
            )
            .unwrap()
            .job,
        );
    }
    // a delayed job cancelled after the last compaction leaves a stale
    // heap entry that must be dropped exactly once at promotion time
    s.cancel(ids[19]);
    assert_eq!(jobs(&s.grant_ready(not_before)), ids[..19].to_vec());
}

#[test]
fn lane_fifo_survives_order_wraparound() {
    let mut s = scheduler(limits(100), aging());
    let t0 = base();
    let lane = lane_key(1);
    let chat = OutboundScope::Chat(OutboundChatKey::new(1));
    // make the lane's own order counter wrap around
    s.lanes.insert(
        lane.value,
        LaneState {
            pending: VecDeque::new(),
            in_flight: None,
            next_order: u64::MAX - 1,
            stale: 0,
            in_candidate_heap: false,
            candidate_effective: 0,
        },
    );
    let a = fifo(&mut s, meta(chat, Some(lane), OutboundPriority::normal()), t0);
    let b = fifo(&mut s, meta(chat, Some(lane), OutboundPriority::normal()), t0);
    let c = fifo(&mut s, meta(chat, Some(lane), OutboundPriority::normal()), t0);
    // the lane is strictly FIFO across the counter wraparound
    assert_eq!(jobs(&s.grant_ready(t0)), vec![a]);
    s.complete(a, OutboundCompletion::Success, t0);
    assert_eq!(jobs(&s.grant_ready(t0)), vec![b]);
    s.complete(b, OutboundCompletion::Success, t0);
    assert_eq!(jobs(&s.grant_ready(t0)), vec![c]);
}

#[test]
fn lane_order_rebase_at_base_zero_keeps_fifo() {
    let mut s = scheduler(limits(100), aging());
    let t0 = base();
    let lane = lane_key(1);
    let chat = OutboundScope::Chat(OutboundChatKey::new(1));
    let head = fifo(&mut s, meta(chat, Some(lane), OutboundPriority::normal()), t0);
    // churn behind the head: superseded records stay as stale entries
    let mut live = None;
    for _ in 0..5u64 {
        let outcome = s
            .enqueue(
                meta(chat, Some(lane), OutboundPriority::normal()),
                OutboundEnqueueMode::ReplacePending { user_key: 1 },
                None,
                t0,
            )
            .unwrap();
        live = Some(outcome.job);
    }
    // simulate the wrap: the counter is 0 while a live order-0 head is
    // still pending (a window shift by the head order would overflow)
    let mut state = s.lanes.remove(lane.value).unwrap();
    state.next_order = 0;
    s.lanes.insert(lane.value, state);
    let fresh = fifo(&mut s, meta(chat, Some(lane), OutboundPriority::normal()), t0);
    // the dense rebase keeps the FIFO order across the wrap
    assert_eq!(jobs(&s.grant_ready(t0)), vec![head]);
    s.complete(head, OutboundCompletion::Success, t0);
    assert_eq!(jobs(&s.grant_ready(t0)), vec![live.unwrap()]);
    s.complete(live.unwrap(), OutboundCompletion::Success, t0);
    assert_eq!(jobs(&s.grant_ready(t0)), vec![fresh]);
}

#[test]
fn cancelling_a_lanes_only_job_removes_the_lane() {
    let mut s = scheduler(limits(100), aging());
    let t0 = base();
    let lane = lane_key(1);
    let chat = OutboundScope::Chat(OutboundChatKey::new(1));
    let a = fifo(&mut s, meta(chat, Some(lane), OutboundPriority::normal()), t0);
    s.cancel(a);
    assert!(s.lanes.contains(lane.value));
    s.grant_ready(t0);
    assert!(!s.lanes.contains(lane.value), "a lane with no jobs must be removed");
}

#[test]
fn churn_behind_a_blocked_top_candidate_is_parked_and_bounded() {
    let mut s = scheduler(limits(10), aging());
    let t0 = base();
    // fill the global window so that a weight-10 job cannot fit now
    let lights: Vec<_> =
        (0..10).map(|_| fifo(&mut s, global(OutboundPriority::normal()), t0)).collect();
    assert_eq!(jobs(&s.grant_ready(t0)), lights);
    // a heavy job that cannot fit now
    let heavy = OutboundMeta {
        weight: NonZeroU32::new(10).unwrap(),
        ..global(OutboundPriority::normal())
    };
    let heavy_job = fifo(&mut s, heavy, t0);
    // latest-wins churn behind it: every replacement supersedes the
    // previous pending job
    let mut live = None;
    for _ in 0..100u64 {
        let outcome = s
            .enqueue(
                global(OutboundPriority::normal()),
                OutboundEnqueueMode::ReplacePending { user_key: 7 },
                None,
                t0,
            )
            .unwrap();
        live = Some(outcome.job);
    }
    s.grant_ready(t0);
    // the heavy candidate is blocked (reserving the window) and the
    // churn tail is parked in the reservation queue; no candidates
    // remain in the heap
    assert_eq!(s.blocked.len(), 1, "the heavy job must be the blocked head");
    let parked = parked(&s, OutboundScope::Global).unwrap_or(0);
    assert_eq!(parked, 1, "the churn tail must be parked, got {parked}");
    assert!(s.candidates.is_empty(), "no candidates may remain after grant_ready");
    // once the window drains, the heavy job is granted first; the tail
    // waits for the window to free again
    let t1 = after(t0, Duration::from_secs(1));
    assert_eq!(jobs(&s.grant_ready(t1)), vec![heavy_job]);
    assert_eq!(jobs(&s.grant_ready(after(t1, Duration::from_secs(1)))), vec![live.unwrap()]);
}

#[test]
fn churn_behind_a_live_lane_head_stays_bounded() {
    let mut s = scheduler(limits(100), aging());
    let t0 = base();
    let lane = Some(lane_key(1));
    let chat = OutboundScope::Chat(OutboundChatKey::new(1));
    // a live delayed lane head blocks the lane and the compaction
    let _head = s
        .enqueue(
            meta(chat, lane, OutboundPriority::normal()),
            OutboundEnqueueMode::Fifo,
            Some(after(t0, Duration::from_secs(60))),
            t0,
        )
        .unwrap()
        .job;
    // latest-wins churn behind the head
    for _ in 0..100u64 {
        let _ = s
            .enqueue(
                meta(chat, lane, OutboundPriority::normal()),
                OutboundEnqueueMode::ReplacePending { user_key: 1 },
                None,
                t0,
            )
            .unwrap();
    }
    s.grant_ready(t0); // triggers the lane compaction
    let lane_state = s.lanes.get(1).unwrap();
    assert!(
        lane_state.pending.len() <= 3,
        "lane pending grew to {} entries",
        lane_state.pending.len()
    );
}

#[test]
fn delayed_to_ready_replacement_restarts_aging() {
    let mut s = scheduler(
        limits(100),
        AgingPolicy { quantum: Duration::from_millis(1), max_boost: u8::MAX },
    );
    let t0 = base();
    let _old = s
        .enqueue(
            global(OutboundPriority::lowest()),
            OutboundEnqueueMode::ReplacePending { user_key: 7 },
            Some(after(t0, Duration::from_millis(100))),
            t0,
        )
        .unwrap()
        .job;
    // the delayed job is replaced by an immediate one at t0 + 90
    let fresh = s
        .enqueue(
            global(OutboundPriority::lowest()),
            OutboundEnqueueMode::ReplacePending { user_key: 7 },
            None,
            after(t0, Duration::from_millis(90)),
        )
        .unwrap()
        .job;
    // a mid-priority job enqueued at the same moment
    let mid = s
        .enqueue(
            global(OutboundPriority::new(50)),
            OutboundEnqueueMode::Fifo,
            None,
            after(t0, Duration::from_millis(90)),
        )
        .unwrap()
        .job;
    // at t0 + 91 the fresh job has waited 1ms (boost 1) while the mid
    // job sits at 50, so it
    // must not inherit the delayed job's ready_at (boost 91)
    let granted = jobs(&s.grant_ready(after(t0, Duration::from_millis(91))));
    assert_eq!(granted, vec![mid, fresh]);
}

#[test]
fn cancelling_many_delayed_jobs_compacts_the_heap() {
    let mut s = scheduler(limits(100), aging());
    let t0 = base();
    let not_before = after(t0, Duration::from_secs(60));
    let mut ids = Vec::new();
    for _ in 0..10_000u64 {
        ids.push(
            s.enqueue(
                global(OutboundPriority::normal()),
                OutboundEnqueueMode::Fifo,
                Some(not_before),
                t0,
            )
            .unwrap()
            .job,
        );
    }
    // a cancel-only churn must not leave a bloated heap behind
    for id in &ids {
        s.cancel(*id);
    }
    assert_eq!(jobs(&s.grant_ready(after(not_before, Duration::from_secs(1)))), vec![]);
    assert!(s.delayed.is_empty(), "the delayed heap must be compacted");
}

#[test]
fn heavy_aged_job_is_not_starved_by_light_traffic() {
    let mut s = scheduler(
        OutboundLimits {
            global: vec![WindowLimit::new(10, Duration::from_secs(1))],
            chat: vec![],
        },
        AgingPolicy { quantum: Duration::from_millis(1), max_boost: u8::MAX },
    );
    let t0 = base();
    // five light jobs occupy half of the window
    let lights: Vec<_> =
        (0..5).map(|_| fifo(&mut s, global(OutboundPriority::normal()), t0)).collect();
    assert_eq!(jobs(&s.grant_ready(t0)), lights); // window 5/10
    // a heavy job has been waiting long enough to age to the top
    let heavy = OutboundMeta {
        weight: NonZeroU32::new(10).unwrap(),
        ..global(OutboundPriority::lowest())
    };
    let heavy_job = s
        .enqueue(heavy, OutboundEnqueueMode::Fifo, None, before(t0, Duration::from_millis(256)))
        .unwrap()
        .job;
    // an endless stream of light jobs keeps arriving, one per tick
    let mut granted_heavy = false;
    for i in 1..=1200u64 {
        let t = after(t0, Duration::from_millis(i));
        let _ = fifo(&mut s, global(OutboundPriority::normal()), t);
        if jobs(&s.grant_ready(t)).contains(&heavy_job) {
            granted_heavy = true;
            break;
        }
    }
    assert!(granted_heavy, "the heavy aged job must be granted within finite time");
}

#[test]
fn cancelling_a_parked_lane_head_wakes_the_next_lane_job() {
    let mut s = scheduler(limits(1), aging());
    let t0 = base();
    let lane = Some(lane_key(1));
    let chat1 = OutboundScope::Chat(OutboundChatKey::new(1));
    let chat2 = OutboundScope::Chat(OutboundChatKey::new(2));
    // a chat-1 job fills both windows
    let a = fifo(&mut s, meta(chat1, None, OutboundPriority::normal()), t0);
    assert_eq!(jobs(&s.grant_ready(t0)), vec![a]);
    // a second chat-1 job is blocked and reserves the global window
    let b = fifo(&mut s, meta(chat1, None, OutboundPriority::normal()), t0);
    assert!(s.grant_ready(t0).is_empty());
    // a lane head is parked by the reservation and then cancelled
    let head = fifo(&mut s, meta(chat2, lane, OutboundPriority::normal()), t0);
    let next = fifo(&mut s, meta(chat2, lane, OutboundPriority::normal()), t0);
    assert!(s.grant_ready(t0).is_empty());
    s.cancel(head);
    // when the reservation expires the woken jobs drain in FIFO order:
    // b (older), then the lane's next head (the parked one was dead)
    let t1 = after(t0, Duration::from_secs(1));
    assert_eq!(jobs(&s.grant_ready(t1)), vec![b]);
    assert_eq!(jobs(&s.grant_ready(after(t1, Duration::from_secs(1)))), vec![next]);
}

#[test]
fn replacing_a_queued_lane_head_rekeys_the_candidate() {
    let mut s = scheduler(limits(100), aging());
    let t0 = base();
    let chat = OutboundScope::Chat(OutboundChatKey::new(1));
    // a critical lane head is queued, then replaced by a low-priority
    // job while it is already in the candidate heap
    let old = s
        .enqueue(
            meta(chat, Some(lane_key(1)), OutboundPriority::critical()),
            OutboundEnqueueMode::ReplacePending { user_key: 1 },
            None,
            t0,
        )
        .unwrap()
        .job;
    let fresh_outcome = s
        .enqueue(
            meta(chat, Some(lane_key(1)), OutboundPriority::lowest()),
            OutboundEnqueueMode::ReplacePending { user_key: 1 },
            None,
            t0,
        )
        .unwrap();
    assert_eq!(fresh_outcome.superseded, Some(old));
    let fresh = fresh_outcome.job;
    // a normal job in another lane
    let other =
        fifo(&mut s, meta(chat, Some(lane_key(2)), OutboundPriority::normal()), t0);
    // the replacement must not overtake the other lane's normal job
    assert_eq!(jobs(&s.grant_ready(t0)), vec![other, fresh]);
}

#[test]
fn repeatedly_replacing_a_queued_lane_head_rekeys_the_candidate() {
    let mut s = scheduler(limits(100), aging());
    let t0 = base();
    let chat = OutboundScope::Chat(OutboundChatKey::new(1));
    // CRITICAL -> LOWEST -> CRITICAL replacements of the queued head
    let a = s
        .enqueue(
            meta(chat, Some(lane_key(1)), OutboundPriority::critical()),
            OutboundEnqueueMode::ReplacePending { user_key: 1 },
            None,
            t0,
        )
        .unwrap()
        .job;
    let b_outcome = s
        .enqueue(
            meta(chat, Some(lane_key(1)), OutboundPriority::lowest()),
            OutboundEnqueueMode::ReplacePending { user_key: 1 },
            None,
            t0,
        )
        .unwrap();
    assert_eq!(b_outcome.superseded, Some(a));
    let c_outcome = s
        .enqueue(
            meta(chat, Some(lane_key(1)), OutboundPriority::critical()),
            OutboundEnqueueMode::ReplacePending { user_key: 1 },
            None,
            t0,
        )
        .unwrap();
    assert_eq!(c_outcome.superseded, Some(b_outcome.job));
    // a normal job in another lane
    let other =
        fifo(&mut s, meta(chat, Some(lane_key(2)), OutboundPriority::normal()), t0);
    // the final replacement is CRITICAL: it must beat the other lane
    assert_eq!(jobs(&s.grant_ready(t0)), vec![c_outcome.job, other]);
}

#[test]
fn sequence_rebase_at_zero_with_stale_candidates_does_not_panic() {
    let mut s = scheduler(limits(100), aging());
    let t0 = base();
    // a live job holds sequence 0
    let a = fifo(&mut s, global(OutboundPriority::normal()), t0);
    assert_eq!(a, JobId { value: 0 });
    // a cancelled job leaves a stale candidate entry behind
    let b = fifo(&mut s, global(OutboundPriority::normal()), t0);
    s.cancel(b);
    // the counter is about to wrap with a live sequence 0: the next
    // enqueue triggers the dense rebase, which must not panic on the
    // stale candidate entry
    s.next_sequence = u64::MAX;
    let c = fifo(&mut s, global(OutboundPriority::normal()), t0);
    assert_eq!(jobs(&s.grant_ready(t0)), vec![a, c]);
}

#[test]
fn sequence_rebase_at_zero_keeps_a_lane_head_after_cancel() {
    let mut s = scheduler(limits(100), aging());
    let t0 = base();
    let lane = Some(lane_key(1));
    let chat = OutboundScope::Chat(OutboundChatKey::new(1));
    // a live unlaned job holds sequence 0
    let live = fifo(&mut s, global(OutboundPriority::normal()), t0);
    // two lane jobs; the head is cancelled and stays as a stale entry
    let a = fifo(&mut s, meta(chat, lane, OutboundPriority::normal()), t0);
    let b = fifo(&mut s, meta(chat, lane, OutboundPriority::normal()), t0);
    s.cancel(a);
    // force the dense rebase while the stale head is still in pending
    s.next_sequence = u64::MAX;
    let c = fifo(&mut s, global(OutboundPriority::normal()), t0);
    // the lane's next head must still be granted, in FIFO order
    assert_eq!(jobs(&s.grant_ready(t0)), vec![live, b, c]);
}

#[test]
fn sequence_rebase_at_zero_keeps_a_delayed_replacement_live() {
    let mut s = scheduler(limits(100), aging());
    let t0 = base();
    // a live unlaned job holds sequence 0
    let live = fifo(&mut s, global(OutboundPriority::normal()), t0);
    // a delayed latest-wins slot: the superseded job leaves a stale
    // heap entry that shares its sequence with the replacement
    let not_before = after(t0, Duration::from_secs(60));
    let a = s
        .enqueue(
            global(OutboundPriority::critical()),
            OutboundEnqueueMode::ReplacePending { user_key: 7 },
            Some(not_before),
            t0,
        )
        .unwrap()
        .job;
    let b_outcome = s
        .enqueue(
            global(OutboundPriority::critical()),
            OutboundEnqueueMode::ReplacePending { user_key: 7 },
            Some(not_before),
            t0,
        )
        .unwrap();
    assert_eq!(b_outcome.superseded, Some(a));
    // force the dense rebase
    s.next_sequence = u64::MAX;
    let c = fifo(&mut s, global(OutboundPriority::normal()), t0);
    // the delayed replacement must still be promoted at its deadline
    // (outranking the aged NORMAL jobs), and the stale entry must not
    // underflow the stale counter
    assert_eq!(
        jobs(&s.grant_ready(after(not_before, Duration::from_secs(1)))),
        vec![b_outcome.job, live, c]
    );
}

#[test]
fn parked_candidates_join_an_active_reservation_not_an_expired_one() {
    let mut s = scheduler(
        OutboundLimits {
            global: vec![WindowLimit::new(1, Duration::from_secs(1))],
            chat: vec![WindowLimit::new(1, Duration::from_secs(60))],
        },
        aging(),
    );
    let t0 = base();
    let chat1 = OutboundScope::Chat(OutboundChatKey::new(1));
    let a = fifo(&mut s, meta(chat1, None, OutboundPriority::normal()), t0);
    assert_eq!(jobs(&s.grant_ready(t0)), vec![a]);
    // a global job is blocked by the global window: the global hold
    // expires at t0 + 1s
    let g = fifo(&mut s, global(OutboundPriority::normal()), t0);
    assert!(s.grant_ready(t0).is_empty());
    // two chat-1 jobs park in the (active) global hold
    let c1 = fifo(&mut s, meta(chat1, None, OutboundPriority::critical()), t0);
    let c2 = fifo(&mut s, meta(chat1, None, OutboundPriority::critical()), t0);
    assert!(s.grant_ready(t0).is_empty());
    assert_eq!(parked(&s, OutboundScope::Global), Some(2));
    // a third chat-1 job arrives at the expiry tick
    let c3 = fifo(
        &mut s,
        meta(chat1, None, OutboundPriority::critical()),
        after(t0, Duration::from_secs(1)),
    );
    // during the pass the global hold is expired but retained (its head
    // is promoted): the promoted candidate is re-blocked by the chat-1
    // window, and the next chat-1 candidate must join the fresh active
    // chat hold, not the expired global one
    let t1 = after(t0, Duration::from_secs(1));
    assert_eq!(jobs(&s.grant_ready(t1)), vec![g]);
    assert_eq!(
        parked(&s, OutboundScope::Chat(OutboundChatKey::new(1))),
        Some(1),
        "the candidate must join the active chat hold"
    );
    assert_eq!(
        parked(&s, OutboundScope::Global),
        Some(1),
        "the expired global hold must keep only its own queue"
    );
    let _ = (c1, c2, c3);
}

#[test]
fn a_pass_leaves_nothing_due_and_no_candidate() {
    let mut s = scheduler(limits(2), aging());
    let t0 = base();
    for _ in 0..5 {
        fifo(&mut s, global(OutboundPriority::normal()), t0);
    }
    assert_eq!(s.grant_ready(t0).len(), 2);
    assert!(s.candidates.is_empty());
    match s.next_deadline(t0) {
        SchedulerWakeup::At(at) => assert!(at > t0),
        other => panic!("expected a future wake-up, got {other:?}"),
    }
}

#[test]
fn cancelling_a_delayed_lane_head_brings_up_the_next_job() {
    let mut s = scheduler(limits(100), aging());
    let t0 = base();
    let lane = Some(lane_key(1));
    let chat = OutboundScope::Chat(OutboundChatKey::new(1));
    let head = s
        .enqueue(
            meta(chat, lane, OutboundPriority::normal()),
            OutboundEnqueueMode::Fifo,
            Some(after(t0, Duration::from_secs(60))),
            t0,
        )
        .unwrap()
        .job;
    let next = fifo(&mut s, meta(chat, lane, OutboundPriority::normal()), t0);
    assert!(s.grant_ready(t0).is_empty());
    s.cancel_at(head, t0);
    assert_eq!(jobs(&s.grant_ready(t0)), vec![next]);
}

#[test]
fn light_jobs_do_not_pass_a_held_window() {
    let mut s = scheduler(limits(10), aging());
    let t0 = base();
    let weighing = |weight: u32| OutboundMeta {
        weight: NonZeroU32::new(weight).unwrap(),
        ..global(OutboundPriority::normal())
    };
    let first = fifo(&mut s, weighing(5), t0);
    assert_eq!(jobs(&s.grant_ready(t0)), vec![first]);
    let heavy = fifo(&mut s, weighing(8), t0);
    assert!(s.grant_ready(t0).is_empty());
    // the window has room for a light job, but it is held for the heavy one
    let light = fifo(&mut s, weighing(1), after(t0, Duration::from_millis(1)));
    assert!(s.grant_ready(after(t0, Duration::from_millis(1))).is_empty());
    assert_eq!(parked(&s, OutboundScope::Global), Some(1));
    let t1 = after(t0, Duration::from_secs(1));
    assert_eq!(jobs(&s.grant_ready(t1)), vec![heavy, light]);
}

#[test]
fn older_jobs_go_first_among_equals_and_higher_ones_before_all() {
    let mut s = scheduler(limits(100), aging());
    let t0 = base();
    let old = fifo(&mut s, global(OutboundPriority::new(10)), t0);
    let t3 = after(t0, Duration::from_secs(3));
    // three quanta later the old job has risen to thirteen
    let equal = fifo(&mut s, global(OutboundPriority::new(13)), t3);
    let higher = fifo(&mut s, global(OutboundPriority::new(14)), t3);
    let lower = fifo(&mut s, global(OutboundPriority::new(12)), t3);
    assert_eq!(jobs(&s.grant_ready(t3)), vec![higher, old, equal, lower]);
}

#[test]
fn a_woken_job_that_meets_a_renewed_hold_keeps_its_turn() {
    let mut s = scheduler(limits(1), aging());
    let t0 = base();
    let a = fifo(&mut s, global(OutboundPriority::normal()), t0);
    let b = fifo(&mut s, global(OutboundPriority::normal()), t0);
    let c = fifo(&mut s, global(OutboundPriority::normal()), t0);
    let d = fifo(&mut s, global(OutboundPriority::normal()), t0);
    // b is blocked and holds the window, c and d are parked behind it
    assert_eq!(jobs(&s.grant_ready(t0)), vec![a]);
    assert_eq!(parked(&s, OutboundScope::Global), Some(2));
    // c is woken with b and meets the hold that the grant of b renews
    let mut order = Vec::new();
    for tick in 1..4u64 {
        order.extend(jobs(&s.grant_ready(after(t0, Duration::from_secs(tick)))));
    }
    assert_eq!(order, vec![b, c, d]);
}

fn globally(capacity: u32, window: Duration) -> OutboundLimits {
    OutboundLimits { global: vec![WindowLimit::new(capacity, window)], chat: vec![] }
}

#[test]
fn a_pass_fills_the_window_from_the_parked_jobs() {
    let mut s = scheduler(globally(3, Duration::from_secs(1)), aging());
    let t0 = base();
    let all: Vec<JobId> =
        (0..6).map(|_| fifo(&mut s, global(OutboundPriority::normal()), t0)).collect();
    assert_eq!(jobs(&s.grant_ready(t0)), all[..3].to_vec());
    assert_eq!(jobs(&s.grant_ready(after(t0, Duration::from_secs(1)))), all[3..].to_vec());
}

#[test]
fn equal_jobs_leave_in_order_pass_after_pass() {
    let mut s = scheduler(globally(2, Duration::from_secs(1)), aging());
    let t0 = base();
    let mut all: Vec<JobId> =
        (0..5).map(|_| fifo(&mut s, global(OutboundPriority::normal()), t0)).collect();
    let mut order = jobs(&s.grant_ready(t0));
    // those who come later stand behind everybody who waits
    let late = after(t0, Duration::from_millis(500));
    for _ in 0..4 {
        all.push(fifo(&mut s, global(OutboundPriority::normal()), late));
    }
    order.extend(jobs(&s.grant_ready(late)));
    for tick in 1..6u64 {
        order.extend(jobs(&s.grant_ready(after(t0, Duration::from_secs(tick)))));
    }
    assert_eq!(order, all);
}

#[test]
fn cancelling_the_owner_of_a_hold_opens_the_window() {
    let mut s = scheduler(globally(10, Duration::from_secs(60)), aging());
    let t0 = base();
    let weighing = |weight: u32| OutboundMeta {
        weight: NonZeroU32::new(weight).unwrap(),
        ..global(OutboundPriority::normal())
    };
    for _ in 0..9 {
        let _ = fifo(&mut s, weighing(1), t0);
    }
    assert_eq!(s.grant_ready(t0).len(), 9);
    let heavy = fifo(&mut s, weighing(10), t0);
    let light = fifo(&mut s, weighing(1), t0);
    assert_eq!(jobs(&s.grant_ready(t0)), vec![]);
    s.cancel(heavy);
    assert_eq!(jobs(&s.grant_ready(t0)), vec![light]);
}

#[test]
fn cancelling_a_delayed_head_brings_up_the_next_of_its_lane() {
    let mut s = scheduler(limits(100), aging());
    let t0 = base();
    let chat = OutboundScope::Chat(OutboundChatKey { value: 1 });
    let laned = meta(chat, Some(lane_key(1)), OutboundPriority::normal());
    let a = s
        .enqueue(laned, OutboundEnqueueMode::Fifo, Some(after(t0, Duration::from_secs(60))), t0)
        .unwrap()
        .job;
    let b = fifo(&mut s, laned, t0);
    assert_eq!(jobs(&s.grant_ready(t0)), vec![]);
    s.cancel(a);
    assert_eq!(jobs(&s.grant_ready(t0)), vec![b]);
}

#[test]
fn cancelling_the_last_job_of_a_lane_frees_the_lane() {
    let mut s = scheduler(limits(100), aging());
    let t0 = base();
    let chat = OutboundScope::Chat(OutboundChatKey { value: 1 });
    let laned = meta(chat, Some(lane_key(1)), OutboundPriority::normal());
    let a = fifo(&mut s, laned, t0);
    s.cancel(a);
    assert_eq!(jobs(&s.grant_ready(t0)), vec![]);
    let b = fifo(&mut s, laned, t0);
    assert_eq!(jobs(&s.grant_ready(t0)), vec![b]);
}

#[test]
fn mass_grant_of_promoted_delayed_jobs_stays_linear() {
    let mut s = scheduler(limits(100_000), aging());
    let t0 = base();
    let job_count = 50_000u64;
    let normal = global(OutboundPriority::normal());
    // group 1: early sequences, promoted only at t0 + 100s
    let late = Some(after(t0, Duration::from_secs(100)));
    for _ in 0..job_count {
        let _ = s.enqueue(normal, OutboundEnqueueMode::Fifo, late, t0).unwrap();
    }
    // group 2: later sequences, promoted at t0 + 1s and aged longer
    let soon = Some(after(t0, Duration::from_secs(1)));
    for _ in 0..job_count {
        let _ = s.enqueue(normal, OutboundEnqueueMode::Fifo, soon, t0).unwrap();
    }
    // the global penalty keeps the already-ready group 2 waiting
    s.penalize(OutboundScope::Global, after(t0, Duration::from_secs(100)));
    assert!(s.grant_ready(after(t0, Duration::from_secs(1))).is_empty());
    let granted = s.grant_ready(after(t0, Duration::from_secs(100)));
    assert_eq!(granted.len(), job_count as usize * 2);
}

#[test]
fn gradual_drain_of_many_jobs_stays_linear() {
    let mut s = scheduler(globally(1, Duration::from_millis(1)), aging());
    let t0 = base();
    let job_count = 50_000u64;
    for _ in 0..job_count {
        let _ = fifo(&mut s, global(OutboundPriority::normal()), t0);
    }
    let mut granted = 0usize;
    for i in 1..=job_count {
        granted += jobs(&s.grant_ready(after(t0, Duration::from_millis(i)))).len();
    }
    assert_eq!(granted, job_count as usize, "every job must be granted");
}

#[test]
fn a_job_without_room_is_not_granted_later_in_the_same_pass() {
    let mut s = scheduler(limits(10), aging());
    let t0 = base();
    let weighing = |weight: u32, priority: u8| OutboundMeta {
        weight: NonZeroU32::new(weight).unwrap(),
        ..global(OutboundPriority::new(priority))
    };
    let first = fifo(&mut s, weighing(6, 30), t0);
    let heavy = fifo(&mut s, weighing(5, 20), t0);
    let light = fifo(&mut s, weighing(4, 10), t0);
    assert_eq!(jobs(&s.grant_ready(t0)), vec![first]);
    assert_eq!(jobs(&s.grant_ready(after(t0, Duration::from_secs(1)))), vec![heavy, light]);
}

#[test]
fn a_bounded_queue_refuses_to_grow_but_takes_replacements() {
    let mut s = scheduler(limits(100), aging());
    let t0 = base();
    let normal = global(OutboundPriority::normal());
    let latest = OutboundEnqueueMode::ReplacePending { user_key: 1 };
    let first = s.enqueue_bounded(normal, latest, 1, None, t0).unwrap();
    assert_eq!(
        s.enqueue_bounded(normal, OutboundEnqueueMode::Fifo, 1, None, t0),
        Err(EnqueueError::QueueFull)
    );
    let second = s.enqueue_bounded(normal, latest, 1, None, t0).unwrap();
    assert_eq!(second.superseded, Some(first.job));
}

#[test]
fn room_for_all_grants_all_by_priority_and_age() {
    let mut s = scheduler(limits(6), aging());
    let t0 = base();
    let chat = |value: u64| OutboundScope::Chat(OutboundChatKey { value });
    let weighing = |scope: OutboundScope, weight: u32, priority: u8| OutboundMeta {
        weight: NonZeroU32::new(weight).unwrap(),
        ..meta(scope, None, OutboundPriority::new(priority))
    };
    let a = fifo(&mut s, weighing(chat(1), 2, 10), t0);
    let b = fifo(&mut s, weighing(OutboundScope::Global, 1, 20), t0);
    let c = fifo(&mut s, weighing(chat(2), 2, 20), t0);
    let d = fifo(&mut s, weighing(chat(1), 1, 10), t0);
    assert_eq!(jobs(&s.grant_ready(t0)), vec![b, c, a, d]);
    assert_eq!(s.snapshot().pending, 0);
}

#[test]
fn what_still_waits_after_a_pass_does_not_fit() {
    let mut s = scheduler(globally(5, Duration::from_secs(1)), aging());
    let t0 = base();
    let weighing = |weight: u32| OutboundMeta {
        weight: NonZeroU32::new(weight).unwrap(),
        ..global(OutboundPriority::normal())
    };
    let all: Vec<JobId> =
        [2, 2, 2, 1, 3, 5].iter().map(|weight| fifo(&mut s, weighing(*weight), t0)).collect();
    assert_eq!(jobs(&s.grant_ready(t0)), all[..2].to_vec());
    let tick = |count: u64| after(t0, Duration::from_secs(count));
    assert_eq!(jobs(&s.grant_ready(tick(1))), all[2..4].to_vec());
    assert_eq!(jobs(&s.grant_ready(tick(2))), all[4..5].to_vec());
    assert_eq!(jobs(&s.grant_ready(tick(3))), all[5..].to_vec());
    assert_eq!(s.next_deadline(tick(3)), SchedulerWakeup::ExternalEvent);
}

/// A small generator of numbers, the same in every run.
fn next_number(state: &mut u64) -> u64 {
    *state = state.wrapping_mul(6_364_136_223_846_793_005).wrapping_add(1_442_695_040_888_963_407);
    *state >> 33
}

#[test]
fn a_long_history_keeps_to_its_promises() {
    let second = Duration::from_secs(1);
    let mut s = scheduler(
        OutboundLimits {
            global: vec![WindowLimit::new(7, second)],
            chat: vec![
                WindowLimit::new(3, second),
                WindowLimit::new(10, Duration::from_secs(5)),
            ],
        },
        aging(),
    );
    let mut seed = 7u64;
    let mut now = base();
    let mut issued: Vec<(JobId, u64, u32)> = Vec::new();
    let mut gone: Vec<JobId> = Vec::new();
    let mut granted: Vec<(JobId, Instant)> = Vec::new();
    for _ in 0..3_000 {
        now = after(now, Duration::from_millis(next_number(&mut seed) % 40));
        match next_number(&mut seed) % 8 {
            0..=3 => {
                let chat = next_number(&mut seed) % 4;
                let weight = (next_number(&mut seed) % 3 + 1) as u32;
                let request = OutboundMeta {
                    weight: NonZeroU32::new(weight).unwrap(),
                    ..meta(
                        OutboundScope::Chat(OutboundChatKey { value: chat }),
                        None,
                        OutboundPriority::normal(),
                    )
                };
                let mode = match next_number(&mut seed) % 3 {
                    0 => OutboundEnqueueMode::ReplacePending { user_key: 1 },
                    _ => OutboundEnqueueMode::Fifo,
                };
                if let Ok(told) = s.enqueue(request, mode, None, now) {
                    assert!(issued.iter().all(|(id, _, _)| *id != told.job));
                    issued.push((told.job, chat, weight));
                    gone.extend(told.superseded);
                }
            }
            4 => {
                if !issued.is_empty() {
                    let at = next_number(&mut seed) as usize % issued.len();
                    s.cancel(issued[at].0);
                    gone.push(issued[at].0);
                }
            }
            5 => {
                if let Some((id, _)) = granted.last() {
                    s.complete(*id, OutboundCompletion::Failed, now);
                }
            }
            _ => {
                for id in jobs(&s.grant_ready(now)) {
                    assert!(issued.iter().any(|(known, _, _)| *known == id));
                    assert!(granted.iter().all(|(known, _)| *known != id));
                    assert!(!gone.contains(&id));
                    granted.push((id, now));
                }
            }
        }
    }
    assert!(granted.len() > 100);
    let spent = |end: Instant, span: Duration, chat: Option<u64>| -> u32 {
        granted
            .iter()
            .filter(|(_, at)| at.nanos <= end.nanos && at.nanos + span.nanos > end.nanos)
            .map(|(id, _)| issued.iter().find(|(known, _, _)| known == id).unwrap())
            .filter(|(_, of, _)| chat.is_none() || chat == Some(*of))
            .map(|(_, _, weight)| *weight)
            .sum()
    };
    for (_, at) in &granted {
        assert!(spent(*at, second, None) <= 7);
        for chat in 0..4 {
            assert!(spent(*at, second, Some(chat)) <= 3);
            assert!(spent(*at, Duration::from_secs(5), Some(chat)) <= 10);
        }
    }
}

#[test]
fn a_hit_slot_supersedes_only_its_own_pending_job() {
    let mut s = scheduler(limits(10), aging());
    let t0 = base();
    let chat = |value: u64| OutboundScope::Chat(OutboundChatKey { value });
    let normal = OutboundPriority::normal();
    let first = replace(&mut s, meta_with_class(chat(1), None, normal, 1), 5, t0);
    assert_eq!(first.superseded, None);
    // another chat, class or key is another slot
    assert_eq!(replace(&mut s, meta_with_class(chat(2), None, normal, 1), 5, t0).superseded, None);
    assert_eq!(replace(&mut s, meta_with_class(chat(1), None, normal, 2), 5, t0).superseded, None);
    assert_eq!(replace(&mut s, meta_with_class(chat(1), None, normal, 1), 6, t0).superseded, None);
    // another weight is refused and changes nothing
    let heavier = OutboundMeta {
        weight: NonZeroU32::new(2).unwrap(),
        ..meta_with_class(chat(1), None, normal, 1)
    };
    let mode = OutboundEnqueueMode::ReplacePending { user_key: 5 };
    assert_eq!(
        s.enqueue(heavier, mode, None, t0),
        Err(EnqueueError::IncompatibleCoalesceMetadata)
    );
    let second = replace(&mut s, meta_with_class(chat(1), None, normal, 1), 5, t0);
    assert_eq!(second.superseded, Some(first.job));
    // once granted, it is not pending any more
    assert!(jobs(&s.grant_ready(t0)).contains(&second.job));
    let third = replace(&mut s, meta_with_class(chat(1), None, normal, 1), 5, t0);
    assert_eq!(third.superseded, None);
}

#[test]
fn nothing_is_granted_before_the_deadline() {
    let mut s = scheduler(globally(2, Duration::from_secs(3)), aging());
    let t0 = base();
    for _ in 0..5 {
        let _ = fifo(&mut s, global(OutboundPriority::normal()), t0);
    }
    let late = after(t0, Duration::from_secs(10));
    let normal = global(OutboundPriority::normal());
    let _ = s.enqueue(normal, OutboundEnqueueMode::Fifo, Some(late), t0).unwrap();
    let mut now = t0;
    let mut granted = s.grant_ready(now).len();
    let mut waits = 0;
    loop {
        let at = match s.next_deadline(now) {
            SchedulerWakeup::At(at) => at,
            SchedulerWakeup::Immediate => panic!("a pass leaves nothing due"),
            SchedulerWakeup::ExternalEvent => break,
        };
        assert!(at.nanos > now.nanos);
        let soon = before(at, Duration::from_nanos(1));
        assert!(s.grant_ready(soon).is_empty());
        now = at;
        granted += s.grant_ready(now).len();
        waits += 1;
        assert!(waits < 1_000);
    }
    assert_eq!(granted, 6);
}

#[test]
fn penalizing_moves_nobody_and_never_shortens_a_penalty() {
    let mut s = scheduler(limits(10), aging());
    let t0 = base();
    let a = fifo(&mut s, global(OutboundPriority::normal()), t0);
    let b = fifo(&mut s, global(OutboundPriority::normal()), t0);
    let end = after(t0, Duration::from_secs(5));
    s.penalize(OutboundScope::Global, end);
    s.penalize(OutboundScope::Global, after(t0, Duration::from_secs(1)));
    assert_eq!(s.snapshot().pending, 2);
    assert!(s.grant_ready(before(end, Duration::from_nanos(1))).is_empty());
    assert_eq!(jobs(&s.grant_ready(end)), vec![a, b]);
}

#[test]
fn a_started_job_frees_its_ordered_start_lane() {
    let mut s = scheduler(limits(100), aging());
    let t0 = base();
    let key = OutboundLaneKey::of_mode(3, OutboundLaneMode::OrderedStart);
    let laned = meta(OutboundScope::Global, Some(key), OutboundPriority::normal());
    let a = fifo(&mut s, laned, t0);
    let b = fifo(&mut s, laned, t0);
    let c = fifo(&mut s, laned, t0);
    assert_eq!(jobs(&s.grant_ready(t0)), vec![a]);
    assert!(s.grant_ready(t0).is_empty());
    s.start(a, t0);
    // starting twice lets nobody else go
    s.start(a, t0);
    assert_eq!(jobs(&s.grant_ready(t0)), vec![b]);
    assert_eq!(s.snapshot().in_flight, 2);
    // the first job is over, but the second has not started
    s.complete(a, OutboundCompletion::Success, t0);
    assert!(s.grant_ready(t0).is_empty());
    // a job that ends without a start frees the lane as well
    s.complete(b, OutboundCompletion::NoRequest, t0);
    assert_eq!(jobs(&s.grant_ready(t0)), vec![c]);
}

#[test]
fn a_started_job_keeps_its_serial_lane() {
    let mut s = scheduler(limits(100), aging());
    let t0 = base();
    let key = OutboundLaneKey::of_mode(3, OutboundLaneMode::Serial);
    let laned = meta(OutboundScope::Global, Some(key), OutboundPriority::normal());
    let a = fifo(&mut s, laned, t0);
    let b = fifo(&mut s, laned, t0);
    assert_eq!(jobs(&s.grant_ready(t0)), vec![a]);
    s.start(a, t0);
    // neither does starting what is not in flight do anything
    s.start(b, t0);
    assert!(s.grant_ready(t0).is_empty());
    s.complete(a, OutboundCompletion::Success, t0);
    assert_eq!(jobs(&s.grant_ready(t0)), vec![b]);
}

#[test]
fn a_lane_key_says_its_mode() {
    let serial = OutboundLaneKey::of_mode(7, OutboundLaneMode::Serial);
    let ordered = OutboundLaneKey::of_mode(7, OutboundLaneMode::OrderedStart);
    assert_eq!((serial.value, serial.mode()), (7, OutboundLaneMode::Serial));
    assert_eq!(ordered.mode(), OutboundLaneMode::OrderedStart);
    assert_ne!(serial, ordered);
}

#[test]
fn only_waiting_delayed_jobs_are_counted_as_delayed() {
    let mut s = scheduler(limits(100), aging());
    let t0 = base();
    let later = after(t0, Duration::from_secs(5));
    let mut delayed = || {
        let normal = global(OutboundPriority::normal());
        s.enqueue(normal, OutboundEnqueueMode::Fifo, Some(later), t0).unwrap().job
    };
    let first = delayed();
    delayed();
    delayed();
    assert_eq!(s.snapshot().delayed, 3);
    s.cancel(first);
    assert_eq!(s.snapshot().delayed, 2);
    assert_eq!(s.snapshot().pending, 2);
    s.grant_ready(later);
    assert_eq!(s.snapshot().delayed, 0);
}

#[test]
fn only_waiting_candidates_are_counted_as_blocked() {
    let mut s = scheduler(limits(100), aging());
    let t0 = base();
    let scope = OutboundScope::Chat(OutboundChatKey::new(1));
    s.penalize(scope, after(t0, Duration::from_secs(5)));
    let a = fifo(&mut s, meta(scope, None, OutboundPriority::normal()), t0);
    let b = fifo(&mut s, meta(scope, None, OutboundPriority::normal()), t0);
    let c = fifo(&mut s, meta(scope, Some(lane_key(1)), OutboundPriority::normal()), t0);
    let d = fifo(&mut s, meta(scope, Some(lane_key(1)), OutboundPriority::normal()), t0);
    assert_eq!(s.snapshot().blocked, 0);
    assert!(s.grant_ready(t0).is_empty());
    // two jobs and one lane
    assert_eq!(s.snapshot().blocked, 3);
    s.cancel(a);
    assert_eq!(s.snapshot().blocked, 2);
    s.cancel(c);
    s.cancel(d);
    assert_eq!(s.snapshot().blocked, 1);
    assert_eq!(jobs(&s.grant_ready(after(t0, Duration::from_secs(5)))), vec![b]);
    assert_eq!(s.snapshot().blocked, 0);
}

#[test]
fn delays_and_penalties_that_are_over_hold_nobody_back() {
    let mut s = scheduler(limits(100), aging());
    let t0 = base();
    let t5 = after(t0, Duration::from_secs(5));
    let scope = OutboundScope::Chat(OutboundChatKey::new(1));
    s.penalize(scope, t5);
    let high = global(OutboundPriority::critical());
    let delayed = s.enqueue(high, OutboundEnqueueMode::Fifo, Some(t5), t0).unwrap().job;
    let first = fifo(&mut s, meta(scope, None, OutboundPriority::normal()), t0);
    let second = fifo(&mut s, meta(scope, None, OutboundPriority::normal()), t0);
    assert!(s.grant_ready(t0).is_empty());
    assert_eq!(jobs(&s.grant_ready(t5)), vec![delayed, first, second]);
    assert_eq!(s.snapshot().pending, 0);
}

#[test]
fn a_window_counts_the_chats_of_its_kind_only() {
    let minute = Duration::from_secs(60);
    let mut s = scheduler(
        OutboundLimits {
            global: vec![],
            chat: vec![
                WindowLimit::for_chat_kind(2, minute, WindowChatKind::NonChannel),
                WindowLimit::for_chat_kind(1, minute, WindowChatKind::ChannelOrSupergroup),
            ],
        },
        aging(),
    );
    let t0 = base();
    let plain = OutboundScope::Chat(OutboundChatKey::new(4));
    let channel = OutboundScope::Chat(OutboundChatKey::new(5));
    assert_eq!(OutboundChatKey::new(4).kind(), WindowChatKind::NonChannel);
    assert_eq!(OutboundChatKey::new(5).kind(), WindowChatKind::ChannelOrSupergroup);
    let normal = OutboundPriority::normal();
    let a = fifo(&mut s, meta(plain, None, normal), t0);
    let b = fifo(&mut s, meta(plain, None, normal), t0);
    let c = fifo(&mut s, meta(channel, None, normal), t0);
    let d = fifo(&mut s, meta(channel, None, normal), t0);
    let e = fifo(&mut s, meta(plain, None, normal), t0);
    assert_eq!(jobs(&s.grant_ready(t0)), vec![a, b, c]);
    assert_eq!(jobs(&s.grant_ready(after(t0, Duration::from_secs(61)))), vec![d, e]);
    // a weight of two is too much for a channel, and fits another chat
    let heavy = |scope| OutboundMeta {
        weight: NonZeroU32::new(2).unwrap(),
        ..meta(scope, None, normal)
    };
    assert_eq!(
        s.enqueue(heavy(channel), OutboundEnqueueMode::Fifo, None, t0),
        Err(EnqueueError::WeightExceedsWindow {
            scope: channel,
            weight: NonZeroU32::new(2).unwrap(),
            capacity: 1,
        })
    );
    assert!(s.enqueue(heavy(plain), OutboundEnqueueMode::Fifo, None, t0).is_ok());
}

#[test]
fn priorities_compare_by_their_levels() {
    for a in [0u8, 1, 32, 128, 255] {
        for b in [0u8, 1, 32, 128, 255] {
            let (x, y) = (OutboundPriority::new(a), OutboundPriority::new(b));
            assert_eq!((x < y, x == y, x > y), (a < b, a == b, a > b));
            assert_eq!(x.cmp(&y), a.cmp(&b));
        }
    }
    assert!(OutboundPriority::lowest() < OutboundPriority::background());
    assert!(OutboundPriority::background() < OutboundPriority::normal());
    assert!(OutboundPriority::normal() < OutboundPriority::interactive());
    assert!(OutboundPriority::interactive() < OutboundPriority::critical());
    assert!(OutboundPriority::critical() < OutboundPriority::highest());
    assert_eq!(OutboundPriority::default(), OutboundPriority::lowest());
}
