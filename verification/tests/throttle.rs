//! The throttle: its limits, its full-backlog reports and its requests.

use outbound::adaptor::{OutboundHint, RequestOutcome};
use outbound::classify::{ChatDirectory, ChatIdentity};
use outbound::queue::actor::{OutboundActor, QueueCommand, QueueReply};
use outbound::throttle::limits::{to_legacy_limits, to_outbound_limits, Limits};
use outbound::throttle::methods::is_throttled;
use outbound::throttle::run::{
    as_observed, compat_metadata, finish, CompatAction, CompatEvent, CompatRun, InnerPath, Sharing,
};
use outbound::throttle::saturation::{Accepted, CompatState, MonitorStep, MonitorVerdict};
use outbound::time::{Duration, Instant};
use outbound::types::{
    AgingPolicy, JobId, NonZeroU32, OutboundAcquireError, OutboundChatKey, OutboundClass, OutboundCompletion,
    OutboundEnqueueMode, OutboundLimits, OutboundPriority, OutboundScope, OutboundSettings,
    WindowChatKind, WindowLimit,
};

fn default_limits() -> Limits {
    Limits {
        messages_per_sec_chat: 1,
        messages_per_min_chat: 20,
        messages_per_min_channel_or_supergroup: 10,
        messages_per_sec_overall: 30,
    }
}

fn at(secs: u64) -> Instant {
    Instant::from_nanos(1_000_000_000_000 + secs * 1_000_000_000)
}

fn hint() -> OutboundHint {
    OutboundHint {
        scope: OutboundScope::Chat(OutboundChatKey::new(1)),
        class: OutboundClass::new(2),
        priority: OutboundPriority::background(),
        weight: NonZeroU32::new(5).unwrap(),
    }
}

#[test]
fn limits_map_to_outbound_windows() {
    let mapped = to_outbound_limits(default_limits());
    assert_eq!(
        mapped,
        OutboundLimits {
            global: vec![WindowLimit::new(30, Duration::from_secs(1))],
            chat: vec![
                WindowLimit::new(1, Duration::from_secs(1)),
                WindowLimit::for_chat_kind(20, Duration::from_secs(60), WindowChatKind::NonChannel),
                WindowLimit::for_chat_kind(
                    10,
                    Duration::from_secs(60),
                    WindowChatKind::ChannelOrSupergroup,
                ),
            ],
        }
    );
}

#[test]
fn limits_survive_the_mapping() {
    let base = Limits {
        messages_per_sec_chat: 9,
        messages_per_min_chat: 9,
        messages_per_min_channel_or_supergroup: 9,
        messages_per_sec_overall: 9,
    };
    assert_eq!(to_legacy_limits(&to_outbound_limits(default_limits()), base), default_limits());
    let none = OutboundLimits { global: vec![], chat: vec![] };
    assert_eq!(to_legacy_limits(&none, base), base);
}

#[test]
fn each_kind_of_chat_has_its_own_windows() {
    let mapped = to_outbound_limits(default_limits());
    let applied = |chat: u64| -> Vec<u32> {
        let key = OutboundChatKey::new(chat);
        mapped.chat.iter().filter(|w| w.applies_to(key)).map(|w| w.capacity).collect()
    };
    assert_eq!(applied(2), vec![1, 20]);
    assert_eq!(applied(3), vec![1, 10]);
}

#[test]
fn only_message_sends_are_throttled() {
    assert!(is_throttled("send_message"));
    assert!(is_throttled("send_game"));
    assert!(is_throttled("copy_messages"));
    assert!(!is_throttled("send_chat_action"));
    assert!(!is_throttled("get_me"));
    assert!(!is_throttled("SendMessage"));
}

#[test]
fn a_call_counts_once_and_with_one_priority() {
    let metadata = compat_metadata(&hint());
    assert_eq!(metadata.scope, hint().scope);
    assert_eq!(metadata.class, hint().class);
    assert_eq!(metadata.priority, OutboundPriority::normal());
    assert_eq!(metadata.weight, NonZeroU32::new(1).unwrap());
}

#[test]
fn a_penalty_of_the_throttle_is_global() {
    assert_eq!(finish(RequestOutcome::Success), OutboundCompletion::Success);
    assert_eq!(finish(RequestOutcome::Failed), OutboundCompletion::Failed);
    assert_eq!(
        finish(RequestOutcome::RetryAfter(Duration::from_secs(3))),
        OutboundCompletion::RetryAfter {
            scope: OutboundScope::Global,
            duration: Duration::from_secs(3),
        }
    );
}

#[test]
fn full_backlog_reports_are_spaced() {
    let mut state = CompatState::new(true, 8, at(0));
    assert_eq!(state.notify_queue_full(at(0)), Some(8));
    assert_eq!(state.notify_queue_full(at(4)), None);
    assert_eq!(state.notify_queue_full(Instant::from_nanos(at(4).nanos + 1)), Some(8));
}

#[test]
fn a_freeze_is_extended_and_never_cut_short() {
    let mut state = CompatState::new(true, 8, at(0));
    assert!(!state.freeze_active(at(0)));
    state.record_freeze_at(at(0), Duration::from_secs(10));
    state.record_freeze_at(at(1), Duration::from_secs(2));
    assert!(state.freeze_active(at(9)));
    assert!(!state.freeze_active(at(10)));
    state.record_freeze_at(at(5), Duration::from_secs(10));
    assert!(state.freeze_active(at(14)));
}

#[test]
fn a_full_backlog_during_a_freeze_is_reported_once_after_it() {
    let mut state = CompatState::new(true, 8, at(0));
    state.record_freeze_at(at(0), Duration::from_secs(10));
    let accepted = state.accepted(true, at(1));
    assert_eq!(accepted, Accepted { notify: None, start_monitor: true });
    assert_eq!(state.monitor_wake(at(1)), Instant::from_nanos(at(10).nanos + 1_000_000));
    assert_eq!(state.monitor_woken(at(9)), MonitorStep::SleepAgain);
    assert_eq!(state.monitor_woken(at(11)), MonitorStep::ProbeQueue);
    assert_eq!(
        state.monitor_probed(true, at(11)),
        MonitorVerdict { notify: Some(8), ends: false }
    );
    assert_eq!(state.monitor_woken(at(12)), MonitorStep::CheckSlots);
    assert_eq!(
        state.monitor_slots(false, at(12)),
        MonitorVerdict { notify: None, ends: false }
    );
    assert_eq!(state.monitor_slots(true, at(20)), MonitorVerdict { notify: None, ends: true });
    assert!(!state.monitor_active);
}

#[test]
fn a_dead_queue_ends_the_monitor_without_a_report() {
    let mut state = CompatState::new(true, 8, at(0));
    state.record_freeze_at(at(0), Duration::from_secs(1));
    state.accepted(true, at(0));
    assert_eq!(state.monitor_woken(at(2)), MonitorStep::ProbeQueue);
    assert_eq!(
        state.monitor_probed(false, at(2)),
        MonitorVerdict { notify: None, ends: true }
    );
    assert!(!state.monitor_active);
}

#[test]
fn one_monitor_runs_at_a_time() {
    let mut state = CompatState::new(true, 2, at(0));
    assert_eq!(state.accepted(false, at(0)), Accepted { notify: None, start_monitor: false });
    assert_eq!(state.accepted(true, at(0)), Accepted { notify: Some(2), start_monitor: true });
    assert_eq!(state.accepted(true, at(1)), Accepted { notify: None, start_monitor: false });
}

#[test]
fn a_flooded_request_sleeps_through_its_freeze_and_is_sent_again() {
    let mut state = CompatState::new(true, 8, at(0));
    let (mut run, first) = CompatRun::start(&hint(), Sharing::Owned);
    assert_eq!(first, CompatAction::TakeSlot);
    let taken = CompatEvent::SlotTaken { was_last_slot: false };
    assert_eq!(
        run.step(&mut state, taken, at(0)),
        Some(CompatAction::Enqueue { metadata: compat_metadata(&hint()), after_yield: false })
    );
    assert_eq!(
        run.step(&mut state, CompatEvent::Enqueued(Ok(())), at(0)),
        Some(CompatAction::AwaitGrant {
            accepted: Accepted { notify: None, start_monitor: false },
        })
    );
    assert_eq!(
        run.step(&mut state, CompatEvent::Granted(Ok(())), at(0)),
        Some(CompatAction::Execute(InnerPath::SendRef))
    );
    let flooded = CompatEvent::Executed {
        outcome: RequestOutcome::RetryAfter(Duration::from_secs(3)),
        observed_at: at(1),
    };
    assert_eq!(
        run.step(&mut state, flooded, at(2)),
        Some(CompatAction::CompleteAndSleep {
            completion: OutboundCompletion::RetryAfter {
                scope: OutboundScope::Global,
                duration: Duration::from_secs(3),
            },
            observed_at: at(1),
            until: at(4),
        })
    );
    assert!(state.freeze_active(at(3)));
    assert_eq!(
        run.step(&mut state, CompatEvent::Woken, at(4)),
        Some(CompatAction::TakeSlot)
    );
}

#[test]
fn without_retries_an_owned_request_is_used_up() {
    let mut state = CompatState::new(false, 8, at(0));
    let (mut run, _) = CompatRun::start(&hint(), Sharing::Owned);
    run.step(&mut state, CompatEvent::SlotTaken { was_last_slot: false }, at(0));
    run.step(&mut state, CompatEvent::Enqueued(Ok(())), at(0));
    assert_eq!(
        run.step(&mut state, CompatEvent::Granted(Ok(())), at(0)),
        Some(CompatAction::Execute(InnerPath::IntoFuture))
    );
    let flooded = CompatEvent::Executed {
        outcome: RequestOutcome::RetryAfter(Duration::from_secs(3)),
        observed_at: at(1),
    };
    let returned = run.step(&mut state, flooded, at(1));
    assert!(matches!(returned, Some(CompatAction::CompleteAndReturn { .. })));
}

#[test]
fn a_request_is_sent_directly_when_the_queue_is_gone() {
    let mut state = CompatState::new(true, 8, at(0));
    let (mut run, _) = CompatRun::start(&hint(), Sharing::Shared);
    run.step(&mut state, CompatEvent::SlotTaken { was_last_slot: true }, at(0));
    assert!(matches!(
        run.step(
            &mut state,
            CompatEvent::Enqueued(Err(OutboundAcquireError::Closed)),
            at(0)
        ),
        Some(CompatAction::SendDirectly(_))
    ));
}

/// Sends one request per chat in order at the start and tells when each is
/// granted, in the order of the grants.
fn completions(limits: Limits, chats: &[u64]) -> Vec<(usize, u64)> {
    let mut actor = OutboundActor::new(OutboundSettings {
        limits: to_outbound_limits(limits),
        queue_capacity: limits.messages_per_sec_overall as usize,
        aging: AgingPolicy { quantum: Duration::from_secs(1), max_boost: u8::MAX },
    })
    .unwrap();
    let mut sent: Vec<JobId> = Vec::new();
    let mut order = Vec::new();
    for second in 0..10u64 {
        let mut quiet = false;
        while !quiet {
            quiet = true;
            while sent.len() < chats.len() {
                let scope = OutboundScope::Chat(OutboundChatKey::new(2 * chats[sent.len()]));
                let command = QueueCommand::Enqueue {
                    metadata: compat_metadata(&OutboundHint { scope, ..hint() }),
                    lane: None,
                    mode: OutboundEnqueueMode::Fifo,
                };
                match actor.handle_command(command, at(second)) {
                    QueueReply::Enqueued { job, .. } => sent.push(job),
                    _ => break,
                }
            }
            for grant in actor.run_admission(at(second)).0 {
                let index = sent.iter().position(|job| *job == grant.job).unwrap();
                order.push((index, second));
                quiet = false;
            }
        }
    }
    order
}

#[test]
fn compat_enforces_the_per_chat_second_limit_in_fifo_order() {
    assert_eq!(completions(default_limits(), &[1, 1, 1]), vec![(0, 0), (1, 1), (2, 2)]);
}

#[test]
fn compat_applies_the_global_limit_across_chats() {
    let mut limits = default_limits();
    limits.messages_per_sec_chat = 30;
    limits.messages_per_sec_overall = 2;
    assert_eq!(completions(limits, &[1, 2, 1, 2]), vec![(0, 0), (1, 0), (2, 1), (3, 1)]);
}

#[test]
fn capacity_waiters_preserve_fifo_order() {
    let mut limits = default_limits();
    limits.messages_per_sec_chat = 30;
    limits.messages_per_sec_overall = 2;
    let order: Vec<usize> =
        completions(limits, &[1, 2, 3, 4, 5]).into_iter().map(|(index, _)| index).collect();
    assert_eq!(order, vec![0, 1, 2, 3, 4]);
}

#[test]
fn a_completion_that_is_applied_late_does_not_extend_the_freeze() {
    let freeze = OutboundCompletion::RetryAfter {
        scope: OutboundScope::Global,
        duration: Duration::from_secs(10),
    };
    let left = |secs: u64| OutboundCompletion::RetryAfter {
        scope: OutboundScope::Global,
        duration: Duration::from_secs(secs),
    };
    assert_eq!(as_observed(freeze, at(0), at(0)), left(10));
    assert_eq!(as_observed(freeze, at(0), at(4)), left(6));
    assert_eq!(as_observed(freeze, at(0), at(10)), left(0));
    assert_eq!(as_observed(freeze, at(0), at(20)), left(0));
    let success = OutboundCompletion::Success;
    assert_eq!(as_observed(success, at(0), at(4)), success);
}

#[test]
fn compat_distinguishes_channel_and_regular_minute_limits() {
    // Regular chats get `messages_per_min_chat` (20), channels and
    // supergroups get `messages_per_min_channel_or_supergroup` (10).
    let mut limits = default_limits();
    limits.messages_per_sec_chat = 30; // isolate the minute windows
    let mut actor = OutboundActor::new(OutboundSettings {
        limits: to_outbound_limits(limits),
        queue_capacity: limits.messages_per_sec_overall as usize,
        aging: AgingPolicy { quantum: Duration::from_secs(1), max_boost: u8::MAX },
    })
    .unwrap();
    let mut directory = ChatDirectory::new();
    let mut send = |actor: &mut OutboundActor, chat: i64| -> JobId {
        let scope = OutboundScope::Chat(directory.key_of(&ChatIdentity::Id(chat)));
        let command = QueueCommand::Enqueue {
            metadata: compat_metadata(&OutboundHint { scope, ..hint() }),
            lane: None,
            mode: OutboundEnqueueMode::Fifo,
        };
        match actor.handle_command(command, at(0)) {
            QueueReply::Enqueued { job, .. } => job,
            other => panic!("unexpected reply {other:?}"),
        }
    };
    let regular: Vec<JobId> = (0..11).map(|_| send(&mut actor, 123)).collect();
    let channel: Vec<JobId> = (0..11).map(|_| send(&mut actor, -1001234567890)).collect();
    let mut done: Vec<JobId> = Vec::new();
    let count = |done: &[JobId], of: &[JobId]| of.iter().filter(|job| done.contains(job)).count();

    // t=1s: the regular chat has all 11 granted, the channel only 10.
    for second in 0..2 {
        done.extend(actor.run_admission(at(second)).0.iter().map(|grant| grant.job));
    }
    assert_eq!(count(&done, &regular), 11, "regular chat: 20/min window");
    assert_eq!(count(&done, &channel), 10, "channel: 10/min window");

    // The 11th channel send goes when the first entry expires.
    done.extend(actor.run_admission(at(61)).0.iter().map(|grant| grant.job));
    assert_eq!(count(&done, &channel), 11);
}
