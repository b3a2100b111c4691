//! What the throttle does, said of the values that go in and come out.

use super::limits;
use super::limits::Limits;
use super::run;
use super::run::{CompatAction, CompatEvent, CompatPhase, CompatRun, InnerPath, Sharing};
use super::saturation::{CompatState, MILLI_NANOS, SATURATION_CHECK_NANOS};
use crate::adaptor::RequestOutcome;
use crate::time::{Duration, Instant};
use crate::types::{OutboundAcquireError, OutboundCompletion, OutboundScope, WindowLimit};
use crate::window;
use vstd::prelude::*;

verus! {

// ---------- limits ----------

/// What the limits stand for: one window of a second for everything, and for
/// every chat one of a second and one of a minute. The minute of a channel or
/// supergroup, whose key is odd, is held to their limit, that of every other
/// chat to the other one.
pub proof fn law_limits_become_windows(limits: Limits, chat: u64)
    ensures
        ({
            let all = limits::global_windows(limits);
            let own = window::applicable(limits::chat_windows(limits), chat);
            &&& all.len() == 1
            &&& all[0].capacity == limits.messages_per_sec_overall
            &&& all[0].window.nanos == 1_000_000_000
            &&& own.len() == 2
            &&& own[0].capacity == limits.messages_per_sec_chat
            &&& own[0].window.nanos == 1_000_000_000
            &&& chat % 2 == 1 ==> own[1].capacity == limits.messages_per_min_channel_or_supergroup
            &&& chat % 2 == 0 ==> own[1].capacity == limits.messages_per_min_chat
            &&& own[1].window.nanos == 60_000_000_000
        }),
{
    limits::law_each_kind_has_its_minute_limit(limits, chat);
}

/// What the windows of a queue say of the limits: of the windows of a shape
/// the last one counts, and where there is none the limit stays as it was.
pub proof fn law_the_last_window_of_a_shape_is_read(
    windows: Seq<WindowLimit>,
    base: Limits,
    i: int,
)
    requires
        0 <= i < windows.len(),
    ensures
        ({
            let whole = limits::read_global(windows, base);
            &&& whole.messages_per_sec_chat == base.messages_per_sec_chat
            &&& whole.messages_per_min_chat == base.messages_per_min_chat
            &&& whole.messages_per_min_channel_or_supergroup
                == base.messages_per_min_channel_or_supergroup
            &&& windows[i].window.nanos == 1_000_000_000 && (forall|j: int|
                i < j < windows.len() ==> (#[trigger] windows[j]).window.nanos != 1_000_000_000)
                ==> whole.messages_per_sec_overall == windows[i].capacity
            &&& (forall|j: int|
                0 <= j < windows.len() ==> (#[trigger] windows[j]).window.nanos != 1_000_000_000)
                ==> whole == base
        }),
        ({
            let own = limits::read_chat(windows, base);
            &&& own.messages_per_sec_overall == base.messages_per_sec_overall
            &&& windows[i].window.nanos == 1_000_000_000 && (forall|j: int|
                i < j < windows.len() ==> (#[trigger] windows[j]).window.nanos != 1_000_000_000)
                ==> own.messages_per_sec_chat == windows[i].capacity
            &&& windows[i].window.nanos == 60_000_000_000 && windows[i].kind is NonChannel && (
            forall|j: int|
                i < j < windows.len() ==> (#[trigger] windows[j]).window.nanos != 60_000_000_000
                    || windows[j].kind !is NonChannel) ==> own.messages_per_min_chat
                == windows[i].capacity
            &&& windows[i].window.nanos == 60_000_000_000 && windows[i].kind is ChannelOrSupergroup
                && (forall|j: int|
                i < j < windows.len() ==> (#[trigger] windows[j]).window.nanos != 60_000_000_000
                    || windows[j].kind !is ChannelOrSupergroup)
                ==> own.messages_per_min_channel_or_supergroup == windows[i].capacity
        }),
    decreases windows.len(),
{
    let before = windows.drop_last();
    assert forall|j: int| 0 <= j < before.len() implies #[trigger] before[j] == windows[j] by {}
    if i < before.len() {
        law_the_last_window_of_a_shape_is_read(before, base, i);
        assert(windows[windows.len() - 1] == windows.last());
    } else if before.len() > 0 {
        law_the_last_window_of_a_shape_is_read(before, base, 0);
    } else {
        assert(limits::read_global(before, base) == base);
        assert(limits::read_chat(before, base) == base);
    }
}

// ---------- a throttled request ----------

/// A throttled request on its way in: a slot leads to asking the queue with
/// the metadata of the request, a full queue to asking again after the others
/// had their turn, and a queue that is gone to sending directly, by reference
/// if the request is shared and by value if it is owned. Once it is accepted
/// it waits for the grant, and a grant leads to performing it: by value only
/// if it is owned and never sent again.
pub proof fn law_a_throttled_request_enters_the_queue(
    request: CompatRun,
    state: CompatState,
    was_last_slot: bool,
    error: OutboundAcquireError,
    now: Instant,
)
    ensures
        request.phase is WaitingSlot ==> (request.next(
            state,
            (CompatEvent::SlotTaken { was_last_slot }),
            now,
        ) matches Some((after, known, action)) && known == state && after.phase == (
        CompatPhase::Enqueuing { was_last_slot }) && action == (CompatAction::Enqueue {
            metadata: request.metadata,
            after_yield: false,
        })),
        request.phase is Enqueuing ==> (request.next(
            state,
            CompatEvent::Enqueued(Ok(())),
            now,
        ) matches Some((after, _, action)) && after.phase is Granting && action is AwaitGrant),
        request.phase is Enqueuing ==> (request.next(
            state,
            CompatEvent::Enqueued(Err(error)),
            now,
        ) matches Some((after, known, action)) && known == state && if error is QueueFull {
            after == request && action == (CompatAction::Enqueue {
                metadata: request.metadata,
                after_yield: true,
            })
        } else {
            after.phase is Done && match request.sharing {
                Sharing::Shared => action == CompatAction::SendDirectly(InnerPath::SendRef),
                Sharing::Owned => action == CompatAction::SendDirectly(InnerPath::IntoFuture),
            }
        }),
        request.phase is Granting ==> (request.next(
            state,
            CompatEvent::Granted(Ok(())),
            now,
        ) matches Some((after, known, CompatAction::Execute(path))) && known == state
            && after.phase is Executing && (path is IntoFuture <==> request.sharing is Owned
            && !state.retry)),
        request.phase is Granting ==> (request.next(
            state,
            CompatEvent::Granted(Err(error)),
            now,
        ) matches Some((after, known, action)) && !known.deferred_full && known.freeze_until
            == state.freeze_until && after.phase is Done && match request.sharing {
            Sharing::Shared => action == CompatAction::SendDirectly(InnerPath::SendRef),
            Sharing::Owned => action == CompatAction::SendDirectly(InnerPath::IntoFuture),
        }),
        request.phase is Sleeping ==> (request.next(state, CompatEvent::Woken, now) matches Some(
            (after, known, action),
        ) && known == state && after.phase is WaitingSlot && action is TakeSlot),
{
}

/// What a performed request comes to: its permit is completed as it ended, as
/// of the moment that was observed. A `RetryAfter` closes everything for the
/// span asked for, and the throttle is frozen until the later of the end it
/// knew and the moment that much after the observation. If requests are sent
/// again, this one sleeps just until then; in every other case it is over.
pub proof fn law_a_performed_request_ends_or_sleeps(
    request: CompatRun,
    state: CompatState,
    outcome: RequestOutcome,
    observed_at: Instant,
    now: Instant,
)
    requires
        request.phase is Executing,
    ensures
        request.next(state, (CompatEvent::Executed { outcome, observed_at }), now) matches Some(
            (after, known, action),
        ) && match outcome {
            RequestOutcome::Success => {
                &&& known == state && after.phase is Done
                &&& action == (CompatAction::CompleteAndReturn {
                    completion: OutboundCompletion::Success,
                    observed_at,
                })
            },
            RequestOutcome::Failed => {
                &&& known == state && after.phase is Done
                &&& action == (CompatAction::CompleteAndReturn {
                    completion: OutboundCompletion::Failed,
                    observed_at,
                })
            },
            RequestOutcome::RetryAfter(duration) => {
                let end: int = if observed_at.nanos + duration.nanos <= 0xffff_ffff_ffff_ffff {
                    observed_at.nanos + duration.nanos
                } else {
                    0xffff_ffff_ffff_ffff
                };
                let closed = OutboundCompletion::RetryAfter {
                    scope: OutboundScope::Global,
                    duration,
                };
                &&& known.freeze_until matches Some(until) && until.nanos >= end && (until.nanos
                    == end || state.freeze_until == Some(until)) && (state.freeze_until matches Some(
                    earlier,
                ) ==> until.nanos >= earlier.nanos)
                &&& known.retry == state.retry && known.deferred_full == state.deferred_full
                    && known.last_queue_full == state.last_queue_full
                &&& state.retry ==> after.phase is Sleeping && (action matches
                    CompatAction::CompleteAndSleep { completion, observed_at: seen, until }
                    && completion == closed && seen == observed_at && until.nanos == end)
                &&& !state.retry ==> after.phase is Done && action == (
                CompatAction::CompleteAndReturn { completion: closed, observed_at })
            },
        },
{
}

/// A completion that is applied late closes its scope until the moment at
/// which it would have ended had it been applied at once; what is over is
/// over. Every other completion is applied as it is.
pub proof fn law_a_late_completion_ends_on_time(
    completion: OutboundCompletion,
    observed_at: Instant,
    now: Instant,
)
    ensures
        match completion {
            OutboundCompletion::RetryAfter { scope, duration } => {
                let end: int = if observed_at.nanos + duration.nanos <= 0xffff_ffff_ffff_ffff {
                    observed_at.nanos + duration.nanos
                } else {
                    0xffff_ffff_ffff_ffff
                };
                &&& run::applied_late(completion, observed_at, now) matches
                    OutboundCompletion::RetryAfter { scope: closed, duration: left }
                &&& closed == scope
                &&& end > now.nanos ==> now.nanos + left.nanos == end
                &&& end <= now.nanos ==> left.nanos == 0
            },
            _ => run::applied_late(completion, observed_at, now) == completion,
        },
{
}

// ---------- the full backlog ----------

/// When a full backlog is reported: when its last slot was taken, unless the
/// throttle is frozen or the last report is no more than four seconds ago. A
/// report tells the size of the backlog and counts as the last one. While it
/// is frozen the report is kept for later. The monitor is started with the
/// last slot, unless it runs already.
pub proof fn law_when_a_full_backlog_is_reported(
    state: CompatState,
    was_last_slot: bool,
    now: Instant,
)
    ensures
        ({
            let after = state.accepted_state(was_last_slot, now);
            let steps = state.accepted_steps(was_last_slot, now);
            let frozen = state.freeze_until matches Some(until) && now.nanos < until.nanos;
            let due = now.nanos - state.last_queue_full.nanos > 4_000_000_000;
            &&& steps.notify == (if was_last_slot && !frozen && due {
                Some(state.queue_capacity)
            } else {
                None::<usize>
            })
            &&& steps.notify is Some ==> after.last_queue_full == now
            &&& steps.notify is None ==> after.last_queue_full == state.last_queue_full
            &&& steps.start_monitor <==> was_last_slot && !state.monitor_active
            &&& after.monitor_active <==> was_last_slot || state.monitor_active
            &&& after.deferred_full <==> state.deferred_full || was_last_slot && frozen
            &&& after.freeze_until == state.freeze_until
            &&& after.retry == state.retry && after.queue_capacity == state.queue_capacity
        }),
{
}

/// What the monitor reports of a backlog that stays full: its size, if the
/// last report is more than four seconds ago; then this one is the last.
pub proof fn law_what_is_reported_again(state: CompatState, now: Instant)
    ensures
        ({
            let due = now.nanos - state.last_queue_full.nanos > 4_000_000_000;
            &&& due ==> state.notice(now) == Some(state.queue_capacity)
            &&& due ==> state.notified(now) == (CompatState { last_queue_full: now, ..state })
            &&& !due ==> state.notice(now) is None && state.notified(now) == state
        }),
{
}

/// How long the throttle is frozen: until the latest end that was asked for.
pub proof fn law_a_freeze_ends_when_asked(
    state: CompatState,
    observed_at: Instant,
    duration: Duration,
    now: Instant,
)
    ensures
        ({
            let end: int = if observed_at.nanos + duration.nanos <= 0xffff_ffff_ffff_ffff {
                observed_at.nanos + duration.nanos
            } else {
                0xffff_ffff_ffff_ffff
            };
            let earlier = state.freeze_until matches Some(until) && now.nanos < until.nanos;
            &&& state.frozen(now) <==> earlier
            &&& state.freeze(observed_at, duration).frozen(now) <==> earlier || now.nanos < end
        }),
{
}

/// A monitor that starts with a report and sleeps for its period finds the
/// next report due, and a millisecond sooner it does not.
pub proof fn law_the_monitor_sleeps_just_past_the_delay(state: CompatState, now: Instant)
    requires
        state.notice(now) is Some,
        now.nanos + SATURATION_CHECK_NANOS <= 0xffff_ffff_ffff_ffff,
    ensures
        ({
            let told = state.notified(now);
            let later = now.plus(Duration { nanos: SATURATION_CHECK_NANOS });
            let sooner = Instant { nanos: (later.nanos - 1_000_000) as u64 };
            &&& told.notice(later) == Some(state.queue_capacity)
            &&& told.notice(sooner) is None
            &&& MILLI_NANOS == 1_000_000
        }),
{
}

} // verus!
