//! The promises of the queue.

use super::actor;
use super::actor::{QueueCommand, QueueReply, QueueView};
use super::client;
use super::client::{AcquireEvent, AcquireOutcome, AcquireState};
use crate::scheduler::entries::{BlockedJob, CandidateRef};
use crate::scheduler::laws as scheduling;
use crate::time::{Duration, Instant};
use crate::types::{
    JobId, OutboundAcquireError, OutboundCompletion, OutboundEnqueueMode, OutboundLaneKey,
    OutboundLimits, OutboundMetadata, OutboundQueueError, OutboundScope, SchedulerWakeup,
};
use vstd::prelude::*;

verus! {

/// A refused acquire changes nothing. A full backlog refuses exactly the
/// acquires that the scheduler would take and that would grow it: a
/// replacement is admitted at capacity.
pub proof fn law_full_queue_refuses_growth_only(
    q: QueueView,
    metadata: OutboundMetadata,
    lane: Option<OutboundLaneKey>,
    mode: OutboundEnqueueMode,
    now: Instant,
)
    ensures
        ({
            let meta = actor::meta_of(metadata, lane);
            let command = QueueCommand::Enqueue { metadata, lane, mode };
            &&& q.enqueue_refusal(meta, mode) is Some ==> q.handle(command, now) == q
            &&& q.enqueue_refusal(meta, mode) is None <==> q.scheduler.enqueue_result(
                meta,
                mode,
            ) is Ok && (q.scheduler.jobs.dom().len() < q.capacity || q.scheduler.replaced_by(
                meta,
                mode,
            ) is Some)
        }),
{
}

/// An acquire whose caller was gone before the reply leaves nothing behind:
/// no job, no permit, no spending.
pub proof fn law_lost_reply_leaves_nothing_behind(
    q: QueueView,
    metadata: OutboundMetadata,
    lane: Option<OutboundLaneKey>,
    mode: OutboundEnqueueMode,
    now: Instant,
    later: Instant,
)
    requires
        q.inv(),
        q.scheduler.next_job_id < u64::MAX,
        q.enqueue_refusal(actor::meta_of(metadata, lane), mode) is None,
    ensures
        ({
            let job_id = JobId { value: q.scheduler.next_job_id };
            let asked = q.handle((QueueCommand::Enqueue { metadata, lane, mode }), now);
            let after = asked.handle((QueueCommand::ReplyLost { job_id }), later);
            &&& forall|k: u64| #[trigger]
                after.scheduler.jobs.contains_key(k) <==> q.scheduler.jobs.contains_key(k)
                    && q.scheduler.replaced_by(actor::meta_of(metadata, lane), mode) != Some(
                    JobId { value: k },
                )
            &&& after.scheduler.in_flight == q.scheduler.in_flight
            &&& after.scheduler.global_windows == q.scheduler.global_windows
            &&& after.scheduler.chat_window_sets == q.scheduler.chat_window_sets
            &&& !after.waiters.contains(job_id.value)
        }),
{
    let meta = actor::meta_of(metadata, lane);
    let s = q.scheduler;
    let job_id = JobId { value: s.next_job_id };
    let asked = s.enqueue(meta, mode, None, now);
    scheduling::law_other_jobs_go_on_waiting(s, meta, mode, None, now);
    scheduling::law_enqueue_spends_nothing(s, meta, mode, None, now);
    s.lemma_accept_inv(meta, mode, None, now);
    scheduling::law_cancelled_job_leaves_no_lock(asked, job_id, later);
    let after = asked.cancel_at(job_id, later);
    assert forall|k: u64| #[trigger] after.jobs.contains_key(k) <==> s.jobs.contains_key(k)
        && s.replaced_by(meta, mode) != Some(JobId { value: k }) by {
        assert(after.jobs.dom().contains(k) <==> asked.jobs.dom().contains(k) && k
            != job_id.value);
        assert(asked.jobs.contains_key(k) <==> k == s.next_job_id || s.jobs.contains_key(k)
            && s.replaced_by(meta, mode) != Some(JobId { value: k }));
    }
}

/// Every acquire that waits is told exactly once: a grant reaches its waiter
/// and ends the wait, and nobody else's wait ends with the pass.
pub proof fn law_grants_reach_their_waiters(q: QueueView, now: Instant, k: u64)
    requires
        q.inv(),
        q.waiters.contains(k),
    ensures
        q.admission_pass(now).waiters.contains(k) <==> !scheduling::names(
            q.scheduler.grants(now),
            k,
        ),
        scheduling::names(q.scheduler.grants(now), k) <==> q.deliveries(now).contains(
            actor::Delivered { job: JobId { value: k }, waited: true },
        ),
{
    let grants = q.scheduler.grants(now);
    let out = q.deliveries(now);
    let told = actor::Delivered { job: JobId { value: k }, waited: true };
    if scheduling::names(grants, k) {
        let j = choose|j: int|
            0 <= j < grants.len() && grants[j] == (crate::types::Grant {
                job: JobId { value: k },
            });
        assert(out[j] == told);
    }
    if out.contains(told) {
        let j = choose|j: int| 0 <= j < out.len() && out[j] == told;
        assert(grants[j] == (crate::types::Grant { job: JobId { value: k } }));
    }
}

/// A delivery says whether somebody waits for it.
pub proof fn law_a_delivery_tells_whether_anybody_waits(q: QueueView, now: Instant, i: int)
    requires
        0 <= i < q.deliveries(now).len(),
    ensures
        q.deliveries(now)[i].waited <==> q.waiters.contains(q.deliveries(now)[i].job.value),
        !q.admission_pass(now).waiters.contains(q.deliveries(now)[i].job.value),
{
    let grants = q.scheduler.grants(now);
    assert(grants[i] == (crate::types::Grant {
        job: JobId { value: q.deliveries(now)[i].job.value },
    }));
}

/// An acquire resolves once: after it has, no event reaches it, and dropping
/// it cancels nothing.
pub proof fn law_acquire_resolves_once(state: AcquireState, event: AcquireEvent, more: AcquireEvent)
    ensures
        client::acquire_next(state, event) matches Some((after, outcome)) ==> {
            &&& outcome is Some <==> after is Done
            &&& outcome is Some ==> client::acquire_next(after, more) is None
            &&& outcome matches Some(AcquireOutcome::Permit(job)) ==> state
                == (AcquireState::Waiting { job_id: job })
        },
{
}

// ---------- penalties ----------

/// A penalty closes its scope: after a `Penalize` command of a positive
/// duration, for a chat or for everything alike, the scope is closed until the
/// later of its earlier deadline and the moment that much later (at most the
/// last moment there is). Every other scope keeps its penalty, and no job,
/// permit, window or waiter is touched. In a pass before that deadline no
/// request of the scope is granted, and none at all if everything is closed.
pub proof fn law_a_penalty_closes_its_scope(
    q: QueueView,
    scope: OutboundScope,
    duration: Duration,
    now: Instant,
    later: Instant,
)
    requires
        q.inv(),
        duration.nanos > 0,
    ensures
        ({
            let after = q.handle(QueueCommand::Penalize { scope, duration }, now);
            let before = q.scheduler.penalties;
            let end: int = if now.nanos + duration.nanos <= 0xffff_ffff_ffff_ffff {
                now.nanos + duration.nanos
            } else {
                0xffff_ffff_ffff_ffff
            };
            let held = after.scheduler.penalties;
            &&& held.contains_key(scope)
            &&& held[scope].nanos >= end
            &&& before.contains_key(scope) ==> held[scope].nanos >= before[scope].nanos
            &&& held[scope].nanos == end || before.contains_key(scope) && held[scope]
                == before[scope]
            &&& forall|other: OutboundScope| #[trigger]
                held.contains_key(other) && other != scope ==> before.contains_key(other)
                    && held[other] == before[other]
            &&& forall|other: OutboundScope| #[trigger]
                before.contains_key(other) ==> held.contains_key(other)
            &&& after.scheduler.jobs == q.scheduler.jobs
            &&& after.scheduler.in_flight == q.scheduler.in_flight
            &&& after.scheduler.global_windows == q.scheduler.global_windows
            &&& after.scheduler.chat_window_sets == q.scheduler.chat_window_sets
            &&& after.waiters == q.waiters
            &&& later.nanos < held[scope].nanos ==> {
                &&& scope is Global ==> after.deliveries(later).len() == 0
                &&& forall|i: int|
                    0 <= i < after.deliveries(later).len() ==> q.scheduler.jobs.contains_key(
                        (#[trigger] after.deliveries(later)[i]).job.value,
                    ) && q.scheduler.jobs[after.deliveries(later)[i].job.value].meta.scope != scope
            }
        }),
{
    let after = q.handle(QueueCommand::Penalize { scope, duration }, now);
    assert(after.scheduler.inv()) by {
        q.scheduler.lemma_penalize_inv(scope, now.plus(duration));
    }
    if later.nanos < after.scheduler.penalties[scope].nanos {
        law_a_closed_scope_is_granted_nothing(after, scope, later);
    }
}

/// What is closed is granted nothing: in a pass before the deadline of a
/// penalty, no request of its scope is granted, and none at all if everything
/// is closed.
pub proof fn law_a_closed_scope_is_granted_nothing(q: QueueView, scope: OutboundScope, now: Instant)
    requires
        q.inv(),
        q.scheduler.penalties.contains_key(scope),
        now.nanos < q.scheduler.penalties[scope].nanos,
    ensures
        scope is Global ==> q.deliveries(now).len() == 0,
        forall|i: int|
            0 <= i < q.deliveries(now).len() ==> q.scheduler.jobs.contains_key(
                (#[trigger] q.deliveries(now)[i]).job.value,
            ) && q.scheduler.jobs[q.deliveries(now)[i].job.value].meta.scope != scope,
{
    scheduling::law_grant_pass(q.scheduler, now);
    let grants = q.scheduler.grants(now);
    assert forall|i: int| 0 <= i < q.deliveries(now).len() implies q.scheduler.jobs.contains_key(
        (#[trigger] q.deliveries(now)[i]).job.value,
    ) && q.scheduler.jobs[q.deliveries(now)[i].job.value].meta.scope != scope && scope
        !is Global by {
        assert(scheduling::may_be_granted(q.scheduler, grants[i].job.value, now));
    }
    if scope is Global && q.deliveries(now).len() > 0 {
        assert(scheduling::may_be_granted(q.scheduler, grants[0].job.value, now));
    }
}

/// What is closed stays closed: no command shortens a penalty, and a pass
/// forgets one only when it is over.
pub proof fn law_a_closed_scope_stays_closed(
    q: QueueView,
    scope: OutboundScope,
    command: QueueCommand,
    now: Instant,
)
    requires
        q.inv(),
        q.scheduler.next_job_id < u64::MAX,
        q.scheduler.penalties.contains_key(scope),
    ensures
        ({
            let after = q.handle(command, now).scheduler.penalties;
            &&& after.contains_key(scope)
            &&& after[scope].nanos >= q.scheduler.penalties[scope].nanos
        }),
        now.nanos < q.scheduler.penalties[scope].nanos ==> {
            let after = q.admission_pass(now).scheduler.penalties;
            &&& after.contains_key(scope)
            &&& after[scope] == q.scheduler.penalties[scope]
        },
{
    let s = q.scheduler;
    match command {
        QueueCommand::Enqueue { metadata, lane, mode } => {
            let meta = actor::meta_of(metadata, lane);
            scheduling::law_enqueue_spends_nothing(s, meta, mode, None, now);
        },
        QueueCommand::ReplyLost { job_id } | QueueCommand::Cancel { job_id } => {
            if s.jobs.contains_key(job_id.value) {
                scheduling::law_cancelled_job_leaves_no_lock(s, job_id, now);
            }
        },
        QueueCommand::Start { job_id } => {
            s.lemma_start_releases(job_id, now);
        },
        QueueCommand::SetLimits { limits } => {
            scheduling::law_new_limits_keep_requests_and_spending(s, limits, now);
        },
        _ => {},
    }
    if now.nanos < s.penalties[scope].nanos {
        s.lemma_promote_inv(now);
        s.lemma_promote_waits(now);
        scheduling::lemma_loop_moves(s.promote(now), now);
        scheduling::lemma_trimmed_keeps_jobs(s.grant_ready(now));
    }
}

// ---------- requests ----------

/// An accepted request waits as it was asked for: under an id that nobody had,
/// which the caller is told, with its own scope, lane, class, priority and
/// weight, and ready at once: from now on, or since the one it replaces, whose
/// place it takes. Every other pending job stays, but for that one, which is a
/// pending request of the same scope, lane, class and user key with the same
/// weight. A request without a user key replaces nothing.
pub proof fn law_an_accepted_request_waits_as_asked(
    q: QueueView,
    metadata: OutboundMetadata,
    lane: Option<OutboundLaneKey>,
    mode: OutboundEnqueueMode,
    now: Instant,
    reply: QueueReply,
    k: u64,
)
    requires
        q.inv(),
        q.scheduler.next_job_id < u64::MAX,
        q.answers(QueueCommand::Enqueue { metadata, lane, mode }, reply),
        reply is Enqueued,
    ensures
        ({
            let after = q.handle((QueueCommand::Enqueue { metadata, lane, mode }), now);
            let id = reply->job.value;
            let before = q.scheduler.jobs;
            let jobs = after.scheduler.jobs;
            &&& !before.contains_key(id) && !q.scheduler.in_flight.contains_key(id)
            &&& jobs.contains_key(id)
            &&& jobs[id].meta.scope == metadata.scope
            &&& jobs[id].meta.lane == lane
            &&& jobs[id].meta.class == metadata.class
            &&& jobs[id].meta.priority == metadata.priority
            &&& jobs[id].meta.weight == metadata.weight
            &&& jobs[id].not_before is None
            &&& jobs[id].ready_at == now || mode is ReplacePending && exists|j: u64| #[trigger]
                before.contains_key(j) && !jobs.contains_key(j) && before[j].ready_at
                    == jobs[id].ready_at && before[j].sequence == jobs[id].sequence
            &&& mode is Fifo ==> jobs[id].ready_at == now
            &&& after.scheduler.in_flight == q.scheduler.in_flight
            &&& after.scheduler.penalties == q.scheduler.penalties
            &&& after.scheduler.global_windows == q.scheduler.global_windows
            &&& after.scheduler.chat_window_sets == q.scheduler.chat_window_sets
            &&& k != id && jobs.contains_key(k) ==> before.contains_key(k)
            &&& before.contains_key(k) && !jobs.contains_key(k) ==> {
                &&& mode matches OutboundEnqueueMode::ReplacePending { user_key }
                    && before[k].coalesce_key matches Some(slot) && slot.user_key == user_key
                    && slot.scope == metadata.scope && slot.lane == lane && slot.class
                    == metadata.class
                &&& before[k].meta.weight == metadata.weight
                &&& q.waiters.contains(k) <==> reply->superseded == Some(JobId { value: k })
                &&& !after.waiters.contains(k)
            }
            &&& before.contains_key(k) && jobs.contains_key(k) ==> {
                &&& reply->superseded != Some(JobId { value: k })
                &&& after.waiters.contains(k) <==> q.waiters.contains(k)
            }
        }),
{
    let s = q.scheduler;
    let meta = actor::meta_of(metadata, lane);
    scheduling::law_refusals(s, meta, mode);
    scheduling::law_other_jobs_go_on_waiting(s, meta, mode, None, now);
    scheduling::law_enqueue_spends_nothing(s, meta, mode, None, now);
    scheduling::lemma_accepted(s, meta, mode, None, now);
    scheduling::law_slot_hits(s, meta, mode, JobId { value: k });
    let after = s.enqueue(meta, mode, None, now);
    assert(after.jobs.contains_key(s.next_job_id));
    assert(after.jobs.contains_key(k) <==> k == s.next_job_id || s.jobs.contains_key(k)
        && s.replaced_by(meta, mode) != Some(JobId { value: k }));
    if let Some(old) = s.replaced_by(meta, mode) {
        assert(JobId { value: old.value } == old);
        scheduling::law_slot_hits(s, meta, mode, old);
        assert(s.jobs.contains_key(old.value));
        assert(!after.jobs.contains_key(old.value));
    }
}

/// A refused request is told why: its weight fits no window that applies to
/// it, its slot holds a pending request of another weight, or the backlog is
/// full.
pub proof fn law_a_refused_request_is_told_why(
    q: QueueView,
    metadata: OutboundMetadata,
    lane: Option<OutboundLaneKey>,
    mode: OutboundEnqueueMode,
    now: Instant,
    reply: QueueReply,
)
    requires
        q.answers(QueueCommand::Enqueue { metadata, lane, mode }, reply),
    ensures
        ({
            let meta = actor::meta_of(metadata, lane);
            let replaced = q.scheduler.replaced_by(meta, mode);
            let told = reply->Refused_0;
            &&& reply is Enqueued || reply is Refused
            &&& reply is Refused && told is WeightExceedsWindow <==> !scheduling::fits_every_window(
                q.scheduler,
                meta,
            )
            &&& reply is Refused && told is IncompatibleCoalesceMetadata
                <==> scheduling::fits_every_window(q.scheduler, meta) && replaced is Some
                && q.scheduler.jobs[replaced->0.value].meta.weight != metadata.weight
            &&& reply is Refused && told is QueueFull <==> scheduling::fits_every_window(
                q.scheduler,
                meta,
            ) && replaced is None && q.scheduler.jobs.dom().len() >= q.capacity
            &&& reply is Refused ==> q.handle(
                (QueueCommand::Enqueue { metadata, lane, mode }),
                now,
            ) == q
            &&& reply is Refused && told is WeightExceedsWindow ==> told->weight
                == metadata.weight && told->capacity < metadata.weight@
        }),
{
    let meta = actor::meta_of(metadata, lane);
    scheduling::law_refusals(q.scheduler, meta, mode);
    scheduling::law_too_heavy_a_request_is_told_a_capacity(q.scheduler, meta, mode);
}

/// A cancelled request is gone, and nobody is told of it: its job and its
/// waiter are removed, all others stay. So is a request whose caller was gone
/// before the reply; one whose caller took the reply has a waiter.
pub proof fn law_a_cancelled_request_is_gone(q: QueueView, job_id: JobId, now: Instant, k: u64)
    requires
        q.inv(),
    ensures
        ({
            let cancelled = q.handle((QueueCommand::Cancel { job_id }), now);
            let lost = q.handle((QueueCommand::ReplyLost { job_id }), now);
            let taken = q.handle((QueueCommand::ReplyTaken { job_id }), now);
            &&& lost == cancelled
            &&& cancelled.scheduler.jobs.contains_key(k) <==> q.scheduler.jobs.contains_key(k) && k
                != job_id.value
            &&& cancelled.waiters.contains(k) <==> q.waiters.contains(k) && k != job_id.value
            &&& cancelled.scheduler.in_flight == q.scheduler.in_flight
            &&& cancelled.scheduler.penalties == q.scheduler.penalties
            &&& cancelled.scheduler.global_windows == q.scheduler.global_windows
            &&& cancelled.scheduler.chat_window_sets == q.scheduler.chat_window_sets
            &&& taken.scheduler == q.scheduler
            &&& taken.waiters.contains(k) <==> q.waiters.contains(k) || k == job_id.value
                && q.scheduler.jobs.contains_key(k)
        }),
{
    let s = q.scheduler;
    if s.jobs.contains_key(job_id.value) {
        scheduling::law_cancelled_job_leaves_no_lock(s, job_id, now);
        let after = s.cancel_at(job_id, now);
        assert(after.jobs.dom().contains(k) <==> s.jobs.dom().remove(job_id.value).contains(k));
    }
}

/// A completed permit is given back, once: the job is in flight no more, and
/// no other permit ends, no job leaves the backlog and nothing that was spent
/// comes back. Only a `RetryAfter` of a positive span penalizes, and only the
/// scope it names: that is closed until the later of its earlier deadline and
/// the moment that much later. A completion of a job that is not in flight
/// changes nothing.
pub proof fn law_a_completed_permit_is_given_back(
    q: QueueView,
    job_id: JobId,
    outcome: OutboundCompletion,
    now: Instant,
    k: u64,
    scope: OutboundScope,
)
    requires
        q.inv(),
    ensures
        ({
            let after = q.handle((QueueCommand::Complete { job_id, outcome }), now);
            let held = after.scheduler.penalties;
            let before = q.scheduler.penalties;
            &&& after.waiters == q.waiters
            &&& after.scheduler.in_flight.contains_key(k) <==> q.scheduler.in_flight.contains_key(k)
                && k != job_id.value
            &&& after.scheduler.jobs.contains_key(k) <==> q.scheduler.jobs.contains_key(k)
            &&& after.scheduler.global_windows == q.scheduler.global_windows
            &&& after.scheduler.chat_window_sets == q.scheduler.chat_window_sets
            &&& !q.scheduler.in_flight.contains_key(job_id.value) ==> after == q
            &&& match outcome {
                OutboundCompletion::RetryAfter { scope: named, duration } => {
                    let end: int = if now.nanos + duration.nanos <= 0xffff_ffff_ffff_ffff {
                        now.nanos + duration.nanos
                    } else {
                        0xffff_ffff_ffff_ffff
                    };
                    if scope == named && end > now.nanos && q.scheduler.in_flight.contains_key(
                        job_id.value,
                    ) {
                        &&& held.contains_key(scope)
                        &&& held[scope].nanos >= end
                        &&& before.contains_key(scope) ==> held[scope].nanos
                            >= before[scope].nanos
                        &&& held[scope].nanos == end || before.contains_key(scope)
                            && held[scope] == before[scope]
                    } else {
                        &&& held.contains_key(scope) <==> before.contains_key(scope)
                        &&& held[scope] == before[scope]
                    }
                },
                _ => held == before,
            }
        }),
{
    let s = q.scheduler;
    if s.in_flight.contains_key(job_id.value) {
        scheduling::law_completion_refunds_and_retries_nothing(s, job_id, outcome, now);
        scheduling::law_only_the_named_scope_is_penalized(s, job_id, outcome, now, scope);
    }
}

// ---------- settings ----------

/// New limits are told back: once they are accepted, the queue answers with
/// them, and otherwise with the old ones. They are accepted exactly if every
/// window has a capacity and a span and every waiting request still fits all
/// windows that apply to it.
pub proof fn law_accepted_limits_are_told_back(
    q: QueueView,
    limits: OutboundLimits,
    now: Instant,
    reply: QueueReply,
    told: QueueReply,
)
    requires
        q.inv(),
        q.answers(QueueCommand::SetLimits { limits }, reply),
        q.handle((QueueCommand::SetLimits { limits }), now).answers(QueueCommand::GetLimits, told),
    ensures
        reply matches QueueReply::LimitsSet(result) && told matches QueueReply::Limits(known) && {
            &&& result is Ok ==> known.global@ == limits.global@ && known.chat@ == limits.chat@
            &&& result is Err ==> known.global@ == q.scheduler.global_limits && known.chat@
                == q.scheduler.chat_limits
            &&& result is Ok <==> {
                &&& forall|i: int|
                    0 <= i < limits.global@.len() ==> (#[trigger] limits.global@[i]).capacity > 0
                        && limits.global@[i].window.nanos > 0
                &&& forall|i: int|
                    0 <= i < limits.chat@.len() ==> (#[trigger] limits.chat@[i]).capacity > 0
                        && limits.chat@[i].window.nanos > 0
                &&& forall|k: u64| #[trigger]
                    q.scheduler.jobs.contains_key(k) ==> scheduling::fits_limits(
                        q.scheduler.jobs[k].meta.weight@,
                        q.scheduler.jobs[k].meta.scope,
                        limits,
                    )
            }
        },
{
    scheduling::law_usable_limits_are_accepted(q.scheduler, limits);
    scheduling::law_accepted_limits_are_in_force(q.scheduler, limits, now);
}

// ---------- waiting ----------

/// The timer goes off when something can become due: at the deadline that the
/// scheduler names, at once if it asks for that, and otherwise not before a
/// year has gone by, or the last moment there is.
pub proof fn law_the_timer_follows_the_wakeup(at: Instant, now: Instant)
    ensures
        actor::timer_at(SchedulerWakeup::At(at), now) == at,
        actor::timer_at(SchedulerWakeup::Immediate, now) == now,
        ({
            let parked = actor::timer_at(SchedulerWakeup::ExternalEvent, now).nanos;
            parked == now.nanos + 365 * 24 * 3600 * 1_000_000_000 || parked == u64::MAX
                && now.nanos + 365 * 24 * 3600 * 1_000_000_000 > u64::MAX
        }),
{
}

/// What an acquire comes to: a reply with a job makes it wait for that job, a
/// grant then gives the permit of that job, and every other event fails it
/// with the reason that the event names. What it does not wait for does not
/// reach it.
pub proof fn law_an_acquire_resolves_as_told(
    state: AcquireState,
    job: JobId,
    error: OutboundQueueError,
)
    ensures
        client::acquire_next(
            AcquireState::Enqueuing,
            AcquireEvent::Replied(Ok::<JobId, OutboundQueueError>(job)),
        ) == Some((AcquireState::Waiting { job_id: job }, None::<AcquireOutcome>)),
        client::acquire_next(
            AcquireState::Enqueuing,
            AcquireEvent::Replied(Err::<JobId, OutboundQueueError>(error)),
        ) matches Some((AcquireState::Done, Some(AcquireOutcome::Failed(told)))) && match error {
            OutboundQueueError::QueueFull => told is QueueFull,
            OutboundQueueError::Closed => told is Closed,
            OutboundQueueError::IncompatibleCoalesceMetadata =>
                told is IncompatibleCoalesceMetadata,
            OutboundQueueError::WeightExceedsWindow { scope, weight, capacity } => told
                == (OutboundAcquireError::WeightExceedsWindow { scope, weight, capacity }),
        },
        client::acquire_next(AcquireState::Waiting { job_id: job }, AcquireEvent::Granted) == Some(
            (AcquireState::Done, Some(AcquireOutcome::Permit(job))),
        ),
        client::acquire_next(AcquireState::Waiting { job_id: job }, AcquireEvent::Superseded)
            == Some(
            (
                AcquireState::Done,
                Some(AcquireOutcome::Failed(OutboundAcquireError::Superseded)),
            ),
        ),
        state !is Done ==> client::acquire_next(state, AcquireEvent::Closed) == Some(
            (AcquireState::Done, Some(AcquireOutcome::Failed(OutboundAcquireError::Closed))),
        ),
        state !is Waiting ==> client::acquire_next(state, AcquireEvent::Granted) is None
            && client::acquire_next(state, AcquireEvent::Superseded) is None,
{
}

/// What a snapshot counts: the jobs that wait, those in flight, those that
/// wait for a moment of their own, and of the candidates that failed admission
/// each job and each lane once, as long as it still waits and stands in no
/// other queue.
pub proof fn law_a_snapshot_counts_who_waits(q: QueueView, reply: QueueReply, k: u64)
    requires
        q.inv(),
        q.answers(QueueCommand::GetSnapshot, reply),
    ensures
        reply matches QueueReply::Snapshot(told) && {
            let s = q.scheduler;
            let later = s.jobs.dom().filter(|id: u64| s.jobs[id].not_before is Some);
            let jobs = s.jobs.dom().filter(
                |id: u64|
                    !s.jobs[id].in_candidate_heap && exists|e: BlockedJob| #[trigger]
                        s.blocked.contains(e) && e.until.nanos > 0 && e.reference
                            == CandidateRef::Job(JobId { value: id }),
            );
            let lanes = s.lanes.dom().filter(
                |key: u64|
                    !s.lanes[key].in_candidate_heap && s.lanes[key].in_flight is None && (exists|
                        e: BlockedJob,
                    | #[trigger]
                        s.blocked.contains(e) && e.until.nanos > 0 && e.reference
                            == CandidateRef::Lane(OutboundLaneKey { value: key })) && exists|
                        i: int,
                    |
                        0 <= i < s.lanes[key].pending.len() && s.jobs.contains_key(
                            (#[trigger] s.lanes[key].pending[i]).1.value,
                        ),
            );
            &&& told.pending == s.jobs.dom().len()
            &&& told.in_flight == s.in_flight.dom().len()
            &&& told.delayed == later.len()
            &&& told.delayed <= told.pending
            &&& told.blocked == jobs.len() + lanes.len()
            &&& told.candidates == s.candidates.len()
            &&& told.reservations == s.reservations.len()
            &&& told.delayed == 0 && s.jobs.contains_key(k) ==> s.jobs[k].not_before is None
        },
{
    let s = q.scheduler;
    let later = s.jobs.dom().filter(|id: u64| s.jobs[id].not_before is Some);
    assert(later =~= s.delayed_jobs());
    vstd::set_lib::lemma_len_subset(later, s.jobs.dom());
    if later.len() == 0 && s.jobs.contains_key(k) && s.jobs[k].not_before is Some {
        assert(later.contains(k));
        assert(later =~= Set::empty());
    }
    let jobs = s.jobs.dom().filter(
        |id: u64|
            !s.jobs[id].in_candidate_heap && exists|e: BlockedJob| #[trigger]
                s.blocked.contains(e) && e.until.nanos > 0 && e.reference == CandidateRef::Job(
                    JobId { value: id },
                ),
    );
    assert(jobs =~= s.blocked_jobs());
    let lanes = s.lanes.dom().filter(
        |key: u64|
            !s.lanes[key].in_candidate_heap && s.lanes[key].in_flight is None && (exists|
                e: BlockedJob,
            | #[trigger]
                s.blocked.contains(e) && e.until.nanos > 0 && e.reference == CandidateRef::Lane(
                    OutboundLaneKey { value: key },
                )) && exists|i: int|
                0 <= i < s.lanes[key].pending.len() && s.jobs.contains_key(
                    (#[trigger] s.lanes[key].pending[i]).1.value,
                ),
    );
    assert(lanes =~= s.blocked_lanes());
}

/// What starting a request does: it frees a lane that lets its requests start
/// in order for the next one, and ends no permit. In a lane of the other kind,
/// without a lane or without a permit it does nothing.
#[verifier::spinoff_prover]
#[verifier::rlimit(40)]
pub proof fn law_a_started_request_frees_an_ordered_lane(
    q: QueueView,
    job_id: JobId,
    now: Instant,
    k: u64,
)
    requires
        q.inv(),
    ensures
        ({
            let after = q.handle((QueueCommand::Start { job_id }), now);
            let held = q.scheduler.in_flight;
            let ordered = held.contains_key(job_id.value) && (
            held[job_id.value].lane matches Some(key) && key.value >= 0x8000_0000_0000_0000);
            &&& after.waiters == q.waiters
            &&& !ordered ==> after == q
            &&& after.scheduler.in_flight.contains_key(k) <==> held.contains_key(k)
            &&& k != job_id.value && held.contains_key(k) ==> after.scheduler.in_flight[k]
                == held[k]
            &&& ordered ==> after.scheduler.in_flight[job_id.value].lane is None
            &&& ordered ==> {
                let key = held[job_id.value].lane->0.value;
                after.scheduler.lanes.contains_key(key)
                    ==> after.scheduler.lanes[key].in_flight is None
            }
            &&& after.scheduler.jobs.contains_key(k) <==> q.scheduler.jobs.contains_key(k)
            &&& after.scheduler.penalties == q.scheduler.penalties
            &&& after.scheduler.global_windows == q.scheduler.global_windows
            &&& after.scheduler.chat_window_sets == q.scheduler.chat_window_sets
        }),
{
    let s = q.scheduler;
    if s.in_flight.contains_key(job_id.value) {
        if let Some(key) = s.in_flight[job_id.value].lane {
            if key.value >= 0x8000_0000_0000_0000 {
                scheduling::law_started_job_frees_its_ordered_lane(
                    s,
                    job_id,
                    key,
                    OutboundCompletion::Success,
                    now,
                    now,
                );
                assert(s.start(job_id, now).in_flight.dom().contains(k)
                    <==> s.in_flight.dom().contains(k));
            }
        }
    }
}

} // verus!
