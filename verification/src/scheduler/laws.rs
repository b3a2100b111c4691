//! The promises of the scheduler, proved of the model its operations follow.

use super::entries::{Candidate, CandidateRef, CoalesceKey, DelayedJob, Job};
use super::model::SchedulerView;
use super::{entries, lane, model, pass};
use crate::time::Instant;
use crate::types::{
    AgingPolicy, EnqueueError, Grant, JobId, OutboundCompletion, OutboundEnqueueMode,
    OutboundLaneKey, OutboundLimits, OutboundMeta, OutboundScope, SchedulerConfigError, WindowLimit,
    HIGHEST_LEVEL,
};
use crate::window::WindowView;
use crate::{heap, types, window};
use vstd::prelude::*;

verus! {

broadcast use vstd::multiset::group_multiset_axioms;

// ---------- every state ----------

/// A new scheduler is sound.
pub proof fn law_new_scheduler_is_sound(limits: OutboundLimits, aging: AgingPolicy)
    ensures
        SchedulerView::fresh(limits, aging).inv(),
{
    SchedulerView::lemma_fresh_inv(limits, aging);
}

/// Every operation keeps the state sound.
pub proof fn law_operations_keep_the_state_sound(
    s: SchedulerView,
    meta: OutboundMeta,
    mode: OutboundEnqueueMode,
    not_before: Option<Instant>,
    id: JobId,
    completion: OutboundCompletion,
    limits: OutboundLimits,
    now: Instant,
)
    requires
        s.inv(),
        s.next_job_id < u64::MAX,
    ensures
        s.enqueue(meta, mode, not_before, now).inv(),
        s.cancel(id).inv(),
        s.cancel_at(id, now).inv(),
        s.grant_ready(now).inv(),
        s.start(id, now).inv(),
        s.complete(id, completion, now).inv(),
        s.trimmed().inv(),
        s.set_limits(limits, now).inv(),
{
    if s.refusal(meta, mode) is None {
        s.lemma_accept_inv(meta, mode, not_before, now);
    }
    s.lemma_cancel_inv(id);
    s.lemma_cancel_at_inv(id, now);
    s.lemma_grant_ready_inv(now);
    s.lemma_start_inv(id, now);
    s.lemma_complete_inv(id, completion, now);
    s.lemma_trimmed_inv();
    s.lemma_set_limits_inv(limits, now);
}

/// At most one job of an ordering lane is in flight, of an ordered-start lane
/// at most one that has not started.
pub proof fn law_one_job_in_flight_per_lane(s: SchedulerView, a: u64, b: u64)
    requires
        s.inv(),
        s.in_flight.contains_key(a),
        s.in_flight.contains_key(b),
        s.in_flight[a].lane is Some,
        s.in_flight[a].lane == s.in_flight[b].lane,
    ensures
        a == b,
{
    assert(s.flight_ok(a));
    assert(s.flight_ok(b));
}

/// A latest-wins slot has at most one pending job.
pub proof fn law_one_pending_job_per_slot(s: SchedulerView, a: u64, b: u64)
    requires
        s.inv(),
        s.jobs.contains_key(a),
        s.jobs.contains_key(b),
        s.jobs[a].coalesce_key is Some,
        s.jobs[a].coalesce_key == s.jobs[b].coalesce_key,
    ensures
        a == b,
{
}

// ---------- enqueue ----------

/// A refused request changes nothing.
pub proof fn law_refused_request_changes_nothing(
    s: SchedulerView,
    meta: OutboundMeta,
    mode: OutboundEnqueueMode,
    not_before: Option<Instant>,
    now: Instant,
)
    requires
        s.enqueue_result(meta, mode) is Err,
    ensures
        s.enqueue(meta, mode, not_before, now) == s,
{
}

proof fn lemma_too_small(limits: Seq<WindowLimit>, weight: u32)
    ensures
        model::too_small(limits, weight) is None <==> forall|i: int|
            0 <= i < limits.len() ==> weight <= (#[trigger] limits[i]).capacity,
    decreases limits.len(),
{
    if limits.len() > 0 {
        let rest = limits.drop_first();
        lemma_too_small(rest, weight);
        if model::too_small(limits, weight) is None {
            assert forall|i: int| 0 <= i < limits.len() implies weight <= (
            #[trigger] limits[i]).capacity by {
                if i > 0 {
                    assert(rest[i - 1] == limits[i]);
                }
            }
        } else if weight <= limits[0].capacity {
            let j = choose|j: int| 0 <= j < rest.len() && weight > (#[trigger] rest[j]).capacity;
            assert(limits[j + 1] == rest[j]);
        }
    }
}

/// Whether a request fits every window that applies to it.
pub open spec fn fits_every_window(s: SchedulerView, meta: OutboundMeta) -> bool {
    &&& forall|i: int|
        0 <= i < s.global_limits.len() ==> meta.weight@ <= (
        #[trigger] s.global_limits[i]).capacity
    &&& meta.scope matches OutboundScope::Chat(chat) ==> {
        let limits = window::applicable(s.chat_limits, chat.value);
        forall|i: int|
            0 <= i < limits.len() ==> meta.weight@ <= (#[trigger] limits[i]).capacity
    }
}

/// A request is refused for its weight if and only if it fits no applicable
/// window; else it is refused if and only if it would change the weight of
/// the pending job of its slot.
pub proof fn law_refusals(s: SchedulerView, meta: OutboundMeta, mode: OutboundEnqueueMode)
    ensures
        s.enqueue_result(meta, mode) matches Err(EnqueueError::WeightExceedsWindow { .. })
            <==> !fits_every_window(s, meta),
        s.enqueue_result(meta, mode) == Err::<crate::types::EnqueueOutcome, EnqueueError>(
            EnqueueError::IncompatibleCoalesceMetadata,
        ) <==> fits_every_window(s, meta) && s.replaced_by(meta, mode) is Some
            && s.jobs[s.replaced_by(meta, mode)->0.value].meta.weight != meta.weight,
        s.enqueue_result(meta, mode) is Ok <==> fits_every_window(s, meta) && (s.replaced_by(
            meta,
            mode,
        ) is Some ==> s.jobs[s.replaced_by(meta, mode)->0.value].meta.weight == meta.weight),
{
    lemma_too_small(s.global_limits, meta.weight@);
    if let OutboundScope::Chat(chat) = meta.scope {
        lemma_too_small(window::applicable(s.chat_limits, chat.value), meta.weight@);
    }
}

/// Whether `old` is the pending job of the slot that a request names: the
/// request replaces the pending one of its key, scope, lane and class.
pub open spec fn pending_in_slot(
    s: SchedulerView,
    meta: OutboundMeta,
    mode: OutboundEnqueueMode,
    old: JobId,
) -> bool {
    &&& mode matches OutboundEnqueueMode::ReplacePending { user_key }
        && s.jobs.contains_key(old.value) && s.jobs[old.value].coalesce_key == Some(
        CoalesceKey { scope: meta.scope, lane: meta.lane, class: meta.class, user_key },
    )
}

/// What a request of a latest-wins slot is told, if it fits every window: it
/// supersedes exactly the pending job of its slot if that has the same
/// weight, it is refused if that has another weight, and it supersedes
/// nobody if the slot has no pending job. The id it gets has never been
/// issued before.
pub proof fn law_slot_hits(
    s: SchedulerView,
    meta: OutboundMeta,
    mode: OutboundEnqueueMode,
    old: JobId,
)
    requires
        s.inv(),
        fits_every_window(s, meta),
    ensures
        s.enqueue_result(meta, mode) matches Ok(told) ==> {
            &&& told.superseded == Some(old) <==> pending_in_slot(s, meta, mode, old)
            &&& told.job.value == s.next_job_id
            &&& !s.jobs.contains_key(told.job.value)
            &&& !s.in_flight.contains_key(told.job.value)
        },
        pending_in_slot(s, meta, mode, old) ==> {
            &&& s.jobs[old.value].meta.weight == meta.weight <==> s.enqueue_result(
                meta,
                mode,
            ) is Ok
            &&& s.jobs[old.value].meta.weight != meta.weight <==> s.enqueue_result(meta, mode)
                == Err::<crate::types::EnqueueOutcome, EnqueueError>(
                EnqueueError::IncompatibleCoalesceMetadata,
            )
        },
        (forall|other: JobId| !pending_in_slot(s, meta, mode, other)) ==> s.enqueue_result(
            meta,
            mode,
        ) == Ok::<crate::types::EnqueueOutcome, EnqueueError>(
            crate::types::EnqueueOutcome {
                job: JobId { value: s.next_job_id },
                superseded: None,
            },
        ),
{
    law_refusals(s, meta, mode);
    if let Some(holder) = s.replaced_by(meta, mode) {
        assert(s.coalesce.contains_key(SchedulerView::slot_of(meta, mode)->0));
        assert(pending_in_slot(s, meta, mode, holder));
        if pending_in_slot(s, meta, mode, old) {
            law_one_pending_job_per_slot(s, old.value, holder.value);
        }
    }
}

/// Renumbering keeps the order of every two waiting jobs, and what is issued
/// next is above all of them.
pub proof fn law_renumbering_keeps_the_order(s: SchedulerView, a: u64, b: u64)
    requires
        s.inv(),
        s.next_job_id < u64::MAX,
        s.jobs.contains_key(a),
        s.jobs.contains_key(b),
    ensures
        s.rebase_sequences().jobs.dom() == s.jobs.dom(),
        s.jobs[a].sequence < s.jobs[b].sequence <==> s.rebase_sequences().jobs[a].sequence
            < s.rebase_sequences().jobs[b].sequence,
        s.rebase_sequences().jobs[a].sequence < s.rebase_sequences().next_sequence,
{
    s.lemma_rebase_inv();
}

/// A new job gets an id nobody had, and is recorded with its own metadata.
/// If it replaces nothing, its sequence is above that of every waiting job.
pub proof fn law_new_job_comes_last(
    s: SchedulerView,
    meta: OutboundMeta,
    mode: OutboundEnqueueMode,
    not_before: Option<Instant>,
    now: Instant,
    k: u64,
)
    requires
        s.inv(),
        s.next_job_id < u64::MAX,
        s.enqueue_result(meta, mode) is Ok,
        s.replaced_by(meta, mode) is None,
        s.jobs.contains_key(k),
    ensures
        ({
            let after = s.enqueue(meta, mode, not_before, now);
            let id = s.enqueue_result(meta, mode)->Ok_0.job.value;
            &&& !s.jobs.contains_key(id) && !s.in_flight.contains_key(id)
            &&& after.jobs.contains_key(id) && after.jobs[id].meta == meta
            &&& after.jobs[id].not_before == not_before
            &&& after.jobs.contains_key(k) && after.jobs[k].meta == s.jobs[k].meta
            &&& after.jobs[k].sequence < after.jobs[id].sequence
        }),
{
    lemma_accepted(s, meta, mode, not_before, now);
    s.lemma_accept_inv(meta, mode, not_before, now);
    s.lemma_ready_sequence_inv();
    s.lemma_take_sequence_inv();
}

/// The latest request of a slot takes the place of the pending one: the old
/// job is gone, and the new one has its sequence, its place in the lane and,
/// if both are ready, its age.
pub proof fn law_replacement_inherits_the_place(
    s: SchedulerView,
    meta: OutboundMeta,
    mode: OutboundEnqueueMode,
    not_before: Option<Instant>,
    now: Instant,
)
    requires
        s.inv(),
        s.next_job_id < u64::MAX,
        s.enqueue_result(meta, mode) is Ok,
        s.replaced_by(meta, mode) is Some,
    ensures
        ({
            let after = s.enqueue(meta, mode, not_before, now);
            let id = s.enqueue_result(meta, mode)->Ok_0.job.value;
            let old = s.enqueue_result(meta, mode)->Ok_0.superseded->0.value;
            &&& s.jobs.contains_key(old)
            &&& !after.jobs.contains_key(old)
            &&& after.jobs.contains_key(id) && after.jobs[id].meta == meta
            &&& after.jobs[id].sequence == s.jobs[old].sequence
            &&& meta.lane is Some ==> after.jobs[id].lane_order == s.jobs[old].lane_order
            &&& not_before is None && s.jobs[old].not_before is None ==> after.jobs[id].ready_at
                == s.jobs[old].ready_at
            &&& after.in_flight == s.in_flight
            &&& after.global_windows == s.global_windows
            &&& after.chat_window_sets == s.chat_window_sets
        }),
{
    lemma_accepted(s, meta, mode, not_before, now);
    let old = s.replaced_by(meta, mode)->0;
    assert(s.member_ok(old.value));
}

/// Taking in a request leaves every other waiting job waiting, the replaced
/// one excepted.
pub proof fn law_other_jobs_go_on_waiting(
    s: SchedulerView,
    meta: OutboundMeta,
    mode: OutboundEnqueueMode,
    not_before: Option<Instant>,
    now: Instant,
)
    requires
        s.inv(),
        s.next_job_id < u64::MAX,
        s.enqueue_result(meta, mode) is Ok,
    ensures
        forall|k: u64| #[trigger]
            s.enqueue(meta, mode, not_before, now).jobs.contains_key(k) <==> k == s.next_job_id
                || s.jobs.contains_key(k) && s.replaced_by(meta, mode) != Some(
                JobId { value: k },
            ),
        s.enqueue(meta, mode, not_before, now).in_flight == s.in_flight,
{
    lemma_accepted(s, meta, mode, not_before, now);
    s.lemma_ready_sequence_inv();
    let after = s.enqueue(meta, mode, not_before, now);
    let ready = s.before_insert(meta, mode);
    assert forall|k: u64| #[trigger] after.jobs.contains_key(k) <==> k == s.next_job_id
        || s.jobs.contains_key(k) && s.replaced_by(meta, mode) != Some(JobId { value: k }) by {
        assert(after.jobs.dom().contains(k) <==> ready.jobs.dom().contains(k) || k
            == s.next_job_id);
        match s.replaced_by(meta, mode) {
            Some(old) => {
                assert(ready.jobs == s.jobs.remove(old.value));
                assert(JobId { value: old.value } == old);
            },
            None => {
                assert(ready.jobs == s.ready_sequence().jobs);
                assert(s.ready_sequence().jobs.dom().contains(k) <==> s.jobs.dom().contains(k));
            },
        }
    }
}

/// Taking in a request spends nothing and penalizes nothing.
pub proof fn law_enqueue_spends_nothing(
    s: SchedulerView,
    meta: OutboundMeta,
    mode: OutboundEnqueueMode,
    not_before: Option<Instant>,
    now: Instant,
)
    requires
        s.inv(),
        s.next_job_id < u64::MAX,
    ensures
        s.enqueue(meta, mode, not_before, now).global_windows == s.global_windows,
        s.enqueue(meta, mode, not_before, now).chat_window_sets == s.chat_window_sets,
        s.enqueue(meta, mode, not_before, now).penalties == s.penalties,
{
    if s.refusal(meta, mode) is None {
        lemma_accepted(s, meta, mode, not_before, now);
    }
}

// What taking in a request does to the records of the jobs.
pub proof fn lemma_accepted(
    s: SchedulerView,
    meta: OutboundMeta,
    mode: OutboundEnqueueMode,
    not_before: Option<Instant>,
    now: Instant,
)
    requires
        s.inv(),
        s.next_job_id < u64::MAX,
        s.refusal(meta, mode) is None,
    ensures
        ({
            let after = s.accept(meta, mode, not_before, now);
            let ready = s.before_insert(meta, mode);
            let id = s.next_job_id;
            let job = s.new_job(meta, mode, not_before, now);
            &&& ready.next_job_id == id
            &&& after.next_job_id == id + 1
            &&& after.next_sequence == ready.next_sequence
            &&& after.jobs.dom() == ready.jobs.dom().insert(id)
            &&& after.jobs[id].meta == job.meta
            &&& after.jobs[id].sequence == job.sequence
            &&& after.jobs[id].not_before == job.not_before
            &&& after.jobs[id].ready_at == job.ready_at
            &&& job.lane_order is Some ==> after.jobs[id].lane_order == job.lane_order
            &&& meta.lane is None ==> after.jobs[id].lane_order == job.lane_order
            &&& forall|k: u64| #[trigger]
                ready.jobs.contains_key(k) && k != id ==> {
                    &&& after.jobs[k].meta == ready.jobs[k].meta
                    &&& after.jobs[k].sequence == ready.jobs[k].sequence
                    &&& after.jobs[k].not_before == ready.jobs[k].not_before
                    &&& after.jobs[k].ready_at == ready.jobs[k].ready_at
                }
            &&& after.in_flight == s.in_flight
            &&& after.penalties == s.penalties
            &&& after.global_windows == s.global_windows
            &&& after.chat_window_sets == s.chat_window_sets
            &&& after.global_limits == s.global_limits
            &&& after.chat_limits == s.chat_limits
            &&& after.aging == s.aging
        }),
{
    let old = s.replaced_by(meta, mode);
    let ready = s.before_insert(meta, mode);
    let id = JobId { value: ready.next_job_id };
    let job = s.new_job(meta, mode, not_before, now);
    let recorded = SchedulerView {
        jobs: ready.jobs.insert(id.value, job),
        next_job_id: (ready.next_job_id + 1) as u64,
        delayed: match not_before {
            Some(until) => ready.delayed.insert(
                DelayedJob { not_before: until, sequence: job.sequence, job: id },
            ),
            None => ready.delayed,
        },
        ..ready
    };
    let after = s.accept(meta, mode, not_before, now);
    match meta.lane {
        Some(key) => {
            lemma_entered(recorded, key, id, job.lane_order, old, now);
            assert forall|k: u64| #[trigger] ready.jobs.contains_key(k) && k != id.value implies {
                &&& after.jobs[k].meta == ready.jobs[k].meta
                &&& after.jobs[k].sequence == ready.jobs[k].sequence
                &&& after.jobs[k].not_before == ready.jobs[k].not_before
                &&& after.jobs[k].ready_at == ready.jobs[k].ready_at
            } by {
                assert(recorded.jobs.contains_key(k));
            }
            assert(recorded.jobs.contains_key(id.value));
            assert(after.jobs.dom() =~= ready.jobs.dom().insert(id.value));
        },
        None => {
            assert(after.jobs.dom() =~= ready.jobs.dom().insert(id.value));
        },
    }
}

// What entering a lane does to the records of the jobs.
pub proof fn lemma_entered(
    s: SchedulerView,
    key: OutboundLaneKey,
    id: JobId,
    inherited: Option<u64>,
    old: Option<JobId>,
    now: Instant,
)
    requires
        s.jobs.contains_key(id.value),
    ensures
        ({
            let after = s.enter_lane(key, id, inherited, old, now);
            &&& after.jobs.dom() == s.jobs.dom()
            &&& forall|k: u64| #[trigger]
                s.jobs.contains_key(k) ==> {
                    &&& after.jobs[k].meta == s.jobs[k].meta
                    &&& after.jobs[k].sequence == s.jobs[k].sequence
                    &&& after.jobs[k].not_before == s.jobs[k].not_before
                    &&& after.jobs[k].ready_at == s.jobs[k].ready_at
                }
            &&& inherited is Some ==> after.jobs[id.value].lane_order == inherited
            &&& after.next_job_id == s.next_job_id
            &&& after.next_sequence == s.next_sequence
            &&& after.in_flight == s.in_flight
            &&& after.penalties == s.penalties
            &&& after.global_windows == s.global_windows
            &&& after.chat_window_sets == s.chat_window_sets
            &&& after.global_limits == s.global_limits
            &&& after.chat_limits == s.chat_limits
            &&& after.aging == s.aging
            &&& after.delayed == s.delayed
        }),
{
    let after = s.enter_lane(key, id, inherited, old, now);
    lemma_renumber_keeps(s.jobs, s.lane_or_empty(key.value).pending);
    assert(after.jobs.dom() =~= s.jobs.dom());
}

// Renumbering a lane changes nothing but the places in it.
pub proof fn lemma_renumber_keeps(jobs: Map<u64, Job>, pending: Seq<(u64, JobId)>)
    ensures
        model::renumber_jobs(jobs, pending).dom() == jobs.dom(),
        forall|k: u64| #[trigger]
            jobs.contains_key(k) ==> {
                let job = model::renumber_jobs(jobs, pending)[k];
                &&& job.meta == jobs[k].meta
                &&& job.sequence == jobs[k].sequence
                &&& job.not_before == jobs[k].not_before
                &&& job.ready_at == jobs[k].ready_at
            },
    decreases pending.len(),
{
    if pending.len() > 0 {
        lemma_renumber_keeps(jobs, pending.drop_last());
        assert(model::renumber_jobs(jobs, pending).dom() =~= jobs.dom());
    }
}

// ---------- cancellation ----------

/// Cancelling takes the job out of the queue and touches nothing else that
/// decides about other jobs: no permit, no window and no penalty.
pub proof fn law_cancel_removes_one_waiting_job(s: SchedulerView, id: JobId)
    requires
        s.inv(),
    ensures
        s.cancel(id).jobs == s.jobs.remove(id.value),
        s.cancel(id).in_flight == s.in_flight,
        s.cancel(id).global_windows == s.global_windows,
        s.cancel(id).chat_window_sets == s.chat_window_sets,
        s.cancel(id).penalties == s.penalties,
        s.cancel(id).candidates == s.candidates,
        forall|slot: CoalesceKey| #[trigger]
            s.cancel(id).coalesce.contains_key(slot) ==> s.cancel(id).coalesce[slot] != id,
{
    lemma_without(s, id);
}

proof fn lemma_without(s: SchedulerView, id: JobId)
    requires
        s.inv(),
    ensures
        s.without(id).jobs == s.jobs.remove(id.value),
        forall|slot: CoalesceKey| #[trigger]
            s.without(id).coalesce.contains_key(slot) ==> s.without(id).coalesce[slot] != id,
{
    if !s.jobs.contains_key(id.value) {
        assert(s.jobs.remove(id.value) =~= s.jobs);
        assert forall|slot: CoalesceKey| #[trigger] s.coalesce.contains_key(slot) implies
            s.coalesce[slot] != id by {}
    } else {
        assert forall|slot: CoalesceKey| #[trigger]
            s.without(id).coalesce.contains_key(slot) implies s.without(id).coalesce[slot]
            != id by {
            assert(s.coalesce.contains_key(slot));
        }
    }
}

/// What a cancelled job leaves behind: the lanes stay as free as they were,
/// every hold the job asked for has ended by `now`, and whatever waits
/// behind it keeps its place.
pub open spec fn leaves_no_lock(
    s: SchedulerView,
    id: JobId,
    after: SchedulerView,
    now: Instant,
) -> bool {
    &&& after.jobs.dom() == s.jobs.dom().remove(id.value)
    &&& forall|k: u64| #[trigger]
        after.jobs.contains_key(k) ==> pass::same_request(after.jobs[k], s.jobs[k])
    &&& after.in_flight == s.in_flight
    &&& after.global_windows == s.global_windows
    &&& after.chat_window_sets == s.chat_window_sets
    &&& after.penalties == s.penalties
    &&& after.reservations.len() == s.reservations.len()
    &&& forall|i: int|
        0 <= i < s.reservations.len() ==> (#[trigger] after.reservations[i]).owner
            == s.reservations[i].owner && (s.reservations[i].owner == s.reference_of(id)
            ==> after.reservations[i].until.nanos <= now.nanos)
    &&& forall|key: u64| #[trigger]
        after.lanes.contains_key(key) ==> after.lanes[key].in_flight == s.lanes[key].in_flight
}

/// A cancelled job leaves no lock behind, however it is cancelled.
pub proof fn law_cancelled_job_leaves_no_lock(s: SchedulerView, id: JobId, now: Instant)
    requires
        s.inv(),
        s.jobs.contains_key(id.value),
    ensures
        leaves_no_lock(s, id, s.cancel_at(id, now), now),
        leaves_no_lock(s, id, s.cancel(id), now),
{
    lemma_without(s, id);
    let reference = s.reference_of(id);
    let mid = s.without(id).release_holds(reference, now);
    let after = s.cancel_at(id, now);
    assert(mid.jobs.dom() =~= s.jobs.dom().remove(id.value));
    if let CandidateRef::Lane(key) = reference {
        mid.lemma_push_waits(reference, now, now);
        assert forall|k: u64| #[trigger] after.jobs.contains_key(k) implies pass::same_request(
            after.jobs[k],
            s.jobs[k],
        ) by {
            assert(mid.jobs.dom().contains(k));
        }
    }
}

// ---------- completion ----------

/// A job of an ordered-start lane that has started holds its lane no more:
/// the lane is free for its next job while the first one is still in flight,
/// and neither another start nor the completion touches a lane again. It
/// takes no job back, spends nothing and refunds nothing.
pub proof fn law_started_job_frees_its_ordered_lane(
    s: SchedulerView,
    id: JobId,
    key: OutboundLaneKey,
    completion: OutboundCompletion,
    now: Instant,
    later: Instant,
)
    requires
        s.inv(),
        s.in_flight.contains_key(id.value),
        s.in_flight[id.value].lane == Some(key),
        types::lane_mode(key.value) is OrderedStart,
    ensures
        ({
            let after = s.start(id, now);
            &&& after.lanes.contains_key(key.value) ==> after.lanes[key.value].in_flight is None
            &&& after.in_flight.dom() == s.in_flight.dom()
            &&& after.jobs == s.jobs
            &&& after.global_windows == s.global_windows
            &&& after.chat_window_sets == s.chat_window_sets
            &&& after.penalties == s.penalties
            &&& after.start(id, later) == after
            &&& after.complete(id, completion, later).lanes == after.lanes
        }),
{
    assert(s.flight_ok(id.value));
    assert(s.start(id, now).in_flight.dom() =~= s.in_flight.dom());
}

/// A job of a serial lane holds its lane until it is completed: starting it
/// changes nothing. Neither does starting a job that is not in flight.
pub proof fn law_started_job_keeps_its_serial_lane(s: SchedulerView, id: JobId, now: Instant)
    requires
        s.in_flight.contains_key(id.value) ==> (s.in_flight[id.value].lane matches Some(key)
            ==> types::lane_mode(key.value) is Serial),
    ensures
        s.start(id, now) == s,
{
}

/// Completing a job twice is completing it once.
pub proof fn law_completing_twice_is_completing_once(
    s: SchedulerView,
    id: JobId,
    first: OutboundCompletion,
    second: OutboundCompletion,
    now: Instant,
    later: Instant,
)
    ensures
        !s.complete(id, first, now).in_flight.contains_key(id.value),
        s.complete(id, first, now).complete(id, second, later) == s.complete(id, first, now),
{
}

/// Completing a job ends its permit and no other one, and never refunds the
/// budget or brings a request back.
pub proof fn law_completion_refunds_and_retries_nothing(
    s: SchedulerView,
    id: JobId,
    completion: OutboundCompletion,
    now: Instant,
)
    ensures
        ({
            let after = s.complete(id, completion, now);
            &&& after.in_flight == s.in_flight.remove(id.value)
            &&& after.jobs == s.jobs
            &&& after.global_windows == s.global_windows
            &&& after.chat_window_sets == s.chat_window_sets
            &&& after.delayed == s.delayed
            &&& after.coalesce == s.coalesce
            &&& after.next_job_id == s.next_job_id
        }),
{
    assert(!s.in_flight.contains_key(id.value) ==> s.in_flight.remove(id.value) =~= s.in_flight);
}

/// A completion penalizes exactly the scope it names, never shortens a
/// penalty, and without a `RetryAfter` penalizes nothing. The scope of the
/// completed request plays no part.
pub proof fn law_only_the_named_scope_is_penalized(
    s: SchedulerView,
    id: JobId,
    completion: OutboundCompletion,
    now: Instant,
    other: OutboundScope,
)
    requires
        s.in_flight.contains_key(id.value),
    ensures
        ({
            let after = s.complete(id, completion, now);
            match completion {
                OutboundCompletion::RetryAfter { scope, duration } => {
                    &&& other != scope ==> (after.penalties.contains_key(other)
                        <==> s.penalties.contains_key(other)) && after.penalties[other]
                        == s.penalties[other]
                    &&& now.plus(duration).nanos > now.nanos ==> {
                        &&& after.penalties.contains_key(scope)
                        &&& after.penalties[scope].nanos >= now.plus(duration).nanos
                        &&& s.penalties.contains_key(scope) ==> after.penalties[scope].nanos
                            >= s.penalties[scope].nanos
                        &&& after.penalties[scope] == now.plus(duration)
                            || s.penalties.contains_key(scope) && after.penalties[scope]
                            == s.penalties[scope]
                    }
                },
                _ => after.penalties == s.penalties,
            }
        }),
{
}

// ---------- aging ----------

/// Aging never lowers a priority, never lowers it again as time passes, and
/// never exceeds the highest level.
pub proof fn law_effective_priority_only_rises(
    job: Job,
    aging: AgingPolicy,
    now: Instant,
    later: Instant,
)
    requires
        now.nanos <= later.nanos,
    ensures
        job.meta.priority.value <= entries::effective(job, aging, now),
        entries::effective(job, aging, now) <= entries::effective(job, aging, later),
        entries::effective(job, aging, later) <= HIGHEST_LEVEL,
{
    let q = entries::quantum_nanos(aging) as int;
    let a = if now.nanos > job.ready_at.nanos {
        now.nanos - job.ready_at.nanos
    } else {
        0
    };
    let b = if later.nanos > job.ready_at.nanos {
        later.nanos - job.ready_at.nanos
    } else {
        0
    };
    assert(a / q <= b / q) by (nonlinear_arith)
        requires
            0 <= a <= b,
            q >= 1,
    ;
    assert(0 <= a / q) by (nonlinear_arith)
        requires
            0 <= a,
            q >= 1,
    ;
}

/// Nothing starves by priority: under a policy that can reach the highest
/// level, a job is at the highest level once it has waited as many quanta as
/// it is levels below.
pub proof fn law_every_job_reaches_the_highest_level(job: Job, aging: AgingPolicy, now: Instant)
    requires
        aging.quantum.nanos > 0,
        aging.max_boost >= HIGHEST_LEVEL,
        now.nanos - job.ready_at.nanos >= (HIGHEST_LEVEL - job.meta.priority.value)
            * aging.quantum.nanos,
    ensures
        entries::effective(job, aging, now) == HIGHEST_LEVEL,
{
    let q = aging.quantum.nanos as int;
    let n = HIGHEST_LEVEL - job.meta.priority.value;
    let waited = now.nanos - job.ready_at.nanos;
    assert(n * q >= 0) by (nonlinear_arith)
        requires
            n >= 0,
            q > 0,
    ;
    assert(waited / q >= n) by (nonlinear_arith)
        requires
            waited >= n * q,
            n >= 0,
            q > 0,
    ;
    if waited == 0 {
        assert(0int / q == 0) by (nonlinear_arith)
            requires
                q > 0,
        ;
    }
}

// ---------- a grant pass ----------

/// Whether `a` stands before `b` in a lane.
pub open spec fn stands_before(a: Job, a_id: u64, b: Job, b_id: u64) -> bool {
    &&& a.lane_order is Some
    &&& b.lane_order is Some
    &&& lane::entry_lt(
        (a.lane_order->0, JobId { value: a_id }),
        (b.lane_order->0, JobId { value: b_id }),
    )
}

/// What holds of a job that is granted in a pass that starts in `s`.
pub open spec fn may_be_granted(s: SchedulerView, id: u64, now: Instant) -> bool {
    let job = s.jobs[id];
    &&& s.jobs.contains_key(id)
    &&& !entries::delayed_at(job, now)
    &&& !s.penalty_active(OutboundScope::Global, now)
    &&& !s.penalty_active(job.meta.scope, now)
    &&& job.meta.lane is Some ==> {
        &&& forall|k: u64| #[trigger]
            s.in_flight.contains_key(k) ==> s.in_flight[k].lane != job.meta.lane
        &&& forall|k: u64| #[trigger]
            s.jobs.contains_key(k) && k != id && s.jobs[k].meta.lane == job.meta.lane
                ==> stands_before(job, id, s.jobs[k], k)
    }
}

/// Whether the list of grants names the job.
pub open spec fn names(grants: Seq<Grant>, id: u64) -> bool {
    grants.contains(Grant { job: JobId { value: id } })
}

/// What a pass that starts in `s`, ends in `end` and makes `grants` does.
pub open spec fn pass_moves(
    s: SchedulerView,
    end: SchedulerView,
    grants: Seq<Grant>,
    now: Instant,
) -> bool {
    &&& forall|i: int|
        0 <= i < grants.len() ==> may_be_granted(s, (#[trigger] grants[i]).job.value, now)
    &&& forall|i: int, j: int|
        0 <= i < j < grants.len() ==> (#[trigger] grants[i]).job != (#[trigger] grants[j]).job
    &&& forall|k: u64| #[trigger]
        end.jobs.contains_key(k) <==> s.jobs.contains_key(k) && !names(grants, k)
    &&& forall|k: u64| #[trigger]
        end.jobs.contains_key(k) ==> pass::same_request(end.jobs[k], s.jobs[k])
    &&& forall|k: u64| #[trigger]
        end.in_flight.contains_key(k) <==> s.in_flight.contains_key(k) || names(grants, k)
    &&& forall|k: u64| #[trigger]
        s.in_flight.contains_key(k) ==> end.in_flight[k] == s.in_flight[k]
    &&& forall|k: u64| #[trigger]
        names(grants, k) ==> end.in_flight[k].lane == s.jobs[k].meta.lane
    &&& end.next_job_id == s.next_job_id
    &&& end.global_limits == s.global_limits
    &&& end.chat_limits == s.chat_limits
}

proof fn lemma_may_be_granted_earlier(
    s: SchedulerView,
    mid: SchedulerView,
    id: u64,
    now: Instant,
)
    requires
        s.waits_on(mid, now),
        may_be_granted(mid, id, now),
    ensures
        may_be_granted(s, id, now),
{
    assert(s.jobs.dom().contains(id));
    assert(s.jobs.contains_key(id));
    if s.jobs[id].meta.lane is Some {
        assert forall|k: u64| #[trigger] s.jobs.contains_key(k) && k != id
            && s.jobs[k].meta.lane == s.jobs[id].meta.lane implies stands_before(
            s.jobs[id],
            id,
            s.jobs[k],
            k,
        ) by {
            assert(mid.jobs.dom().contains(k));
            assert(mid.jobs.contains_key(k));
        }
    }
}

proof fn lemma_popped_may_be_granted(s: SchedulerView, c: Candidate, now: Instant)
    requires
        s.inv(),
        s.grantable(c, now),
        s.admission(c, now) is Pass,
        c.scope == s.jobs[c.job.value].meta.scope,
    ensures
        may_be_granted(s, c.job.value, now),
{
    let id = c.job.value;
    let job = s.jobs[id];
    if let Some(key) = job.meta.lane {
        let pending = s.lanes[key.value].pending;
        assert(s.lane_ok(key.value));
        assert(pending[0].1 == c.job);
        assert forall|k: u64| #[trigger] s.in_flight.contains_key(k) implies s.in_flight[k].lane
            != job.meta.lane by {
            assert(s.flight_ok(k));
        }
        assert forall|k: u64| #[trigger] s.jobs.contains_key(k) && k != id
            && s.jobs[k].meta.lane == job.meta.lane implies stands_before(
            job,
            id,
            s.jobs[k],
            k,
        ) by {
            assert(s.member_ok(k));
            let entry = (s.jobs[k].lane_order->0, JobId { value: k });
            let i = choose|i: int| 0 <= i < pending.len() && pending[i] == entry;
            assert(i != 0);
            assert(lane::entry_lt(pending[0], pending[i]));
            assert(JobId { value: id } == c.job);
        }
    }
}

proof fn lemma_names_front(first: Grant, rest: Seq<Grant>)
    ensures
        forall|k: u64| #[trigger]
            names(seq![first] + rest, k) <==> k == first.job.value || names(rest, k),
{
    let all = seq![first] + rest;
    assert forall|k: u64| #[trigger] names(all, k) <==> k == first.job.value || names(rest, k) by {
        let g = Grant { job: JobId { value: k } };
        if k == first.job.value {
            assert(all[0] == g);
        }
        if names(rest, k) {
            let j = choose|j: int| 0 <= j < rest.len() && rest[j] == g;
            assert(all[j + 1] == g);
        }
        if names(all, k) {
            let j = choose|j: int| 0 <= j < all.len() && all[j] == g;
            if j > 0 {
                assert(rest[j - 1] == g);
            }
        }
    }
}

pub proof fn lemma_loop_moves(s: SchedulerView, now: Instant)
    requires
        s.inv(),
    ensures
        pass_moves(s, s.grant_loop(now).0, s.grant_loop(now).1, now),
        s.grant_loop(now).0.penalties == s.penalties,
    decreases
        s.jobs.dom().len(),
        model::lingering(s.reservations, now),
        s.disorder(now),
        s.candidates.len(),
{
    s.lemma_pick_inv(now);
    s.lemma_pick_waits(now);
    s.lemma_picked_describes(now);
    let (popped, found) = s.pick(now);
    let (end, grants) = s.grant_loop(now);
    assert forall|k: u64| popped.jobs.contains_key(k) <==> #[trigger] s.jobs.contains_key(k) by {
        assert(popped.jobs.dom().contains(k) <==> s.jobs.dom().contains(k));
    }
    if let Some(c) = found {
        s.lemma_settle_decreases(now);
        popped.lemma_settle_inv(c, now);
        popped.lemma_settle_waits(c, now);
        popped.lemma_dispose_frame(c, now);
        popped.lemma_dispose_waits(c, now);
        let done = popped.dispose(c, now);
        let after = popped.settle(c, now);
        assert forall|k: u64| done.jobs.contains_key(k) <==> #[trigger] after.jobs.contains_key(
            k,
        ) by {
            assert(after.jobs.dom().contains(k) <==> done.jobs.dom().contains(k));
        }
        lemma_loop_moves(after, now);
        let (last, rest) = after.grant_loop(now);
        let id = c.job.value;
        assert(popped.jobs.contains_key(id));
        if popped.admission(c, now) is Pass {
            let first = Grant { job: c.job };
            assert(grants == seq![first] + rest);
            lemma_names_front(first, rest);
            lemma_popped_may_be_granted(popped, c, now);
            lemma_may_be_granted_earlier(s, popped, id, now);
            assert forall|i: int| 0 <= i < grants.len() implies may_be_granted(
                s,
                (#[trigger] grants[i]).job.value,
                now,
            ) by {
                if i > 0 {
                    let g = rest[i - 1];
                    assert(grants[i] == g);
                    let j = g.job.value;
                    assert(may_be_granted(after, j, now));
                    assert(may_be_granted(popped, j, now)) by {
                        if after.jobs[j].meta.lane is Some {
                            assert(after.in_flight.contains_key(id));
                            assert(popped.jobs[id].meta.lane != after.jobs[j].meta.lane);
                            assert forall|k: u64| #[trigger]
                                popped.in_flight.contains_key(k) implies popped.in_flight[k].lane
                                != popped.jobs[j].meta.lane by {
                                assert(after.in_flight.contains_key(k));
                            }
                            assert forall|k: u64| #[trigger] popped.jobs.contains_key(k) && k != j
                                && popped.jobs[k].meta.lane
                                == popped.jobs[j].meta.lane implies stands_before(
                                popped.jobs[j],
                                j,
                                popped.jobs[k],
                                k,
                            ) by {
                                assert(k != id);
                                assert(after.jobs.contains_key(k));
                            }
                        }
                    }
                    lemma_may_be_granted_earlier(s, popped, j, now);
                }
            }
            assert forall|i: int, j: int| 0 <= i < j < grants.len() implies (
            #[trigger] grants[i]).job != (#[trigger] grants[j]).job by {
                assert(grants[j] == rest[j - 1]);
                assert(may_be_granted(after, rest[j - 1].job.value, now));
                if i == 0 {
                    assert(!after.jobs.contains_key(id));
                } else {
                    assert(grants[i] == rest[i - 1]);
                }
            }
            assert forall|k: u64| #[trigger] end.jobs.contains_key(k) <==> s.jobs.contains_key(k)
                && !names(grants, k) by {
                assert(after.jobs.contains_key(k) <==> popped.jobs.contains_key(k) && k != id);
            }
            assert forall|k: u64| #[trigger] end.in_flight.contains_key(k)
                <==> s.in_flight.contains_key(k) || names(grants, k) by {
                assert(after.in_flight.contains_key(k) <==> popped.in_flight.contains_key(k)
                    || k == id);
            }
            assert forall|k: u64| #[trigger] s.in_flight.contains_key(k) implies end.in_flight[k]
                == s.in_flight[k] by {
                assert(popped.in_flight.contains_key(k));
                assert(k != id);
                assert(after.in_flight.contains_key(k));
            }
            assert forall|k: u64| #[trigger] names(grants, k) implies end.in_flight[k].lane
                == s.jobs[k].meta.lane by {
                if k == id {
                    assert(after.in_flight.contains_key(id));
                } else {
                    assert(names(rest, k));
                    let j = choose|j: int|
                        0 <= j < rest.len() && rest[j] == (Grant { job: JobId { value: k } });
                    assert(may_be_granted(after, rest[j].job.value, now));
                    assert(after.jobs.contains_key(k));
                    assert(popped.jobs.contains_key(k));
                }
            }
        } else {
            assert forall|i: int| 0 <= i < grants.len() implies may_be_granted(
                s,
                (#[trigger] grants[i]).job.value,
                now,
            ) by {
                assert(may_be_granted(after, grants[i].job.value, now));
                assert(may_be_granted(popped, grants[i].job.value, now));
                lemma_may_be_granted_earlier(s, popped, grants[i].job.value, now);
            }
            assert forall|k: u64| #[trigger] names(grants, k) implies end.in_flight[k].lane
                == s.jobs[k].meta.lane by {
                let j = choose|j: int|
                    0 <= j < grants.len() && grants[j] == (Grant { job: JobId { value: k } });
                assert(may_be_granted(after, grants[j].job.value, now));
                assert(popped.jobs.contains_key(k));
            }
        }
    } else {
        assert(grants =~= Seq::empty());
    }
}

/// One grant pass: a grant takes a waiting job out of the queue and into
/// flight, no job is granted twice, none before its delay deadline, none
/// under a penalty of its scope or a global one, and of a lane only the
/// first job, if no other one is in flight. All other jobs go on waiting at
/// their place.
pub proof fn law_grant_pass(s: SchedulerView, now: Instant)
    requires
        s.inv(),
    ensures
        pass_moves(s, s.grant_ready(now), s.grants(now), now),
{
    s.lemma_promote_inv(now);
    s.lemma_promote_waits(now);
    let mid = s.promote(now);
    lemma_loop_moves(mid, now);
    let end = s.grant_ready(now);
    let grants = s.grants(now);
    assert forall|k: u64| mid.jobs.contains_key(k) <==> #[trigger] s.jobs.contains_key(k) by {
        assert(mid.jobs.dom().contains(k) <==> s.jobs.dom().contains(k));
    }
    assert forall|i: int| 0 <= i < grants.len() implies may_be_granted(
        s,
        (#[trigger] grants[i]).job.value,
        now,
    ) by {
        lemma_may_be_granted_earlier(s, mid, grants[i].job.value, now);
    }
    assert forall|k: u64| #[trigger] names(grants, k) implies end.in_flight[k].lane
        == s.jobs[k].meta.lane by {
        let j = choose|j: int|
            0 <= j < grants.len() && grants[j] == (Grant { job: JobId { value: k } });
        assert(may_be_granted(mid, grants[j].job.value, now));
        assert(mid.jobs.contains_key(k));
    }
}

/// One enqueue yields at most one permit: an id that was issued and does not
/// wait any more never waits again, so it is never granted again.
pub proof fn law_one_permit_per_enqueue(
    s: SchedulerView,
    gone: u64,
    meta: OutboundMeta,
    mode: OutboundEnqueueMode,
    not_before: Option<Instant>,
    id: JobId,
    completion: OutboundCompletion,
    limits: OutboundLimits,
    now: Instant,
)
    requires
        s.inv(),
        s.next_job_id < u64::MAX,
        gone < s.next_job_id,
        !s.jobs.contains_key(gone),
    ensures
        !s.enqueue(meta, mode, not_before, now).jobs.contains_key(gone),
        gone < s.enqueue(meta, mode, not_before, now).next_job_id,
        !s.cancel(id).jobs.contains_key(gone),
        !s.cancel_at(id, now).jobs.contains_key(gone),
        !s.grant_ready(now).jobs.contains_key(gone),
        !names(s.grants(now), gone),
        !s.complete(id, completion, now).jobs.contains_key(gone),
        !s.set_limits(limits, now).jobs.contains_key(gone),
{
    if s.refusal(meta, mode) is None {
        lemma_accepted(s, meta, mode, not_before, now);
        s.lemma_ready_sequence_inv();
        let ready = s.before_insert(meta, mode);
        assert(!ready.jobs.contains_key(gone)) by {
            if s.replaced_by(meta, mode) is None {
                assert(ready.jobs == s.ready_sequence().jobs);
                if s.next_sequence == u64::MAX {
                    s.lemma_rebase_inv();
                    assert(s.rebase_sequences().jobs.dom() == s.jobs.dom());
                    assert(!s.rebase_sequences().jobs.dom().contains(gone));
                }
            }
        }
        assert(!s.accept(meta, mode, not_before, now).jobs.dom().contains(gone));
    }
    law_cancel_removes_one_waiting_job(s, id);
    if s.jobs.contains_key(id.value) {
        law_cancelled_job_leaves_no_lock(s, id, now);
        assert(!s.cancel_at(id, now).jobs.dom().contains(gone));
    }
    law_grant_pass(s, now);
    if names(s.grants(now), gone) {
        let grants = s.grants(now);
        let j = choose|j: int|
            0 <= j < grants.len() && grants[j] == (Grant { job: JobId { value: gone } });
        assert(may_be_granted(s, grants[j].job.value, now));
    }
    law_completion_refunds_and_retries_nothing(s, id, completion, now);
    lemma_new_limits_wait(s, limits, now);
    assert(!s.set_limits(limits, now).jobs.dom().contains(gone));
}

/// Reading the deadlines leaves every job alone.
pub proof fn lemma_trimmed_keeps_jobs(s: SchedulerView)
    ensures
        s.trimmed().jobs == s.jobs,
        s.trimmed().in_flight == s.in_flight,
        s.trimmed().lanes == s.lanes,
        s.trimmed().candidates == s.candidates,
        s.trimmed().reservations == s.reservations,
        s.trimmed().next_job_id == s.next_job_id,
        s.trimmed().aging == s.aging,
        s.trimmed().global_windows == s.global_windows,
        s.trimmed().chat_window_sets == s.chat_window_sets,
        s.trimmed().global_limits == s.global_limits,
        s.trimmed().chat_limits == s.chat_limits,
        s.trimmed().penalties == s.penalties,
{
    lemma_trim_delayed_keeps(s);
    lemma_trim_blocked_keeps(s.trim_delayed());
    lemma_trim_aging_keeps(s.trim_delayed().trim_blocked());
}

pub proof fn lemma_trim_delayed_keeps(s: SchedulerView)
    ensures
        s.trim_delayed().jobs == s.jobs,
        s.trim_delayed().in_flight == s.in_flight,
        s.trim_delayed().lanes == s.lanes,
        s.trim_delayed().candidates == s.candidates,
        s.trim_delayed().reservations == s.reservations,
        s.trim_delayed().next_job_id == s.next_job_id,
        s.trim_delayed().aging == s.aging,
        s.trim_delayed().global_windows == s.global_windows,
        s.trim_delayed().chat_window_sets == s.chat_window_sets,
        s.trim_delayed().global_limits == s.global_limits,
        s.trim_delayed().chat_limits == s.chat_limits,
        s.trim_delayed().penalties == s.penalties,
    decreases s.delayed.len(),
{
    if s.delayed.len() > 0 && !s.jobs.contains_key(heap::first_of(s.delayed).job.value) {
        heap::lemma_first_exists(s.delayed);
        model::lemma_remove_shrinks(s.delayed, heap::first_of(s.delayed));
        lemma_trim_delayed_keeps(
            SchedulerView {
                delayed: s.delayed.remove(heap::first_of(s.delayed)),
                stale_delayed: lane::less(s.stale_delayed, 1),
                ..s
            },
        );
    }
}

proof fn lemma_trim_blocked_keeps(s: SchedulerView)
    ensures
        s.trim_blocked().jobs == s.jobs,
        s.trim_blocked().in_flight == s.in_flight,
        s.trim_blocked().lanes == s.lanes,
        s.trim_blocked().candidates == s.candidates,
        s.trim_blocked().reservations == s.reservations,
        s.trim_blocked().next_job_id == s.next_job_id,
        s.trim_blocked().aging == s.aging,
        s.trim_blocked().global_windows == s.global_windows,
        s.trim_blocked().chat_window_sets == s.chat_window_sets,
        s.trim_blocked().global_limits == s.global_limits,
        s.trim_blocked().chat_limits == s.chat_limits,
        s.trim_blocked().penalties == s.penalties,
    decreases s.blocked.len(),
{
    if s.blocked.len() > 0 && !model::reference_alive(
        heap::first_of(s.blocked).reference,
        s.jobs,
        s.lanes,
    ) {
        heap::lemma_first_exists(s.blocked);
        model::lemma_remove_shrinks(s.blocked, heap::first_of(s.blocked));
        lemma_trim_blocked_keeps(
            SchedulerView { blocked: s.blocked.remove(heap::first_of(s.blocked)), ..s },
        );
    }
}

proof fn lemma_trim_aging_keeps(s: SchedulerView)
    ensures
        s.trim_aging().jobs == s.jobs,
        s.trim_aging().in_flight == s.in_flight,
        s.trim_aging().lanes == s.lanes,
        s.trim_aging().candidates == s.candidates,
        s.trim_aging().reservations == s.reservations,
        s.trim_aging().next_job_id == s.next_job_id,
        s.trim_aging().aging == s.aging,
        s.trim_aging().global_windows == s.global_windows,
        s.trim_aging().chat_window_sets == s.chat_window_sets,
        s.trim_aging().global_limits == s.global_limits,
        s.trim_aging().chat_limits == s.chat_limits,
        s.trim_aging().penalties == s.penalties,
    decreases s.aging_events.len(),
{
    if s.aging_events.len() > 0 && !s.is_candidate(heap::first_of(s.aging_events).reference) {
        heap::lemma_first_exists(s.aging_events);
        model::lemma_remove_shrinks(s.aging_events, heap::first_of(s.aging_events));
        lemma_trim_aging_keeps(
            SchedulerView {
                aging_events: s.aging_events.remove(heap::first_of(s.aging_events)),
                ..s
            },
        );
    }
}

// ---------- budget ----------

/// Whether no window of a set counts more than its capacity.
pub open spec fn within(windows: Seq<WindowView>) -> bool {
    forall|i: int|
        0 <= i < windows.len() ==> window::total((#[trigger] windows[i]).history)
            <= windows[i].capacity
}

/// Whether no window of the scheduler counts more than its capacity.
pub open spec fn within_budget(s: SchedulerView) -> bool {
    &&& within(s.global_windows)
    &&& forall|chat: u64| #[trigger]
        s.chat_window_sets.contains_key(chat) ==> within(s.chat_window_sets[chat])
}

proof fn lemma_prune_within(windows: Seq<WindowView>, now: Instant)
    requires
        within(windows),
    ensures
        within(window::prune_all(windows, now)),
{
    let after = window::prune_all(windows, now);
    assert forall|i: int| 0 <= i < after.len() implies window::total(
        (#[trigger] after[i]).history,
    ) <= after[i].capacity by {
        assert(window::total(windows[i].history) <= windows[i].capacity);
        window::lemma_pruned_total(windows[i].history, windows[i].window, now);
    }
}

proof fn lemma_consume_within(windows: Seq<WindowView>, now: Instant, weight: u32)
    requires
        window::all_fit(windows, weight),
    ensures
        within(window::consume_all(windows, now, weight)),
{
    let after = window::consume_all(windows, now, weight);
    assert forall|i: int| 0 <= i < after.len() implies window::total(
        (#[trigger] after[i]).history,
    ) <= after[i].capacity by {
        assert(windows[i].fits(weight));
        window::lemma_total_push(windows[i].history, (now, weight));
    }
}

proof fn lemma_fresh_within(limits: Seq<WindowLimit>)
    ensures
        within(window::fresh_all(limits)),
{
}

proof fn lemma_dispose_within(s: SchedulerView, c: Candidate, now: Instant)
    requires
        within_budget(s),
        c.weight == s.jobs[c.job.value].meta.weight,
        c.scope == s.jobs[c.job.value].meta.scope,
    ensures
        within_budget(s.dispose(c, now)),
{
    lemma_prune_within(s.global_windows, now);
    let checked = s.after_admission(c, now);
    if let OutboundScope::Chat(chat) = c.scope {
        lemma_fresh_within(window::applicable(s.chat_limits, chat.value));
        assert(within(s.chat_windows(chat)));
        lemma_prune_within(s.chat_windows(chat), now);
    }
    assert(within_budget(checked));
    if s.admission(c, now) is Pass {
        lemma_consume_within(checked.global_windows, now, c.weight@);
        if let OutboundScope::Chat(chat) = c.scope {
            lemma_consume_within(checked.chat_windows(chat), now, c.weight@);
        }
        assert(within_budget(checked.grant(c, now)));
        let after = s.dispose(c, now);
        assert(after.global_windows == checked.grant(c, now).global_windows);
        assert(after.chat_window_sets == checked.grant(c, now).chat_window_sets);
    }
}

proof fn lemma_loop_within(s: SchedulerView, now: Instant)
    requires
        s.inv(),
        within_budget(s),
    ensures
        within_budget(s.grant_loop(now).0),
    decreases
        s.jobs.dom().len(),
        model::lingering(s.reservations, now),
        s.disorder(now),
        s.candidates.len(),
{
    s.lemma_pick_inv(now);
    s.lemma_pick_waits(now);
    s.lemma_picked_describes(now);
    let (popped, found) = s.pick(now);
    if let Some(c) = found {
        s.lemma_settle_decreases(now);
        popped.lemma_settle_inv(c, now);
        popped.lemma_settle_waits(c, now);
        assert(popped.jobs.contains_key(c.job.value));
        lemma_dispose_within(popped, c, now);
        lemma_loop_within(popped.settle(c, now), now);
    }
}

/// No grant pass overspends: if no window counts more than its capacity,
/// none does after the pass. A new scheduler starts that way.
pub proof fn law_grant_pass_never_overspends(
    s: SchedulerView,
    now: Instant,
    limits: OutboundLimits,
    aging: AgingPolicy,
)
    requires
        s.inv(),
        within_budget(s),
    ensures
        within_budget(s.grant_ready(now)),
        within_budget(SchedulerView::fresh(limits, aging)),
{
    lemma_fresh_within(limits.global@);
    s.lemma_promote_inv(now);
    s.lemma_promote_waits(now);
    let mid = s.promote(now);
    lemma_loop_within(mid, now);
    let end = mid.grant_loop(now).0;
    let after = s.grant_ready(now);
    assert forall|chat: u64| #[trigger] after.chat_window_sets.contains_key(chat) implies within(
        after.chat_window_sets[chat],
    ) by {
        assert(end.chat_window_sets.contains_key(chat));
        lemma_prune_within(end.chat_window_sets[chat], now);
    }
}

/// What a candidate that passes the admission check consumes is neither held
/// back nor penalized, and has room in every window.
pub proof fn law_admission_needs_room(s: SchedulerView, c: Candidate, now: Instant)
    requires
        s.admission(c, now) is Pass,
    ensures
        !s.held_back(c.scope, now),
        !s.penalty_active(OutboundScope::Global, now),
        !s.penalty_active(c.scope, now),
        s.globally_has_room(c, now),
        s.chat_has_room(c, now),
{
}

// ---------- new limits ----------

pub proof fn lemma_new_limits_wait(s: SchedulerView, limits: OutboundLimits, now: Instant)
    ensures
        s.set_limits(limits, now).jobs.dom() == s.jobs.dom(),
        s.set_limits(limits, now).in_flight == s.in_flight,
        s.set_limits(limits, now).penalties == s.penalties,
        s.set_limits(limits, now).next_job_id == s.next_job_id,
        s.set_limits(limits, now).aging == s.aging,
        s.limits_refusal(limits) is None ==> s.set_limits(limits, now).global_windows
            == s.relimited(limits).global_windows && s.set_limits(limits, now).chat_window_sets
            == s.relimited(limits).chat_window_sets,
{
    if s.limits_refusal(limits) is None {
        let relimited = s.relimited(limits);
        let bound = Instant { nanos: u64::MAX };
        relimited.lemma_wake_blocked_waits(bound, now);
        let woken = relimited.wake_blocked(bound, now);
        let start = SchedulerView { reservations: Seq::empty(), ..woken };
        lemma_wake_parked_waits(start, woken.reservations, now);
    }
}

proof fn lemma_push_references_wait(
    s: SchedulerView,
    references: Seq<CandidateRef>,
    now: Instant,
)
    ensures
        s.push_references(references, now).jobs.dom() == s.jobs.dom(),
        s.push_references(references, now).in_flight == s.in_flight,
        s.push_references(references, now).penalties == s.penalties,
        s.push_references(references, now).global_windows == s.global_windows,
        s.push_references(references, now).chat_window_sets == s.chat_window_sets,
        s.push_references(references, now).next_job_id == s.next_job_id,
        s.push_references(references, now).aging == s.aging,
        s.push_references(references, now).global_limits == s.global_limits,
        s.push_references(references, now).chat_limits == s.chat_limits,
    decreases references.len(),
{
    if references.len() > 0 {
        lemma_push_references_wait(s, references.drop_last(), now);
        s.push_references(references.drop_last(), now).lemma_push_waits(
            references.last(),
            now,
            now,
        );
    }
}

proof fn lemma_wake_parked_waits(
    s: SchedulerView,
    holds: Seq<model::ReservationView>,
    now: Instant,
)
    ensures
        s.wake_parked(holds, now).jobs.dom() == s.jobs.dom(),
        s.wake_parked(holds, now).in_flight == s.in_flight,
        s.wake_parked(holds, now).penalties == s.penalties,
        s.wake_parked(holds, now).global_windows == s.global_windows,
        s.wake_parked(holds, now).chat_window_sets == s.chat_window_sets,
        s.wake_parked(holds, now).next_job_id == s.next_job_id,
        s.wake_parked(holds, now).aging == s.aging,
        s.wake_parked(holds, now).global_limits == s.global_limits,
        s.wake_parked(holds, now).chat_limits == s.chat_limits,
    decreases holds.len(),
{
    if holds.len() > 0 {
        lemma_wake_parked_waits(s, holds.drop_last(), now);
        lemma_push_references_wait(
            s.wake_parked(holds.drop_last(), now),
            holds.last().queue,
            now,
        );
    }
}

/// New limits drop no request, end no permit and no penalty, and forget no
/// spending: every new window starts with what the windows before it still
/// remembered. Refused limits change nothing.
pub proof fn law_new_limits_keep_requests_and_spending(
    s: SchedulerView,
    limits: OutboundLimits,
    now: Instant,
)
    ensures
        s.set_limits(limits, now).jobs.dom() == s.jobs.dom(),
        s.set_limits(limits, now).in_flight == s.in_flight,
        s.set_limits(limits, now).penalties == s.penalties,
        s.limits_refusal(limits) is Some ==> s.set_limits(limits, now) == s,
        s.limits_refusal(limits) is None ==> {
            let after = s.set_limits(limits, now);
            &&& after.global_windows == window::relimit(s.global_windows, limits.global@)
            &&& forall|i: int|
                0 <= i < after.global_windows.len() ==> (#[trigger] after.global_windows[i]).history
                    == window::ledger(s.global_windows)
            &&& after.chat_window_sets.dom() == s.chat_window_sets.dom()
            &&& forall|chat: u64, i: int|
                s.chat_window_sets.contains_key(chat) && 0 <= i
                    < after.chat_window_sets[chat].len() ==> (
                #[trigger] after.chat_window_sets[chat][i]).history == window::ledger(
                    s.chat_window_sets[chat],
                )
        },
{
    lemma_new_limits_wait(s, limits, now);
    if s.limits_refusal(limits) is None {
        let after = s.set_limits(limits, now);
        assert(after.chat_window_sets.dom() =~= s.chat_window_sets.dom());
        assert forall|chat: u64, i: int|
            s.chat_window_sets.contains_key(chat) && 0 <= i
                < after.chat_window_sets[chat].len() implies (
        #[trigger] after.chat_window_sets[chat][i]).history == window::ledger(
            s.chat_window_sets[chat],
        ) by {
            assert(after.chat_window_sets[chat] == window::relimit(
                s.chat_window_sets[chat],
                window::applicable(limits.chat@, chat),
            ));
        }
    }
}

// ---------- faulty limits ----------

/// Whether a request of this weight fits all windows that apply to it.
pub open spec fn fits_limits(weight: u32, scope: OutboundScope, limits: OutboundLimits) -> bool {
    &&& forall|i: int|
        0 <= i < limits.global@.len() ==> weight <= (#[trigger] limits.global@[i]).capacity
    &&& scope matches OutboundScope::Chat(chat) ==> forall|i: int|
        0 <= i < limits.chat@.len() && (#[trigger] limits.chat@[i]).applies(chat.value) ==> weight
            <= limits.chat@[i].capacity
}

proof fn lemma_window_fault(limits: Seq<WindowLimit>)
    ensures
        model::window_fault(limits) is None <==> forall|i: int|
            0 <= i < limits.len() ==> (#[trigger] limits[i]).capacity > 0 && limits[i].window.nanos
                > 0,
    decreases limits.len(),
{
    if limits.len() > 0 {
        let rest = limits.drop_first();
        lemma_window_fault(rest);
        if model::window_fault(limits) is None {
            assert forall|i: int| 0 <= i < limits.len() implies (#[trigger] limits[i]).capacity > 0
                && limits[i].window.nanos > 0 by {
                if i > 0 {
                    assert(rest[i - 1] == limits[i]);
                }
            }
        } else if limits[0].capacity > 0 && limits[0].window.nanos > 0 {
            let j = choose|j: int|
                0 <= j < rest.len() && !((#[trigger] rest[j]).capacity > 0 && rest[j].window.nanos
                    > 0);
            assert(limits[j + 1] == rest[j]);
        }
    }
}

proof fn lemma_applicable_all(limits: Seq<WindowLimit>, chat: u64, weight: u32)
    ensures
        (forall|i: int|
            0 <= i < window::applicable(limits, chat).len() ==> weight <= (
            #[trigger] window::applicable(limits, chat)[i]).capacity) <==> (forall|i: int|
            0 <= i < limits.len() && (#[trigger] limits[i]).applies(chat) ==> weight
                <= limits[i].capacity),
{
    let some = window::applicable(limits, chat);
    window::law_applicable_windows_apply(limits, chat);
    if forall|i: int| 0 <= i < some.len() ==> weight <= (#[trigger] some[i]).capacity {
        assert forall|i: int|
            0 <= i < limits.len() && (#[trigger] limits[i]).applies(chat) implies weight
            <= limits[i].capacity by {
            assert(some.contains(limits[i]));
            let j = choose|j: int| 0 <= j < some.len() && some[j] == limits[i];
            assert(weight <= some[j].capacity);
        }
    }
    if forall|i: int|
        0 <= i < limits.len() && (#[trigger] limits[i]).applies(chat) ==> weight
            <= limits[i].capacity {
        assert forall|i: int| 0 <= i < some.len() implies weight <= (
        #[trigger] some[i]).capacity by {
            assert(some.contains(some[i]));
            let j = choose|j: int| 0 <= j < limits.len() && limits[j] == some[i];
            assert(limits[j].applies(chat));
        }
    }
}

proof fn lemma_too_small_for(job: Job, limits: OutboundLimits)
    ensures
        SchedulerView::too_small_for(job, limits) is None <==> fits_limits(
            job.meta.weight@,
            job.meta.scope,
            limits,
        ),
{
    lemma_too_small(limits.global@, job.meta.weight@);
    if let OutboundScope::Chat(chat) = job.meta.scope {
        lemma_too_small(window::applicable(limits.chat@, chat.value), job.meta.weight@);
        lemma_applicable_all(limits.chat@, chat.value, job.meta.weight@);
    }
}

proof fn lemma_first_unfit(s: SchedulerView, limits: OutboundLimits, k: u64)
    requires
        s.jobs.contains_key(k),
        SchedulerView::too_small_for(s.jobs[k], limits) is Some,
    ensures
        exists|id: u64| s.is_first_unfit(id, limits),
    decreases k,
{
    if exists|j: u64|
        j < k && #[trigger] s.jobs.contains_key(j) && SchedulerView::too_small_for(
            s.jobs[j],
            limits,
        ) is Some {
        let j = choose|j: u64|
            j < k && #[trigger] s.jobs.contains_key(j) && SchedulerView::too_small_for(
                s.jobs[j],
                limits,
            ) is Some;
        lemma_first_unfit(s, limits, j);
    } else {
        assert(s.is_first_unfit(k, limits));
    }
}

/// New limits are accepted exactly if every window has a capacity and a span
/// and every waiting job still fits all windows that apply to it.
pub proof fn law_usable_limits_are_accepted(s: SchedulerView, limits: OutboundLimits)
    ensures
        s.limits_refusal(limits) is None <==> {
            &&& forall|i: int|
                0 <= i < limits.global@.len() ==> (#[trigger] limits.global@[i]).capacity > 0
                    && limits.global@[i].window.nanos > 0
            &&& forall|i: int|
                0 <= i < limits.chat@.len() ==> (#[trigger] limits.chat@[i]).capacity > 0
                    && limits.chat@[i].window.nanos > 0
            &&& forall|k: u64| #[trigger]
                s.jobs.contains_key(k) ==> fits_limits(
                    s.jobs[k].meta.weight@,
                    s.jobs[k].meta.scope,
                    limits,
                )
        },
{
    lemma_window_fault(limits.global@);
    lemma_window_fault(limits.chat@);
    assert forall|k: u64| #[trigger] s.jobs.contains_key(k) implies (SchedulerView::too_small_for(
        s.jobs[k],
        limits,
    ) is None <==> fits_limits(s.jobs[k].meta.weight@, s.jobs[k].meta.scope, limits)) by {
        lemma_too_small_for(s.jobs[k], limits);
    }
    if exists|k: u64| #[trigger]
        s.jobs.contains_key(k) && SchedulerView::too_small_for(s.jobs[k], limits) is Some {
        let k = choose|k: u64| #[trigger]
            s.jobs.contains_key(k) && SchedulerView::too_small_for(s.jobs[k], limits) is Some;
        lemma_first_unfit(s, limits, k);
    }
    if exists|id: u64| s.is_first_unfit(id, limits) {
        let id = choose|id: u64| s.is_first_unfit(id, limits);
        assert(s.jobs.contains_key(id));
    }
}

proof fn lemma_too_small_capacity(limits: Seq<WindowLimit>, weight: u32)
    ensures
        model::too_small(limits, weight) matches Some(capacity) ==> capacity < weight && exists|
            i: int,
        |
            0 <= i < limits.len() && (#[trigger] limits[i]).capacity == capacity && forall|j: int|
                0 <= j < i ==> (#[trigger] limits[j]).capacity >= weight,
    decreases limits.len(),
{
    if limits.len() > 0 {
        if weight > limits[0].capacity {
            assert(limits[0].capacity < weight);
        } else {
            let rest = limits.drop_first();
            lemma_too_small_capacity(rest, weight);
            if let Some(capacity) = model::too_small(rest, weight) {
                let i = choose|i: int|
                    0 <= i < rest.len() && (#[trigger] rest[i]).capacity == capacity && forall|
                        j: int,
                    |
                        0 <= j < i ==> (#[trigger] rest[j]).capacity >= weight;
                assert(limits[i + 1] == rest[i]);
                assert forall|j: int| 0 <= j < i + 1 implies (#[trigger] limits[j]).capacity
                    >= weight by {
                    if j > 0 {
                        assert(limits[j] == rest[j - 1]);
                    }
                }
            }
        }
    }
}

/// A request that is refused for its weight is told its own scope and weight,
/// and the capacity of a window that is too small for it.
pub proof fn law_too_heavy_a_request_is_told_a_capacity(
    s: SchedulerView,
    meta: OutboundMeta,
    mode: OutboundEnqueueMode,
)
    ensures
        s.refusal(meta, mode) matches Some(
            EnqueueError::WeightExceedsWindow { scope, weight, capacity },
        ) ==> {
            &&& scope == meta.scope
            &&& weight == meta.weight
            &&& capacity < weight@
            &&& (exists|i: int|
                0 <= i < s.global_limits.len() && (#[trigger] s.global_limits[i]).capacity
                    == capacity) || (exists|i: int|
                0 <= i < s.chat_limits.len() && (#[trigger] s.chat_limits[i]).capacity == capacity)
        },
{
    lemma_too_small_capacity(s.global_limits, meta.weight@);
    if let OutboundScope::Chat(chat) = meta.scope {
        let some = window::applicable(s.chat_limits, chat.value);
        lemma_too_small_capacity(some, meta.weight@);
        window::law_applicable_windows_apply(s.chat_limits, chat.value);
        if let Some(capacity) = model::too_small(some, meta.weight@) {
            let i = choose|i: int| 0 <= i < some.len() && (#[trigger] some[i]).capacity == capacity;
            assert(some.contains(some[i]));
            let j = choose|j: int| 0 <= j < s.chat_limits.len() && s.chat_limits[j] == some[i];
            assert(s.chat_limits[j].capacity == capacity);
        }
    }
}

/// Limits without a faulty window that are refused leave out the oldest job
/// that would never fit again: it is told with its scope and weight, and with
/// the capacity of the first window that is too small for it, a global one
/// before one of its chat.
pub proof fn law_refused_limits_name_whom_they_leave_out(s: SchedulerView, limits: OutboundLimits)
    ensures
        s.limits_refusal(limits) matches Some(
            SchedulerConfigError::PendingWeightExceedsWindow { scope, weight, capacity },
        ) ==> {
            &&& capacity < weight
            &&& exists|k: u64| #[trigger]
                s.jobs.contains_key(k) && s.jobs[k].meta.scope == scope && s.jobs[k].meta.weight@
                    == weight && forall|j: u64| #[trigger]
                    s.jobs.contains_key(j) && j < k ==> fits_limits(
                        s.jobs[j].meta.weight@,
                        s.jobs[j].meta.scope,
                        limits,
                    )
            &&& {
                ||| exists|i: int|
                    0 <= i < limits.global@.len() && (#[trigger] limits.global@[i]).capacity
                        == capacity && forall|j: int|
                        0 <= j < i ==> (#[trigger] limits.global@[j]).capacity >= weight
                ||| (forall|i: int|
                    0 <= i < limits.global@.len() ==> (#[trigger] limits.global@[i]).capacity
                        >= weight) && exists|i: int|
                    0 <= i < limits.chat@.len() && (#[trigger] limits.chat@[i]).capacity
                        == capacity
            }
        },
{
    lemma_window_fault(limits.global@);
    lemma_window_fault(limits.chat@);
    lemma_fault_names(limits.global@);
    lemma_fault_names(limits.chat@);
    if model::limits_fault(limits) is None && exists|id: u64| s.is_first_unfit(id, limits) {
        let id = choose|id: u64| s.is_first_unfit(id, limits);
        let job = s.jobs[id];
        let weight = job.meta.weight@;
        lemma_too_small_for(job, limits);
        assert forall|j: u64| #[trigger] s.jobs.contains_key(j) && j < id implies fits_limits(
            s.jobs[j].meta.weight@,
            s.jobs[j].meta.scope,
            limits,
        ) by {
            lemma_too_small_for(s.jobs[j], limits);
        }
        lemma_too_small_capacity(limits.global@, weight);
        lemma_too_small(limits.global@, weight);
        if let OutboundScope::Chat(chat) = job.meta.scope {
            let some = window::applicable(limits.chat@, chat.value);
            lemma_too_small_capacity(some, weight);
            window::law_applicable_windows_apply(limits.chat@, chat.value);
            if let Some(capacity) = model::too_small(some, weight) {
                let i = choose|i: int|
                    0 <= i < some.len() && (#[trigger] some[i]).capacity == capacity;
                assert(some.contains(some[i]));
                let j = choose|j: int| 0 <= j < limits.chat@.len() && limits.chat@[j] == some[i];
                assert(limits.chat@[j].capacity == capacity);
            }
        }
    }
}

/// Accepted limits are in force: a scheduler has the limits it was given last.
pub proof fn law_accepted_limits_are_in_force(
    s: SchedulerView,
    limits: OutboundLimits,
    now: Instant,
)
    ensures
        s.limits_refusal(limits) is None ==> {
            &&& s.set_limits(limits, now).global_limits == limits.global@
            &&& s.set_limits(limits, now).chat_limits == limits.chat@
        },
{
    if s.limits_refusal(limits) is None {
        let relimited = s.relimited(limits);
        let bound = Instant { nanos: u64::MAX };
        relimited.lemma_wake_blocked_waits(bound, now);
        let woken = relimited.wake_blocked(bound, now);
        let start = SchedulerView { reservations: Seq::empty(), ..woken };
        lemma_wake_parked_waits(start, woken.reservations, now);
    }
}

// ---------- what a pass may grant ----------

/// What a pass grants: a waiting job, once, whose moment has come, whose scope
/// is not closed and for which not everything is closed, and in a lane only
/// the first waiting job while no other one holds the lane. It is in flight
/// afterwards and waits no more; everybody else waits on.
pub proof fn law_what_a_pass_grants(s: SchedulerView, now: Instant, i: int, k: u64)
    requires
        s.inv(),
        0 <= i < s.grants(now).len(),
    ensures
        ({
            let id = s.grants(now)[i].job.value;
            let after = s.grant_ready(now);
            let job = s.jobs[id];
            &&& s.jobs.contains_key(id)
            &&& job.not_before matches Some(moment) ==> moment.nanos <= now.nanos
            &&& s.penalties.contains_key(job.meta.scope) ==> s.penalties[job.meta.scope].nanos
                <= now.nanos
            &&& s.penalties.contains_key(OutboundScope::Global)
                ==> s.penalties[OutboundScope::Global].nanos <= now.nanos
            &&& !after.jobs.contains_key(id)
            &&& after.in_flight.contains_key(id) && after.in_flight[id].lane == job.meta.lane
            &&& job.meta.lane is Some && s.in_flight.contains_key(k) ==> s.in_flight[k].lane
                != job.meta.lane
            &&& job.meta.lane is Some && k != id && s.jobs.contains_key(k) && s.jobs[k].meta.lane
                == job.meta.lane ==> {
                &&& job.lane_order is Some && s.jobs[k].lane_order is Some
                &&& job.lane_order->0 < s.jobs[k].lane_order->0 || job.lane_order->0
                    == s.jobs[k].lane_order->0 && id < k
            }
            &&& after.jobs.contains_key(k) ==> s.jobs.contains_key(k) && after.jobs[k].meta
                == s.jobs[k].meta
            &&& s.jobs.contains_key(k) && !after.jobs.contains_key(k) ==> exists|j: int|
                0 <= j < s.grants(now).len() && #[trigger] s.grants(now)[j] == (Grant {
                    job: JobId { value: k },
                })
            &&& forall|j: int|
                0 <= j < s.grants(now).len() && j != i ==> #[trigger] s.grants(now)[j].job.value
                    != id
        }),
{
    law_grant_pass(s, now);
    let id = s.grants(now)[i].job.value;
    assert(may_be_granted(s, s.grants(now)[i].job.value, now));
    assert(names(s.grants(now), id)) by {
        assert(s.grants(now)[i] == (Grant { job: JobId { value: id } }));
    }
    let after = s.grant_ready(now);
    if s.jobs.contains_key(k) && !after.jobs.contains_key(k) {
        assert(names(s.grants(now), k));
    }
    assert forall|j: int| 0 <= j < s.grants(now).len() && j != i implies #[trigger] s.grants(
        now,
    )[j].job.value != id by {
        if j < i {
            assert(s.grants(now)[j].job != s.grants(now)[i].job);
        } else {
            assert(s.grants(now)[i].job != s.grants(now)[j].job);
        }
    }
}

/// How fast a waiting job rises: one level for every whole quantum that it has
/// been ready, no more than the policy allows and no higher than the highest
/// level.
pub proof fn law_a_job_rises_a_level_per_quantum(
    job: Job,
    aging: AgingPolicy,
    now: Instant,
    levels: nat,
)
    requires
        aging.quantum.nanos > 0,
        now.nanos >= job.ready_at.nanos,
        levels * aging.quantum.nanos <= now.nanos - job.ready_at.nanos,
        now.nanos - job.ready_at.nanos < (levels + 1) * aging.quantum.nanos,
    ensures
        ({
            let raised: int = if levels <= aging.max_boost {
                levels as int
            } else {
                aging.max_boost as int
            };
            let level = job.meta.priority.value + raised;
            entries::effective(job, aging, now) == (if level <= 255 {
                level
            } else {
                255
            })
        }),
{
    let q = aging.quantum.nanos as int;
    let waited = now.nanos - job.ready_at.nanos;
    assert(waited / q == levels) by (nonlinear_arith)
        requires
            q > 0,
            levels * q <= waited,
            waited < (levels + 1) * q,
    ;
    if waited == 0 {
        assert(0int / q == 0) by (nonlinear_arith)
            requires
                q > 0,
        ;
    }
}

/// Which settings are refused: those with a window without a capacity or a
/// span, without an aging quantum, or whose aging cannot lift a job from the
/// lowest to the highest level. The error names what is wrong.
pub proof fn law_faulty_settings_are_refused(limits: OutboundLimits, aging: AgingPolicy)
    ensures
        ({
            let fault = model::config_fault(limits, aging);
            let usable = {
                &&& forall|i: int|
                    0 <= i < limits.global@.len() ==> (#[trigger] limits.global@[i]).capacity > 0
                        && limits.global@[i].window.nanos > 0
                &&& forall|i: int|
                    0 <= i < limits.chat@.len() ==> (#[trigger] limits.chat@[i]).capacity > 0
                        && limits.chat@[i].window.nanos > 0
            };
            &&& fault is None <==> usable && aging.quantum.nanos > 0 && aging.max_boost == 255
            &&& fault == Some(SchedulerConfigError::ZeroAgingQuantum) <==> usable
                && aging.quantum.nanos == 0
            &&& fault matches Some(
                SchedulerConfigError::AgingCannotReachHighest { max_boost },
            ) ==> max_boost == aging.max_boost && max_boost < 255
            &&& !usable ==> fault == Some(SchedulerConfigError::ZeroWindowCapacity)
                || fault == Some(SchedulerConfigError::ZeroWindowDuration)
            &&& fault == Some(SchedulerConfigError::ZeroWindowCapacity) ==> (exists|
                i: int,
            |
                0 <= i < limits.global@.len() && (#[trigger] limits.global@[i]).capacity == 0) || (
            exists|i: int| 0 <= i < limits.chat@.len() && (#[trigger] limits.chat@[i]).capacity == 0)
            &&& fault == Some(SchedulerConfigError::ZeroWindowDuration) ==> (exists|
                i: int,
            |
                0 <= i < limits.global@.len() && (#[trigger] limits.global@[i]).window.nanos == 0)
                || (exists|i: int|
                0 <= i < limits.chat@.len() && (#[trigger] limits.chat@[i]).window.nanos == 0)
        }),
{
    lemma_window_fault(limits.global@);
    lemma_window_fault(limits.chat@);
    lemma_fault_names(limits.global@);
    lemma_fault_names(limits.chat@);
}

proof fn lemma_fault_names(limits: Seq<WindowLimit>)
    ensures
        match model::window_fault(limits) {
            None => true,
            Some(SchedulerConfigError::ZeroWindowCapacity) => exists|i: int|
                0 <= i < limits.len() && (#[trigger] limits[i]).capacity == 0,
            Some(SchedulerConfigError::ZeroWindowDuration) => exists|i: int|
                0 <= i < limits.len() && (#[trigger] limits[i]).window.nanos == 0,
            Some(_) => false,
        },
    decreases limits.len(),
{
    if limits.len() > 0 && limits[0].capacity > 0 && limits[0].window.nanos > 0 {
        let rest = limits.drop_first();
        lemma_fault_names(rest);
        match model::window_fault(rest) {
            Some(SchedulerConfigError::ZeroWindowCapacity) => {
                let i = choose|i: int| 0 <= i < rest.len() && (#[trigger] rest[i]).capacity == 0;
                assert(limits[i + 1] == rest[i]);
            },
            Some(SchedulerConfigError::ZeroWindowDuration) => {
                let i = choose|i: int|
                    0 <= i < rest.len() && (#[trigger] rest[i]).window.nanos == 0;
                assert(limits[i + 1] == rest[i]);
            },
            _ => {},
        }
    }
}

} // verus!
