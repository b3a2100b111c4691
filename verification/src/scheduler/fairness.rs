//! The promises about who comes when: nobody is forgotten, the best candidate
//! comes first, a heavy one is not starved, and a pass leaves nothing due.

use super::entries::{Candidate, CandidateRef};
use super::model::{ReservationView, SchedulerView};
use super::{arbitration, coverage, entries, model, soundness, wakeups};
use crate::time::Instant;
use crate::types::{
    AgingPolicy, JobId, OutboundCompletion, OutboundEnqueueMode, OutboundLimits, OutboundMeta,
    OutboundScope, SchedulerWakeup,
};
use crate::window;
use vstd::prelude::*;

verus! {

// ---------- nobody is forgotten ----------

/// No operation forgets a waiting job.
pub proof fn law_no_waiting_job_is_forgotten(
    s: SchedulerView,
    meta: OutboundMeta,
    mode: OutboundEnqueueMode,
    not_before: Option<Instant>,
    id: JobId,
    completion: OutboundCompletion,
    scope: OutboundScope,
    limits: OutboundLimits,
    aging: AgingPolicy,
    now: Instant,
)
    requires
        s.inv(),
        s.covered(),
        s.next_job_id < u64::MAX,
    ensures
        SchedulerView::fresh(limits, aging).covered(),
        s.enqueue(meta, mode, not_before, now).covered(),
        s.cancel_at(id, now).covered(),
        s.cancel(id).covered(),
        s.grant_ready(now).covered(),
        s.start(id, now).covered(),
        s.complete(id, completion, now).covered(),
        s.penalize(scope, now).covered(),
        s.trimmed().covered(),
        s.set_limits(limits, now).covered(),
{
    SchedulerView::lemma_fresh_covered(limits, aging);
    if s.refusal(meta, mode) is None {
        s.lemma_accept_covered(meta, mode, not_before, now);
    }
    s.lemma_cancel_at_covered(id, now);
    s.lemma_cancel_covered(id);
    s.lemma_grant_ready_covered(now);
    s.lemma_start_covered(id, now);
    s.lemma_complete_covered(id, completion, now);
    s.lemma_covered_same(s.penalize(scope, now), Set::empty());
    s.lemma_trimmed_covered();
    s.lemma_set_limits_covered(limits, now);
}

/// Whether a reference is a candidate, is blocked until some moment, or is
/// parked behind a hold.
pub open spec fn comes_up(s: SchedulerView, reference: CandidateRef) -> bool {
    s.stands(reference, 0) || s.sleeps(reference)
}

/// Whether a waiting job stands in a queue that will bring it up: a delayed
/// one among the delayed, a ready one as itself, one of a lane behind the
/// job of the lane that is in flight or through the lane's first job.
pub open spec fn stands_in_a_queue(s: SchedulerView, id: u64) -> bool {
    match s.jobs[id].meta.lane {
        None => if s.jobs[id].not_before is Some {
            soundness::has_entry(s.delayed, id)
        } else {
            comes_up(s, coverage::job_ref(id))
        },
        Some(key) => {
            &&& s.lanes.contains_key(key.value)
            &&& s.lanes[key.value].in_flight is Some || (s.head(key.value) matches Some(first)
                && s.jobs.contains_key(first) && if s.jobs[first].not_before is Some {
                soundness::has_entry(s.delayed, first)
            } else {
                comes_up(s, coverage::lane_ref(key.value))
            })
        },
    }
}

/// Every waiting job stands in a queue that will bring it up.
pub proof fn law_every_waiting_job_stands_in_a_queue(s: SchedulerView, id: u64)
    requires
        s.inv(),
        s.covered(),
        s.jobs.contains_key(id),
    ensures
        stands_in_a_queue(s, id),
{
    let none = Set::<CandidateRef>::empty();
    match s.jobs[id].meta.lane {
        None => {
            assert(!none.contains(coverage::job_ref(id)));
            assert(s.job_kept(id));
            if s.jobs[id].not_before is None && s.jobs[id].in_candidate_heap {
                assert(s.candidates.contains(s.key_of(id)));
                assert(s.stands(coverage::job_ref(id), 0));
            }
        },
        Some(key) => {
            s.lemma_member_shows(id);
            s.lemma_head_waits(key.value);
            assert(!none.contains(coverage::lane_ref(key.value)));
            assert(s.lane_marked(key.value));
            assert(s.lane_kept(key.value));
            if s.lanes[key.value].in_candidate_heap {
                let k = choose|k: entries::CandidateKey| #[trigger]
                    s.candidates.contains(k) && k.reference == coverage::lane_ref(key.value)
                        && k.effective >= s.lanes[key.value].candidate_effective;
                assert(s.candidates.contains(k));
                assert(s.stands(coverage::lane_ref(key.value), 0));
            }
        },
    }
}

/// A grant pass looks at every candidate: afterwards none is left, so that
/// whatever is ready and waits is blocked until some moment or parked behind
/// a hold.
pub proof fn law_a_pass_looks_at_every_candidate(s: SchedulerView, id: u64, now: Instant)
    requires
        s.inv(),
        s.covered(),
        s.grant_ready(now).jobs.contains_key(id),
        s.grant_ready(now).jobs[id].not_before is None,
        s.grant_ready(now).jobs[id].meta.lane is None,
    ensures
        s.grant_ready(now).candidates.len() == 0,
        s.grant_ready(now).sleeps(coverage::job_ref(id)),
{
    broadcast use vstd::multiset::group_multiset_axioms;

    let after = s.grant_ready(now);
    s.lemma_grant_ready_covered(now);
    assert(!Set::<CandidateRef>::empty().contains(coverage::job_ref(id)));
    assert(after.job_kept(id));
    assert(after.candidates.count(after.key_of(id)) <= after.candidates.len());
}

// ---------- the best comes first ----------

/// Every operation keeps the unlaned candidates in rank, as long as time does
/// not run backwards.
pub proof fn law_candidates_stay_in_rank(
    s: SchedulerView,
    earlier: Instant,
    meta: OutboundMeta,
    mode: OutboundEnqueueMode,
    not_before: Option<Instant>,
    id: JobId,
    completion: OutboundCompletion,
    limits: OutboundLimits,
    now: Instant,
)
    requires
        s.inv(),
        s.next_job_id < u64::MAX,
        wakeups::spans_every_level(s.aging),
        s.in_rank(earlier),
        earlier.nanos <= now.nanos,
    ensures
        SchedulerView::fresh(limits, s.aging).in_rank(now),
        s.enqueue(meta, mode, not_before, now).in_rank(now),
        s.cancel(id).in_rank(now),
        s.cancel_at(id, now).in_rank(now),
        s.grant_ready(now).in_rank(now),
        s.start(id, now).in_rank(now),
        s.complete(id, completion, now).in_rank(now),
        s.trimmed().in_rank(now),
        s.set_limits(limits, now).in_rank(now),
{
    SchedulerView::lemma_fresh_in_rank(limits, s.aging, now);
    s.lemma_ranked_later(earlier, now);
    if s.refusal(meta, mode) is None {
        s.lemma_accept_in_rank(meta, mode, not_before, now);
    }
    s.lemma_cancel_in_rank(id, now);
    s.lemma_cancel_at_in_rank(id, now);
    s.lemma_grant_ready_ranked(now);
    s.lemma_start_in_rank(id, now);
    s.lemma_complete_in_rank(id, completion, now);
    s.lemma_trimmed_in_rank(now);
    s.lemma_set_limits_in_rank(limits, now);
}

/// Penalizing a scope touches nothing but its penalty, so whatever holds of
/// the queues goes on to hold, and the penalty is never shortened.
pub proof fn law_penalizing_moves_nobody(
    s: SchedulerView,
    earlier: Instant,
    scope: OutboundScope,
    until: Instant,
    now: Instant,
)
    requires
        s.inv(),
        earlier.nanos <= now.nanos,
    ensures
        s.penalize(scope, until) == (SchedulerView {
            penalties: s.penalize(scope, until).penalties,
            ..s
        }),
        s.penalize(scope, until).inv(),
        s.covered() ==> s.penalize(scope, until).covered(),
        s.in_rank(earlier) ==> s.penalize(scope, until).in_rank(now),
        s.orderly(earlier) ==> s.penalize(scope, until).orderly(now),
        s.windows_used_by(earlier) ==> s.penalize(scope, until).windows_used_by(now),
        s.penalize(scope, until).penalties.contains_key(scope),
        s.penalize(scope, until).penalties[scope].nanos >= until.nanos,
        forall|other: OutboundScope| #[trigger]
            s.penalties.contains_key(other) ==> s.penalize(scope, until).penalties[other].nanos
                >= s.penalties[other].nanos,
{
    let after = s.penalize(scope, until);
    s.lemma_fewer_entries(after);
    if s.covered() {
        s.lemma_covered_same(after, Set::empty());
    }
    if s.in_rank(earlier) {
        s.lemma_ranked_later(earlier, now);
        s.lemma_in_rank_frame(after, now);
    }
    if s.orderly(earlier) {
        s.lemma_penalize_orderly(scope, until, earlier, now);
    }
    if s.windows_used_by(earlier) {
        s.lemma_windows_used_later(earlier, now);
    }
}

/// Whether a state stands between the steps of a grant pass at `now`.
pub open spec fn in_a_pass(s: SchedulerView, now: Instant) -> bool {
    &&& s.inv()
    &&& s.covered()
    &&& s.in_rank(now)
    &&& s.rises_ahead(now)
    &&& wakeups::spans_every_level(s.aging)
}

/// Whether the waiting job `a` goes before `b` at `now`: by its effective
/// priority, and among equals by its age.
pub open spec fn goes_before(s: SchedulerView, a: u64, b: u64, now: Instant) -> bool {
    let first = entries::effective(s.jobs[a], s.aging, now);
    let second = entries::effective(s.jobs[b], s.aging, now);
    first > second || first == second && s.jobs[a].sequence < s.jobs[b].sequence
}

/// A grant pass picks the best first: between the steps of a pass, the
/// candidate that is picked goes before every other unlaned candidate.
pub proof fn law_best_candidate_comes_first(s: SchedulerView, now: Instant, other: u64)
    requires
        in_a_pass(s, now),
        s.jobs.contains_key(other),
        arbitration::at_large(s.jobs[other]),
        s.jobs[other].in_candidate_heap,
    ensures
        s.pick(now).1 matches Some(c) ==> c.job.value != other ==> goes_before(
            s,
            c.job.value,
            other,
            now,
        ),
{
    s.lemma_picked_is_best(now);
}

/// A grant pass starts, and goes on after each candidate it has dealt with,
/// in a state in which the best comes first.
pub proof fn law_every_pick_is_made_in_a_pass(
    s: SchedulerView,
    earlier: Instant,
    between: SchedulerView,
    now: Instant,
)
    requires
        s.inv(),
        s.covered(),
        s.in_rank(earlier),
        earlier.nanos <= now.nanos,
        wakeups::spans_every_level(s.aging),
        in_a_pass(between, now),
    ensures
        in_a_pass(s.promote(now), now),
        between.pick(now).1 matches Some(c) ==> in_a_pass(
            between.pick(now).0.settle(c, now),
            now,
        ),
{
    lemma_starts_in_a_pass(s, earlier, now);
    lemma_goes_on_in_a_pass(between, now);
}

/// The order of the grants: of two grants of a pass, of which the later one
/// is of an unlaned job that stood as a candidate when the pass began, the
/// earlier one has the higher effective priority, or the same and the
/// greater age.
pub proof fn law_grants_come_in_turn(
    s: SchedulerView,
    earlier: Instant,
    now: Instant,
    i: int,
    j: int,
)
    requires
        s.inv(),
        s.covered(),
        s.in_rank(earlier),
        earlier.nanos <= now.nanos,
        wakeups::spans_every_level(s.aging),
        0 <= i < j < s.grants(now).len(),
        arbitration::at_large(s.promote(now).jobs[s.grants(now)[j].job.value]),
        s.promote(now).jobs[s.grants(now)[j].job.value].in_candidate_heap,
    ensures
        goes_before(
            s.promote(now),
            s.grants(now)[i].job.value,
            s.grants(now)[j].job.value,
            now,
        ),
{
    lemma_starts_in_a_pass(s, earlier, now);
    s.promote(now).lemma_loop_in_turn(i, j, now);
}

/// What is held up stays held up: a candidate that is not admitted in a pass
/// is not granted in the rest of the pass either.
pub proof fn law_refused_candidate_waits_for_another_pass(
    s: SchedulerView,
    c: Candidate,
    now: Instant,
)
    requires
        s.inv(),
        s.jobs.contains_key(c.job.value),
        s.jobs[c.job.value].meta.scope == c.scope,
        s.jobs[c.job.value].meta.weight == c.weight,
        s.admission(c, now) !is Pass,
    ensures
        !super::laws::names(s.grant_loop(now).1, c.job.value),
{
    s.lemma_refused_throughout(c, now);
}

pub proof fn lemma_starts_in_a_pass(s: SchedulerView, earlier: Instant, now: Instant)
    requires
        s.inv(),
        s.covered(),
        s.in_rank(earlier),
        earlier.nanos <= now.nanos,
        wakeups::spans_every_level(s.aging),
    ensures
        in_a_pass(s.promote(now), now),
{
    s.lemma_ranked_later(earlier, now);
    s.lemma_promote_inv(now);
    s.lemma_promote_waits(now);
    s.lemma_promote_covered(now);
    s.lemma_promote_ranked(now);
    s.lemma_promote_ahead(now);
}

pub proof fn lemma_goes_on_in_a_pass(between: SchedulerView, now: Instant)
    requires
        in_a_pass(between, now),
    ensures
        between.pick(now).1 matches Some(c) ==> in_a_pass(
            between.pick(now).0.settle(c, now),
            now,
        ),
{
    between.lemma_pick_inv(now);
    between.lemma_pick_waits(now);
    between.lemma_picked_describes(now);
    between.lemma_pick_covered(now);
    between.lemma_pick_ranked(now);
    between.lemma_pick_ahead(now);
    let (popped, found) = between.pick(now);
    if let Some(c) = found {
        assert(popped.jobs.contains_key(c.job.value));
        popped.lemma_settle_inv(c, now);
        popped.lemma_settle_waits(c, now);
        popped.lemma_dispose_waits(c, now);
        popped.lemma_dispose_covered(c, now);
        popped.lemma_settle_covered(c, now);
        popped.lemma_settle_ranked(c, now);
        let done = popped.dispose(c, now);
        assert(done.aging_events == popped.aging_events);
        done.lemma_wake_next_ahead(OutboundScope::Global, now);
        done.wake_next(OutboundScope::Global, now).lemma_wake_next_ahead(c.scope, now);
    }
}

// ---------- the heavy one is not starved ----------

pub proof fn lemma_find_bounds(reservations: Seq<ReservationView>, scope: OutboundScope)
    ensures
        model::find(reservations, scope) <= reservations.len(),
        model::find(reservations, scope) < reservations.len() ==> reservations[model::find(
            reservations,
            scope,
        ) as int].window == scope,
        forall|i: int|
            0 <= i < model::find(reservations, scope) ==> (#[trigger] reservations[i]).window
                != scope,
    decreases reservations.len(),
{
    if reservations.len() > 0 && reservations[0].window != scope {
        let rest = reservations.drop_first();
        lemma_find_bounds(rest, scope);
        assert forall|i: int| 0 <= i < model::find(reservations, scope) implies (
        #[trigger] reservations[i]).window != scope by {
            if i > 0 {
                assert(rest[i - 1] == reservations[i]);
            }
        }
    }
}

pub proof fn lemma_found(reservations: Seq<ReservationView>, scope: OutboundScope, at: int)
    requires
        0 <= at < reservations.len(),
        reservations[at].window == scope,
        forall|i: int| 0 <= i < at ==> (#[trigger] reservations[i]).window != scope,
    ensures
        model::find(reservations, scope) == at,
{
    lemma_find_bounds(reservations, scope);
    let found = model::find(reservations, scope);
    if found < at {
        assert(reservations[found as int].window != scope);
    }
    if found > at {
        assert(reservations[at].window != scope);
    }
}

/// A candidate that a window has no room for reserves the window: until the
/// moment the candidate can be granted, every candidate that consumes the
/// window is held back, and whatever is held back is parked and not granted.
pub proof fn law_blocked_candidate_reserves_its_window(
    s: SchedulerView,
    c: Candidate,
    other: Candidate,
    now: Instant,
    later: Instant,
)
    requires
        !s.globally_has_room(c, now) || !s.chat_has_room(c, now),
        !s.held_back(c.scope, now),
        later.nanos < s.blocked_until(c, now).nanos,
        !s.globally_has_room(c, now) || other.scope == c.scope,
    ensures
        s.admission(c, now) is Blocked,
        s.dispose(c, now).held_back(other.scope, later),
        s.dispose(c, now).admission(other, later) is Reserved,
{
    let checked = s.after_admission(c, now);
    let until = s.blocked_until(c, now);
    let scope = if !s.globally_has_room(c, now) {
        OutboundScope::Global
    } else {
        c.scope
    };
    let reference = checked.reference_of(c.job);
    let after = s.dispose(c, now);
    let held = checked.hold(scope, until, reference);
    assert(after.reservations == held.reservations);
    lemma_find_bounds(checked.reservations, scope);
    let at = model::find(checked.reservations, scope) as int;
    assert forall|i: int| 0 <= i < at implies (#[trigger] held.reservations[i]).window
        != scope by {
        assert(held.reservations[i] == checked.reservations[i]);
    }
    lemma_found(held.reservations, scope, at);
    assert(after.reservation_active(scope, later));
}

// ---------- nothing is left due ----------

/// Time does not run backwards in the windows: they stay used in its order.
pub proof fn law_windows_are_used_in_the_order_of_time(
    s: SchedulerView,
    earlier: Instant,
    meta: OutboundMeta,
    mode: OutboundEnqueueMode,
    not_before: Option<Instant>,
    id: JobId,
    completion: OutboundCompletion,
    limits: OutboundLimits,
    now: Instant,
)
    requires
        s.inv(),
        s.next_job_id < u64::MAX,
        wakeups::spans_every_level(s.aging),
        s.windows_used_by(earlier),
        earlier.nanos <= now.nanos < u64::MAX,
    ensures
        SchedulerView::fresh(limits, s.aging).windows_used_by(now),
        s.enqueue(meta, mode, not_before, now).windows_used_by(now),
        s.cancel_at(id, now).windows_used_by(now),
        s.grant_ready(now).windows_used_by(now),
        s.complete(id, completion, now).windows_used_by(now),
        s.set_limits(limits, now).windows_used_by(now),
{
    s.lemma_windows_used_later(earlier, now);
    super::laws::law_enqueue_spends_nothing(s, meta, mode, not_before, now);
    s.lemma_pass_leaves_nothing_due(now);
    super::laws::law_completion_refunds_and_retries_nothing(s, id, completion, now);
    super::laws::law_new_limits_keep_requests_and_spending(s, limits, now);
    super::laws::law_cancel_removes_one_waiting_job(s, id);
    if s.jobs.contains_key(id.value) {
        super::laws::law_cancelled_job_leaves_no_lock(s, id, now);
    }
    if s.limits_refusal(limits) is None {
        let after = s.set_limits(limits, now);
        wakeups::lemma_relimit_used(s.global_windows, limits.global@, now);
        super::laws::lemma_new_limits_wait(s, limits, now);
        assert forall|chat: u64| #[trigger] after.chat_window_sets.contains_key(
            chat,
        ) implies wakeups::used_by(after.chat_window_sets[chat], now) by {
            assert(s.chat_window_sets.dom().contains(chat));
            wakeups::lemma_relimit_used(
                s.chat_window_sets[chat],
                window::applicable(limits.chat@, chat),
                now,
            );
        }
    }
}

/// Reading the deadlines: a moment to wait for lies ahead, a new scheduler
/// waits for an external event, and nothing is granted, given up or marked.
pub proof fn law_next_deadline_only_looks(
    s: SchedulerView,
    limits: OutboundLimits,
    aging: AgingPolicy,
    now: Instant,
)
    ensures
        s.wakeup(now) matches SchedulerWakeup::At(at) ==> at.nanos > now.nanos,
        SchedulerView::fresh(limits, aging).wakeup(now) is ExternalEvent,
        s.trimmed().jobs == s.jobs,
        s.trimmed().in_flight == s.in_flight,
        s.trimmed().lanes == s.lanes,
        s.trimmed().candidates == s.candidates,
        s.trimmed().reservations == s.reservations,
        s.trimmed().global_windows == s.global_windows,
        s.trimmed().chat_window_sets == s.chat_window_sets,
{
    super::laws::lemma_trimmed_keeps_jobs(s);
}

/// A grant pass leaves nothing due: no delay deadline, no aging moment and no
/// blocked candidate of its own time, and nobody parked behind a hold that
/// has ended, so that the next wake-up lies ahead and nobody has to look
/// again at once.
pub proof fn law_a_pass_leaves_nothing_due(s: SchedulerView, now: Instant)
    requires
        s.inv(),
        now.nanos < u64::MAX,
        wakeups::spans_every_level(s.aging),
        s.windows_used_by(now),
    ensures
        s.grant_ready(now).rises_ahead(now),
        s.grant_ready(now).delays_ahead(now),
        s.grant_ready(now).blocks_ahead(now),
        forall|i: int|
            0 <= i < s.grant_ready(now).reservations.len() && (
            #[trigger] s.grant_ready(now).reservations[i]).queue.len() > 0
                ==> s.grant_ready(now).reservations[i].until.nanos > now.nanos,
        !(s.grant_ready(now).wakeup(now) is Immediate),
{
    s.lemma_pass_leaves_nobody(now);
    s.lemma_pass_leaves_nothing_due(now);
}

} // verus!
