//! What holds of a history of calls.

use super::model::SchedulerView;
use super::{fairness, laws, model, wakeups};
use crate::time::Instant;
use crate::types::{
    AgingPolicy, Grant, JobId, OutboundCompletion, OutboundEnqueueMode,
    OutboundLimits, OutboundMeta, OutboundScope,
};
use vstd::prelude::*;

verus! {

/// One operation of the scheduler.
pub enum Call {
    Enqueue { meta: OutboundMeta, mode: OutboundEnqueueMode, not_before: Option<Instant> },
    Cancel { id: JobId },
    CancelAt { id: JobId },
    GrantReady,
    Start { id: JobId },
    Complete { id: JobId, completion: OutboundCompletion },
    Penalize { scope: OutboundScope, until: Instant },
    SetLimits { limits: OutboundLimits },
    NextDeadline,
}

/// A call and the moment at which it is made.
pub struct Step {
    pub call: Call,
    pub now: Instant,
}

/// The state after one call.
pub open spec fn step(s: SchedulerView, one: Step) -> SchedulerView {
    match one.call {
        Call::Enqueue { meta, mode, not_before } => s.enqueue(meta, mode, not_before, one.now),
        Call::Cancel { id } => s.cancel(id),
        Call::CancelAt { id } => s.cancel_at(id, one.now),
        Call::GrantReady => s.grant_ready(one.now),
        Call::Start { id } => s.start(id, one.now),
        Call::Complete { id, completion } => s.complete(id, completion, one.now),
        Call::Penalize { scope, until } => s.penalize(scope, until),
        Call::SetLimits { limits } => s.set_limits(limits, one.now),
        Call::NextDeadline => s.trimmed(),
    }
}

/// The permits that one call hands out.
pub open spec fn handed_out(s: SchedulerView, one: Step) -> Seq<Grant> {
    match one.call {
        Call::GrantReady => s.grants(one.now),
        _ => Seq::empty(),
    }
}

/// The state after a history of calls.
pub open spec fn run(s: SchedulerView, steps: Seq<Step>) -> SchedulerView
    decreases steps.len(),
{
    if steps.len() == 0 {
        s
    } else {
        step(run(s, steps.drop_last()), steps.last())
    }
}

/// All permits of a history, in order.
pub open spec fn permits(s: SchedulerView, steps: Seq<Step>) -> Seq<Grant>
    decreases steps.len(),
{
    if steps.len() == 0 {
        Seq::empty()
    } else {
        permits(s, steps.drop_last()) + handed_out(run(s, steps.drop_last()), steps.last())
    }
}

/// Whether a call ends the waiting of a job: it grants, cancels, supersedes
/// or completes it.
pub open spec fn ends_waiting(s: SchedulerView, one: Step, id: u64) -> bool {
    match one.call {
        Call::Enqueue { meta, mode, .. } => s.enqueue_result(meta, mode) matches Ok(told)
            && told.superseded == Some(JobId { value: id }),
        Call::Cancel { id: gone } => gone.value == id,
        Call::CancelAt { id: gone } => gone.value == id,
        Call::GrantReady => laws::names(s.grants(one.now), id),
        Call::Complete { id: done, .. } => done.value == id && s.in_flight.contains_key(id),
        _ => false,
    }
}

/// Whether a call issues the id.
pub open spec fn issues(s: SchedulerView, one: Step, id: u64) -> bool {
    one.call matches Call::Enqueue { meta, mode, .. } && s.enqueue_result(meta, mode) matches Ok(
        told,
    ) && told.job.value == id
}

/// Whether some call of the history issues the id.
pub open spec fn issued_in(s: SchedulerView, steps: Seq<Step>, id: u64) -> bool {
    exists|i: int|
        0 <= i < steps.len() && issues(run(s, steps.take(i)), #[trigger] steps[i], id)
}

// One call keeps the state sound, and issues at most one id.
proof fn lemma_step(s: SchedulerView, one: Step)
    requires
        s.inv(),
        s.next_job_id < u64::MAX,
    ensures
        step(s, one).inv(),
        s.next_job_id <= step(s, one).next_job_id <= s.next_job_id + 1,
        step(s, one).next_job_id > s.next_job_id ==> issues(s, one, s.next_job_id),
{
    match one.call {
        Call::Enqueue { meta, mode, not_before } => {
            if s.refusal(meta, mode) is None {
                s.lemma_accept_inv(meta, mode, not_before, one.now);
                laws::lemma_accepted(s, meta, mode, not_before, one.now);
            }
        },
        Call::Cancel { id } => s.lemma_cancel_inv(id),
        Call::CancelAt { id } => s.lemma_cancel_at_inv(id, one.now),
        Call::GrantReady => {
            s.lemma_grant_ready_inv(one.now);
            laws::law_grant_pass(s, one.now);
        },
        Call::Start { id } => s.lemma_start_inv(id, one.now),
        Call::Complete { id, completion } => s.lemma_complete_inv(id, completion, one.now),
        Call::Penalize { scope, until } => {
            let after = s.penalize(scope, until);
            s.lemma_fewer_entries(after);
        },
        Call::SetLimits { limits } => {
            s.lemma_set_limits_inv(limits, one.now);
            laws::lemma_new_limits_wait(s, limits, one.now);
        },
        Call::NextDeadline => {
            s.lemma_trimmed_inv();
            laws::lemma_trimmed_keeps_jobs(s);
        },
    }
}

pub proof fn lemma_run_inv(s: SchedulerView, steps: Seq<Step>)
    requires
        s.inv(),
        s.next_job_id + steps.len() < u64::MAX,
    ensures
        run(s, steps).inv(),
        s.next_job_id <= run(s, steps).next_job_id <= s.next_job_id + steps.len(),
    decreases steps.len(),
{
    if steps.len() > 0 {
        lemma_run_inv(s, steps.drop_last());
        lemma_step(run(s, steps.drop_last()), steps.last());
    }
}

// What is gone stays gone through one call.
proof fn lemma_gone_step(s: SchedulerView, one: Step, id: u64)
    requires
        s.inv(),
        s.next_job_id < u64::MAX,
        id < s.next_job_id,
        !s.jobs.contains_key(id),
    ensures
        !step(s, one).jobs.contains_key(id),
        !laws::names(handed_out(s, one), id),
{
    let meta = match one.call {
        Call::Enqueue { meta, .. } => meta,
        _ => arbitrary(),
    };
    let mode = match one.call {
        Call::Enqueue { mode, .. } => mode,
        _ => OutboundEnqueueMode::Fifo,
    };
    let not_before = match one.call {
        Call::Enqueue { not_before, .. } => not_before,
        _ => None,
    };
    let other = match one.call {
        Call::Cancel { id } => id,
        Call::CancelAt { id } => id,
        Call::Complete { id, .. } => id,
        _ => JobId { value: 0 },
    };
    let completion = match one.call {
        Call::Complete { completion, .. } => completion,
        _ => OutboundCompletion::Success,
    };
    let limits = match one.call {
        Call::SetLimits { limits } => limits,
        _ => arbitrary(),
    };
    laws::law_one_permit_per_enqueue(
        s,
        id,
        meta,
        mode,
        not_before,
        other,
        completion,
        limits,
        one.now,
    );
    laws::lemma_trimmed_keeps_jobs(s);
}

proof fn lemma_gone(s: SchedulerView, steps: Seq<Step>, id: u64)
    requires
        s.inv(),
        s.next_job_id + steps.len() < u64::MAX,
        id < s.next_job_id,
        !s.jobs.contains_key(id),
    ensures
        !run(s, steps).jobs.contains_key(id),
        !laws::names(permits(s, steps), id),
    decreases steps.len(),
{
    if steps.len() > 0 {
        let before = steps.drop_last();
        lemma_gone(s, before, id);
        lemma_run_inv(s, before);
        lemma_gone_step(run(s, before), steps.last(), id);
        lemma_names_added(permits(s, before), handed_out(run(s, before), steps.last()), id);
    }
}

proof fn lemma_names_added(a: Seq<Grant>, b: Seq<Grant>, id: u64)
    ensures
        laws::names(a + b, id) <==> laws::names(a, id) || laws::names(b, id),
{
    let one = Grant { job: JobId { value: id } };
    let all = a + b;
    if laws::names(all, id) {
        let i = choose|i: int| 0 <= i < all.len() && all[i] == one;
        if i < a.len() {
            assert(a[i] == one);
        } else {
            assert(b[i - a.len()] == one);
        }
    }
    if laws::names(a, id) {
        let i = choose|i: int| 0 <= i < a.len() && a[i] == one;
        assert(all[i] == one);
    }
    if laws::names(b, id) {
        let i = choose|i: int| 0 <= i < b.len() && b[i] == one;
        assert(all[a.len() + i] == one);
    }
}

// A pass does not change the aging policy.
proof fn lemma_loop_keeps_aging(s: SchedulerView, now: Instant)
    requires
        s.jobs.dom().finite(),
    ensures
        s.grant_loop(now).0.aging == s.aging,
    decreases
        s.jobs.dom().len(),
        model::lingering(s.reservations, now),
        s.disorder(now),
        s.candidates.len(),
{
    s.lemma_pick_waits(now);
    if let Some(c) = s.pick(now).1 {
        let popped = s.pick(now).0;
        s.lemma_settle_decreases(now);
        popped.lemma_settle_waits(c, now);
        popped.lemma_dispose_waits(c, now);
        lemma_loop_keeps_aging(popped.settle(c, now), now);
    }
}

proof fn lemma_step_keeps_aging(s: SchedulerView, one: Step)
    requires
        s.inv(),
        s.next_job_id < u64::MAX,
    ensures
        step(s, one).aging == s.aging,
{
    match one.call {
        Call::Enqueue { meta, mode, not_before } => {
            if s.refusal(meta, mode) is None {
                laws::lemma_accepted(s, meta, mode, not_before, one.now);
            }
        },
        Call::GrantReady => {
            s.lemma_promote_inv(one.now);
            s.lemma_promote_waits(one.now);
            lemma_loop_keeps_aging(s.promote(one.now), one.now);
        },
        Call::SetLimits { limits } => laws::lemma_new_limits_wait(s, limits, one.now),
        Call::NextDeadline => laws::lemma_trimmed_keeps_jobs(s),
        _ => {},
    }
}

/// What the laws ask of a state: it is sound, no waiting job is forgotten,
/// candidates are in rank, sleepers are in order and windows are used in the
/// order of time, up to `clock`.
pub open spec fn in_good_order(s: SchedulerView, clock: Instant) -> bool {
    &&& s.inv()
    &&& s.covered()
    &&& s.in_rank(clock)
    &&& s.orderly(clock)
    &&& s.windows_used_by(clock)
    &&& wakeups::spans_every_level(s.aging)
}

proof fn lemma_step_in_good_order(s: SchedulerView, one: Step, clock: Instant)
    requires
        in_good_order(s, clock),
        s.next_job_id < u64::MAX,
        clock.nanos <= one.now.nanos < u64::MAX,
    ensures
        in_good_order(step(s, one), one.now),
{
    let now = one.now;
    lemma_step(s, one);
    lemma_step_keeps_aging(s, one);
    s.lemma_ranked_later(clock, now);
    s.lemma_windows_used_later(clock, now);
    match one.call {
        Call::Enqueue { meta, mode, not_before } => {
            if s.refusal(meta, mode) is None {
                s.lemma_accept_covered(meta, mode, not_before, now);
                s.lemma_accept_in_rank(meta, mode, not_before, now);
                s.lemma_accept_orderly(meta, mode, not_before, clock, now);
                laws::lemma_accepted(s, meta, mode, not_before, now);
            } else {
                assert(s.calm(s));
                s.lemma_calm_orderly(s, clock, now);
            }
        },
        Call::Cancel { id } => {
            s.lemma_cancel_covered(id);
            s.lemma_cancel_in_rank(id, now);
            s.lemma_cancel_orderly(id, clock, now);
            laws::law_cancel_removes_one_waiting_job(s, id);
        },
        Call::CancelAt { id } => {
            s.lemma_cancel_at_covered(id, now);
            s.lemma_cancel_at_in_rank(id, now);
            s.lemma_cancel_orderly(id, clock, now);
        },
        Call::GrantReady => {
            s.lemma_grant_ready_covered(now);
            s.lemma_grant_ready_ranked(now);
            s.lemma_grant_ready_orderly(clock, now);
            s.lemma_pass_leaves_nothing_due(now);
        },
        Call::Start { id } => {
            s.lemma_start_covered(id, now);
            s.lemma_start_in_rank(id, now);
            s.lemma_start_orderly(id, clock, now);
        },
        Call::Complete { id, completion } => {
            s.lemma_complete_covered(id, completion, now);
            s.lemma_complete_in_rank(id, completion, now);
            s.lemma_complete_orderly(id, completion, clock, now);
            laws::law_completion_refunds_and_retries_nothing(s, id, completion, now);
        },
        Call::Penalize { scope, until } => {
            fairness::law_penalizing_moves_nobody(s, clock, scope, until, now);
        },
        Call::SetLimits { limits } => {
            s.lemma_set_limits_covered(limits, now);
            s.lemma_set_limits_in_rank(limits, now);
            s.lemma_set_limits_orderly(limits, clock, now);
            fairness::law_windows_are_used_in_the_order_of_time(
                s,
                clock,
                arbitrary(),
                OutboundEnqueueMode::Fifo,
                None,
                JobId { value: 0 },
                OutboundCompletion::Success,
                limits,
                now,
            );
        },
        Call::NextDeadline => {
            s.lemma_trimmed_covered();
            s.lemma_trimmed_in_rank(now);
            s.lemma_trimmed_orderly(clock, now);
            laws::lemma_trimmed_keeps_jobs(s);
        },
    }
}

/// Whether the calls of a history are made in the order of time.
pub open spec fn in_order(steps: Seq<Step>) -> bool {
    forall|i: int, j: int|
        0 <= i <= j < steps.len() ==> (#[trigger] steps[i]).now.nanos <= (
        #[trigger] steps[j]).now.nanos
}

/// Every state that calls in the order of time lead to is in good order: what
/// the laws ask of a state holds of all of them. A scheduler is only made
/// with an aging policy that spans every level.
pub proof fn law_every_history_stays_in_good_order(
    limits: OutboundLimits,
    aging: AgingPolicy,
    steps: Seq<Step>,
    clock: Instant,
)
    requires
        steps.len() < u64::MAX,
        in_order(steps),
        steps.len() > 0 ==> steps.last().now.nanos <= clock.nanos,
        clock.nanos < u64::MAX,
        wakeups::spans_every_level(aging),
    ensures
        in_good_order(run(SchedulerView::fresh(limits, aging), steps), clock),
    decreases steps.len(),
{
    let s = SchedulerView::fresh(limits, aging);
    if steps.len() == 0 {
        SchedulerView::lemma_fresh_inv(limits, aging);
        SchedulerView::lemma_fresh_covered(limits, aging);
        SchedulerView::lemma_fresh_in_rank(limits, aging, clock);
    } else {
        let before = steps.drop_last();
        let one = steps.last();
        assert(one == steps[steps.len() - 1]);
        assert forall|i: int, j: int| 0 <= i <= j < before.len() implies (
        #[trigger] before[i]).now.nanos <= (#[trigger] before[j]).now.nanos by {
            assert(before[i] == steps[i] && before[j] == steps[j]);
        }
        if before.len() > 0 {
            assert(before.last() == steps[before.len() - 1]);
        }
        law_every_history_stays_in_good_order(limits, aging, before, one.now);
        SchedulerView::lemma_fresh_inv(limits, aging);
        lemma_run_inv(s, before);
        let mid = run(s, before);
        lemma_step_in_good_order(mid, one, one.now);
        let after = step(mid, one);
        after.lemma_ranked_later(one.now, clock);
        after.lemma_windows_used_later(one.now, clock);
        assert(after.calm(after));
        after.lemma_calm_orderly(after, one.now, clock);
    }
}

/// A job whose waiting has ended gets no permit afterwards: neither one that
/// was granted, nor one that was cancelled or superseded, nor one that was
/// completed, however it ended.
pub proof fn law_no_permit_once_the_waiting_has_ended(
    s: SchedulerView,
    one: Step,
    later: Seq<Step>,
    id: u64,
)
    requires
        s.inv(),
        s.next_job_id + 1 + later.len() < u64::MAX,
        id < s.next_job_id,
        ends_waiting(s, one, id),
    ensures
        !run(step(s, one), later).jobs.contains_key(id),
        !laws::names(permits(step(s, one), later), id),
{
    lemma_step(s, one);
    match one.call {
        Call::Enqueue { meta, mode, not_before } => {
            laws::lemma_accepted(s, meta, mode, not_before, one.now);
            let after = s.enqueue(meta, mode, not_before, one.now);
            assert(!after.jobs.dom().contains(id));
        },
        Call::Cancel { id: gone } => {
            laws::law_cancel_removes_one_waiting_job(s, gone);
        },
        Call::CancelAt { id: gone } => {
            if s.jobs.contains_key(id) {
                laws::law_cancelled_job_leaves_no_lock(s, gone, one.now);
                assert(!s.cancel_at(gone, one.now).jobs.dom().contains(id));
            }
        },
        Call::GrantReady => {
            laws::law_grant_pass(s, one.now);
        },
        _ => {},
    }
    lemma_gone(step(s, one), later, id);
}

/// No id is granted twice in a history.
pub proof fn law_no_id_is_granted_twice(s: SchedulerView, steps: Seq<Step>)
    requires
        s.inv(),
        s.next_job_id + steps.len() < u64::MAX,
    ensures
        permits(s, steps).no_duplicates(),
        forall|k: u64| #[trigger]
            laws::names(permits(s, steps), k) ==> k < run(s, steps).next_job_id && !run(
                s,
                steps,
            ).jobs.contains_key(k),
    decreases steps.len(),
{
    if steps.len() > 0 {
        let before = steps.drop_last();
        let mid = run(s, before);
        let one = steps.last();
        law_no_id_is_granted_twice(s, before);
        lemma_run_inv(s, before);
        lemma_step(mid, one);
        let a = permits(s, before);
        let b = handed_out(mid, one);
        if one.call is GrantReady {
            laws::law_grant_pass(mid, one.now);
        }
        assert forall|k: u64| #[trigger] laws::names(permits(s, steps), k) implies k < run(
            s,
            steps,
        ).next_job_id && !run(s, steps).jobs.contains_key(k) by {
            lemma_names_added(a, b, k);
            if laws::names(a, k) {
                lemma_gone_step(mid, one, k);
            } else {
                let i = choose|i: int| 0 <= i < b.len() && b[i] == (Grant {
                    job: JobId { value: k },
                });
                assert(laws::may_be_granted(mid, b[i].job.value, one.now));
                assert(mid.jobs.contains_key(k));
            }
        }
        assert forall|i: int, j: int|
            0 <= i < a.len() && 0 <= j < b.len() implies a[i] != b[j] by {
            let k = a[i].job.value;
            assert(a[i] == (Grant { job: JobId { value: k } }));
            assert(laws::names(a, k));
            lemma_gone_step(mid, one, k);
            if a[i] == b[j] {
                assert(laws::names(b, k));
            }
        }
    }
}

/// Every permit of a history belongs to an earlier accepted request: a new
/// scheduler grants only ids that it has issued before.
pub proof fn law_every_permit_was_asked_for(
    limits: OutboundLimits,
    aging: AgingPolicy,
    steps: Seq<Step>,
    at: int,
    id: u64,
)
    requires
        steps.len() < u64::MAX,
        0 <= at < steps.len(),
        laws::names(
            handed_out(run(SchedulerView::fresh(limits, aging), steps.take(at)), steps[at]),
            id,
        ),
    ensures
        issued_in(SchedulerView::fresh(limits, aging), steps.take(at), id),
{
    let s = SchedulerView::fresh(limits, aging);
    let before = steps.take(at);
    SchedulerView::lemma_fresh_inv(limits, aging);
    lemma_run_inv(s, before);
    let mid = run(s, before);
    laws::law_grant_pass(mid, steps[at].now);
    let b = handed_out(mid, steps[at]);
    let i = choose|i: int| 0 <= i < b.len() && b[i] == (Grant { job: JobId { value: id } });
    assert(laws::may_be_granted(mid, b[i].job.value, steps[at].now));
    assert(mid.jobs.contains_key(id));
    lemma_issued(s, before, id);
}

proof fn lemma_issued(s: SchedulerView, steps: Seq<Step>, id: u64)
    requires
        s.inv(),
        s.next_job_id + steps.len() < u64::MAX,
        s.next_job_id <= id < run(s, steps).next_job_id,
    ensures
        issued_in(s, steps, id),
    decreases steps.len(),
{
    if steps.len() > 0 {
        let before = steps.drop_last();
        let mid = run(s, before);
        lemma_run_inv(s, before);
        lemma_step(mid, steps.last());
        if id < mid.next_job_id {
            lemma_issued(s, before, id);
            let i = choose|i: int|
                0 <= i < before.len() && issues(
                    run(s, before.take(i)),
                    #[trigger] before[i],
                    id,
                );
            assert(steps.take(i) =~= before.take(i));
            assert(issues(run(s, steps.take(i)), steps[i], id));
        } else {
            let i = steps.len() - 1;
            assert(steps.take(i) =~= before);
            assert(issues(run(s, steps.take(i)), steps[i], id));
        }
    }
}

/// An id that was issued is never issued again.
pub proof fn law_no_id_is_issued_twice(s: SchedulerView, one: Step, later: Seq<Step>, id: u64)
    requires
        s.inv(),
        s.next_job_id + 1 + later.len() < u64::MAX,
        issues(s, one, id),
    ensures
        !issued_in(step(s, one), later, id),
{
    lemma_step(s, one);
    if let Call::Enqueue { meta, mode, not_before } = one.call {
        laws::lemma_accepted(s, meta, mode, not_before, one.now);
    }
    let after = step(s, one);
    assert forall|i: int| 0 <= i < later.len() implies !issues(
        run(after, later.take(i)),
        #[trigger] later[i],
        id,
    ) by {
        lemma_run_inv(after, later.take(i));
    }
}

} // verus!
