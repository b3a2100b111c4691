//! Equal jobs leave in order, pass after pass.

use super::entries::{Admission, AgingEvent, BlockedJob, Candidate, DelayedJob, Job};
use super::model::{ReservationView, SchedulerView};
use super::{coverage, entries, fairness, laws, model, parking, picking, wakeups};
use crate::heap;
use crate::time::Instant;
use crate::types::{AgingPolicy, Grant, JobId, OutboundScope};
use vstd::prelude::*;

verus! {

broadcast use vstd::multiset::group_multiset_axioms;

/// Whether the waiting job is parked behind a hold that has ended.
pub open spec fn left_behind(
    reservations: Seq<ReservationView>,
    id: u64,
    now: Instant,
) -> bool {
    exists|i: int|
        0 <= i < reservations.len() && (#[trigger] reservations[i]).until.nanos <= now.nanos
            && reservations[i].queue.contains(coverage::job_ref(id))
}

/// Whether `a` and `b` ask the same of the same windows, neither in a lane
/// nor delayed, and `a` goes before `b` at every moment.
pub open spec fn rivals(s: SchedulerView, a: u64, b: u64) -> bool {
    &&& s.jobs.contains_key(a)
    &&& s.jobs.contains_key(b)
    &&& s.jobs[a].not_before is None
    &&& s.jobs[b].not_before is None
    &&& s.jobs[a].meta.scope == s.jobs[b].meta.scope
    &&& s.jobs[a].meta.weight == s.jobs[b].meta.weight
    &&& model::precedes(s.jobs[a], s.jobs[b])
}

/// Whether `a` is granted, and before `b`.
pub open spec fn granted_before(grants: Seq<Grant>, a: u64, b: u64) -> bool {
    exists|i: int, j: int|
        0 <= i < j < grants.len() && (#[trigger] grants[i]).job.value == a && (
        #[trigger] grants[j]).job.value == b
}

/// A waiting job as a candidate.
pub open spec fn as_candidate(job: Job, id: u64) -> Candidate {
    Candidate {
        job: JobId { value: id },
        sequence: job.sequence,
        effective: 0,
        weight: job.meta.weight,
        scope: job.meta.scope,
    }
}

// Who has waited longer at a higher priority ranks no lower.
proof fn lemma_ranks_no_lower(a: Job, b: Job, aging: AgingPolicy, now: Instant)
    requires
        model::precedes(a, b),
        wakeups::spans_every_level(aging),
    ensures
        entries::effective(a, aging, now) >= entries::effective(b, aging, now),
{
    let q = entries::quantum_nanos(aging) as int;
    let x = now.nanos - a.ready_at.nanos;
    let y = now.nanos - b.ready_at.nanos;
    if y >= 0 {
        assert(x / q >= y / q) by (nonlinear_arith)
            requires
                q > 0,
                x >= y,
        ;
    }
}

impl SchedulerView {
    /// Whether a waiting job is a candidate, cannot pass, or is parked behind
    /// a hold that has ended.
    pub open spec fn fair_to(self, id: u64, now: Instant) -> bool {
        self.jobs.contains_key(id) ==> {
            ||| self.jobs[id].in_candidate_heap
            ||| self.admission(as_candidate(self.jobs[id], id), now) !is Pass
            ||| left_behind(self.reservations, id, now)
        }
    }

    // A job without a delay is not touched when delays end.
    proof fn lemma_promote_delayed_standing(self, id: u64, now: Instant)
        requires
            forall|e: DelayedJob| #[trigger] self.delayed.contains(e) ==> e.job.value != id,
            self.jobs.contains_key(id),
        ensures
            self.promote_delayed(now).jobs.contains_key(id),
            self.promote_delayed(now).jobs[id].ready_at == self.jobs[id].ready_at,
            self.promote_delayed(now).jobs[id].not_before == self.jobs[id].not_before,
        decreases self.delayed.len(),
    {
        if self.delayed.len() > 0 && heap::first_of(self.delayed).not_before.nanos <= now.nanos {
            let entry = heap::first_of(self.delayed);
            heap::lemma_first_exists(self.delayed);
            model::lemma_remove_shrinks(self.delayed, entry);
            let rest = SchedulerView { delayed: self.delayed.remove(entry), ..self };
            rest.lemma_steps_keep_queues(entry, now);
            let mid = rest.delayed_step(entry, now);
            assert forall|e: DelayedJob| #[trigger] mid.delayed.contains(e) implies e.job.value
                != id by {
                assert(self.delayed.contains(e));
            }
            mid.lemma_promote_delayed_standing(id, now);
        }
    }

    proof fn lemma_aging_steps_standing(self, due: Seq<AgingEvent>, id: u64, now: Instant)
        requires
            self.jobs.contains_key(id),
        ensures
            self.aging_steps(due, now).delayed == self.delayed,
            self.aging_steps(due, now).jobs.contains_key(id),
            self.aging_steps(due, now).jobs[id].ready_at == self.jobs[id].ready_at,
            self.aging_steps(due, now).jobs[id].not_before == self.jobs[id].not_before,
        decreases due.len(),
    {
        if due.len() > 0 {
            self.lemma_aging_steps_standing(due.drop_last(), id, now);
        }
    }

    proof fn lemma_wake_blocked_standing(self, id: u64, now: Instant)
        requires
            self.jobs.contains_key(id),
        ensures
            self.wake_blocked(now, now).jobs.contains_key(id),
            self.wake_blocked(now, now).jobs[id].ready_at == self.jobs[id].ready_at,
            self.wake_blocked(now, now).jobs[id].not_before == self.jobs[id].not_before,
        decreases self.blocked.len(),
    {
        if self.blocked.len() > 0 && heap::first_of(self.blocked).until.nanos <= now.nanos {
            let entry = heap::first_of(self.blocked);
            heap::lemma_first_exists(self.blocked);
            model::lemma_remove_shrinks(self.blocked, entry);
            let rest = SchedulerView { blocked: self.blocked.remove(entry), ..self };
            rest.lemma_blocked_step_keeps_queues(entry.reference, now);
            rest.blocked_step(entry.reference, now).lemma_wake_blocked_standing(id, now);
        }
    }

    proof fn lemma_reservation_steps_standing(
        self,
        windows: Seq<OutboundScope>,
        id: u64,
        now: Instant,
    )
        requires
            self.jobs.contains_key(id),
        ensures
            self.reservation_steps(windows, now).jobs.contains_key(id),
            self.reservation_steps(windows, now).jobs[id].ready_at == self.jobs[id].ready_at,
            self.reservation_steps(windows, now).jobs[id].not_before == self.jobs[id].not_before,
        decreases windows.len(),
    {
        if windows.len() > 0 {
            self.lemma_reservation_steps_standing(windows.drop_last(), id, now);
        }
    }

    // A job without a delay waits on as it is.
    pub proof fn lemma_promote_standing(self, id: u64, now: Instant)
        requires
            self.delayed_once(),
            self.jobs.contains_key(id),
            self.jobs[id].not_before is None,
        ensures
            self.promote(now).jobs[id].ready_at == self.jobs[id].ready_at,
            self.promote(now).jobs[id].not_before is None,
    {
        let start = SchedulerView {
            aging_events: model::later_events(self.aging_events, now),
            ..self
        };
        start.lemma_aging_steps_standing(model::due_events(self.aging_events, now), id, now);
        let a = self.promote_aging(now);
        a.lemma_promote_delayed_standing(id, now);
        let b = a.promote_delayed(now);
        b.lemma_wake_blocked_standing(id, now);
        let c = b.wake_blocked(now, now);
        c.lemma_reservation_steps_standing(
            model::expired_windows(c.reservations, now),
            id,
            now,
        );
    }

    // A job whose delay is over by `now`, or was ended at `now`.
    proof fn lemma_promote_delayed_rouses(self, id: u64, now: Instant)
        requires
            self.jobs.contains_key(id),
            self.jobs[id].ready_at == now || exists|e: DelayedJob| #[trigger]
                self.delayed.contains(e) && e.job.value == id && e.not_before.nanos <= now.nanos,
        ensures
            self.promote_delayed(now).jobs.contains_key(id),
            self.promote_delayed(now).jobs[id].ready_at == now,
        decreases self.delayed.len(),
    {
        if self.delayed.len() == 0 {
            assert forall|e: DelayedJob| !self.delayed.contains(e) by {
                assert(self.delayed.count(e) <= self.delayed.len());
            }
        } else {
            let entry = heap::first_of(self.delayed);
            heap::lemma_first_exists(self.delayed);
            if entry.not_before.nanos > now.nanos {
                assert forall|e: DelayedJob| #[trigger] self.delayed.contains(e) implies
                    e.not_before.nanos > now.nanos by {
                    assert(!heap::rank_lt(heap::Ranked::rank(e), heap::Ranked::rank(entry)));
                }
            } else {
                model::lemma_remove_shrinks(self.delayed, entry);
                let rest = SchedulerView { delayed: self.delayed.remove(entry), ..self };
                rest.lemma_steps_keep_queues(entry, now);
                let mid = rest.delayed_step(entry, now);
                if entry.job.value != id && self.jobs[id].ready_at != now {
                    let e = choose|e: DelayedJob| #[trigger]
                        self.delayed.contains(e) && e.job.value == id && e.not_before.nanos
                            <= now.nanos;
                    assert(rest.delayed.contains(e));
                    assert(mid.delayed.contains(e));
                }
                mid.lemma_promote_delayed_rouses(id, now);
            }
        }
    }

    // A job whose delay is over is ready from the pass on.
    pub proof fn lemma_promote_rouses(self, id: u64, now: Instant)
        requires
            self.jobs.contains_key(id),
            exists|e: DelayedJob| #[trigger]
                self.delayed.contains(e) && e.job.value == id && e.not_before.nanos <= now.nanos,
        ensures
            self.promote(now).jobs[id].ready_at == now,
    {
        let start = SchedulerView {
            aging_events: model::later_events(self.aging_events, now),
            ..self
        };
        start.lemma_aging_steps_standing(model::due_events(self.aging_events, now), id, now);
        let a = self.promote_aging(now);
        a.lemma_promote_delayed_rouses(id, now);
        let b = a.promote_delayed(now);
        b.lemma_wake_blocked_standing(id, now);
        let c = b.wake_blocked(now, now);
        c.lemma_reservation_steps_standing(
            model::expired_windows(c.reservations, now),
            id,
            now,
        );
    }

    // Who is parked behind a hold is left behind there, or held back.
    pub proof fn lemma_parked_is_fair(self, id: u64, at: int, now: Instant)
        requires
            self.orderly(now),
            0 <= at < self.reservations.len(),
            self.reservations[at].queue.contains(coverage::job_ref(id)),
        ensures
            self.fair_to(id, now),
    {
        let r = self.reservations[at];
        if self.jobs.contains_key(id) && r.until.nanos > now.nanos {
            let j = choose|j: int| 0 <= j < r.queue.len() && r.queue[j] == coverage::job_ref(id);
            assert(parking::well_parked(r, self.jobs));
            assert(parking::rightly_parked(r.window, r.queue[j], self.jobs));
            assert forall|i: int| 0 <= i < at implies (#[trigger] self.reservations[i]).window
                != r.window by {}
            fairness::lemma_found(self.reservations, r.window, at);
            assert(self.reservation_active(r.window, now));
            assert(self.held_back(self.jobs[id].meta.scope, now));
        }
    }

    // Serving a queue leaves nobody out.
    proof fn lemma_wake_at_fair(self, at: int, id: u64, now: Instant)
        requires
            self.inv(),
            self.orderly(now),
            0 <= at < self.reservations.len(),
            model::lingers(self.reservations[at], now),
            self.fair_to(id, now),
        ensures
            self.wake_at(at, now).fair_to(id, now),
    {
        let after = self.wake_at(at, now);
        self.lemma_wake_at_waits(at, now);
        self.lemma_wake_at_orderly(at, now, now);
        if after.jobs.contains_key(id) {
            assert(after.jobs.dom().contains(id));
            assert(self.jobs.contains_key(id));
            let c = as_candidate(self.jobs[id], id);
            if self.jobs[id].in_candidate_heap {
            } else if self.admission(c, now) !is Pass {
                self.lemma_refused_woken(c, at, now);
            } else {
                let own = coverage::job_ref(id);
                let i = choose|i: int|
                    0 <= i < self.reservations.len() && (
                    #[trigger] self.reservations[i]).until.nanos <= now.nanos
                        && self.reservations[i].queue.contains(own);
                let r = self.reservations[at];
                let queue = model::live_queue(r.queue, self.jobs, self.lanes);
                if i == at {
                    super::coverage_pass::lemma_live_queue_drops_dead(
                        r.queue,
                        self.jobs,
                        self.lanes,
                    );
                    assert(queue.contains(own));
                    if queue[0] != own {
                        let j = choose|j: int| 0 <= j < queue.len() && queue[j] == own;
                        assert(queue.drop_first()[j - 1] == own);
                        assert(after.reservations[at].queue.contains(own));
                        after.lemma_parked_is_fair(id, at, now);
                    }
                } else {
                    let place = if queue.len() == 0 && i > at {
                        i - 1
                    } else {
                        i
                    };
                    assert(after.reservations[place] == self.reservations[i]);
                    after.lemma_parked_is_fair(id, place, now);
                }
            }
        }
    }

    proof fn lemma_wake_next_fair(self, scope: OutboundScope, id: u64, now: Instant)
        requires
            self.inv(),
            self.orderly(now),
            self.fair_to(id, now),
        ensures
            self.wake_next(scope, now).fair_to(id, now),
    {
        let at = model::find(self.reservations, scope);
        if at < self.reservations.len() && model::lingers(self.reservations[at as int], now) {
            self.lemma_wake_at_fair(at as int, id, now);
        }
    }

    // Dealing with a candidate leaves nobody out.
    proof fn lemma_dispose_fair(self, c: Candidate, id: u64, now: Instant)
        requires
            self.inv(),
            self.orderly(now),
            self.grantable(c, now),
            self.jobs[c.job.value].meta.scope == c.scope,
            self.jobs[c.job.value].meta.weight == c.weight,
            c.job.value != id ==> self.fair_to(id, now),
        ensures
            self.dispose(c, now).fair_to(id, now),
    {
        let after = self.dispose(c, now);
        self.lemma_dispose_orderly(c, now);
        self.lemma_dispose_frame(c, now);
        if after.jobs.contains_key(id) {
            assert(after.jobs.dom().contains(id));
            assert(self.jobs.contains_key(id));
            let own = as_candidate(self.jobs[id], id);
            if self.admission(own, now) !is Pass {
                self.lemma_refused_next(own, c, now);
            } else if c.job.value == id {
                assert(self.admission(c, now) is Pass);
            } else if !self.jobs[id].in_candidate_heap {
                let reference = coverage::job_ref(id);
                let i = choose|i: int|
                    0 <= i < self.reservations.len() && (
                    #[trigger] self.reservations[i]).until.nanos <= now.nanos
                        && self.reservations[i].queue.contains(reference);
                let queue = self.reservations[i].queue;
                let checked = self.after_admission(c, now);
                assert(checked.reservations == self.reservations);
                match self.admission(c, now) {
                    Admission::Pass => {
                        checked.grant(c, now).lemma_rearm_queues(c.scope, now);
                        assert(after.reservations[i].queue == queue);
                    },
                    Admission::Blocked { until, reserve } => {
                        if let Some(scope) = reserve {
                            fairness::lemma_find_bounds(self.reservations, scope);
                        }
                        assert(after.reservations[i].queue == queue);
                    },
                    Admission::Reserved => {
                        let scope = self.parking_window(c.scope, now);
                        fairness::lemma_find_bounds(self.reservations, scope);
                        let at = model::find(self.reservations, scope) as int;
                        if i == at {
                            let parked = checked.reference_of(c.job);
                            let place = model::parking_place(queue, checked.jobs, parked) as int;
                            picking::lemma_parking_place_bounds(queue, checked.jobs, parked);
                            let j = choose|j: int| 0 <= j < queue.len() && queue[j] == reference;
                            if j < place {
                                assert(after.reservations[i].queue[j] == reference);
                            } else {
                                assert(after.reservations[i].queue[j + 1] == reference);
                            }
                        }
                    },
                }
                assert(after.reservations[i].queue.contains(reference));
                after.lemma_parked_is_fair(id, i, now);
            }
        }
    }

    proof fn lemma_settle_fair(self, c: Candidate, id: u64, now: Instant)
        requires
            self.inv(),
            self.orderly(now),
            self.grantable(c, now),
            self.jobs[c.job.value].meta.scope == c.scope,
            self.jobs[c.job.value].meta.weight == c.weight,
            c.job.value != id ==> self.fair_to(id, now),
        ensures
            self.settle(c, now).fair_to(id, now),
    {
        self.lemma_dispose_fair(c, id, now);
        self.lemma_dispose_orderly(c, now);
        self.lemma_dispose_inv(c, now);
        let after = self.dispose(c, now);
        after.lemma_wake_next_fair(OutboundScope::Global, id, now);
        after.lemma_wake_next_inv(OutboundScope::Global, now);
        after.lemma_wake_next_orderly(OutboundScope::Global, now);
        after.wake_next(OutboundScope::Global, now).lemma_wake_next_fair(c.scope, id, now);
    }

    // Taking out a candidate leaves nobody else out.
    proof fn lemma_popped_fair(self, id: u64, now: Instant)
        requires
            self.fair_to(id, now),
        ensures
            ({
                let (popped, found) = self.pop_candidate(now);
                found is Some && found->0.job.value == id || popped.fair_to(id, now)
            }),
    {
        self.lemma_pop_candidate_keeps(now);
        self.lemma_pop_candidate_waits(now);
        let (popped, found) = self.pop_candidate(now);
        if popped.jobs.contains_key(id) {
            assert(popped.jobs.dom().contains(id));
            assert(self.jobs.contains_key(id));
            let c = as_candidate(self.jobs[id], id);
            assert(popped.admission(c, now) is Pass == self.admission(c, now) is Pass);
        }
    }

    // While `a` waits, `b` is not let past.
    proof fn lemma_not_let_past(self, a: u64, b: u64, now: Instant)
        requires
            fairness::in_a_pass(self, now),
            self.orderly(now),
            rivals(self, a, b),
            self.fair_to(a, now),
        ensures
            ({
                let (popped, found) = self.pop_candidate(now);
                found matches Some(c) ==> c.job.value == b ==> {
                    ||| popped.admission(c, now) !is Pass
                    ||| popped.first_overtaken(c, now) < popped.reservations.len()
                }
            }),
    {
        self.lemma_pick_is_best(now);
        self.lemma_pop_candidate_keeps(now);
        self.lemma_pop_candidate_waits(now);
        self.lemma_popped_describes(now);
        let (popped, found) = self.pop_candidate(now);
        if let Some(c) = found {
            if c.job.value == b {
                let first = self.jobs[a];
                let second = self.jobs[b];
                lemma_ranks_no_lower(first, second, self.aging, now);
                assert(!self.jobs[a].in_candidate_heap);
                let own = as_candidate(first, a);
                assert(popped.admission(c, now) is Pass == self.admission(own, now) is Pass);
                if self.admission(own, now) is Pass && !popped.held_back(c.scope, now) {
                    let reference = coverage::job_ref(a);
                    let i = choose|i: int|
                        0 <= i < self.reservations.len() && (
                        #[trigger] self.reservations[i]).until.nanos <= now.nanos
                            && self.reservations[i].queue.contains(reference);
                    let r = self.reservations[i];
                    let j = choose|j: int| 0 <= j < r.queue.len() && r.queue[j] == reference;
                    assert(parking::well_parked(r, self.jobs));
                    assert(parking::rightly_parked(r.window, r.queue[j], self.jobs));
                    self.lemma_pop_candidate_calm(now);
                    self.lemma_calm_orderly(popped, now, now);
                    assert(parking::well_parked(popped.reservations[i], popped.jobs));
                    assert(popped.jobs.dom().contains(a));
                    assert(popped.jobs.contains_key(a));
                    let jobs = popped.jobs;
                    let job = jobs[c.job.value];
                    assert(model::is_ahead(r.queue[j], jobs, job));
                    parking::lemma_someone_is_found(r.queue, jobs, job, j);
                    picking::lemma_first_where(
                        popped.reservations,
                        |r: ReservationView| model::overtakes(r, jobs, job, now),
                    );
                    assert(model::overtakes(popped.reservations[i], jobs, job, now));
                }
            }
        }
    }

    proof fn lemma_pick_fair(self, a: u64, b: u64, now: Instant)
        requires
            fairness::in_a_pass(self, now),
            self.orderly(now),
            rivals(self, a, b),
            self.fair_to(a, now),
        ensures
            self.pick(now).1 matches Some(c) ==> {
                &&& c.job.value == b ==> self.pick(now).0.admission(c, now) !is Pass
                &&& c.job.value != a ==> self.pick(now).0.fair_to(a, now)
            },
        decreases model::lingering(self.reservations, now),
    {
        self.lemma_woken_lingers_no_more(now);
        self.lemma_popped_fair(a, now);
        self.lemma_not_let_past(a, b, now);
        self.lemma_search_goes_on(now);
        self.lemma_pop_candidate_inv(now);
        self.lemma_pop_candidate_calm(now);
        self.lemma_pop_candidate_keeps(now);
        let (popped, found) = self.pop_candidate(now);
        self.lemma_calm_orderly(popped, now, now);
        match found {
            None => {
                let at = popped.first_lingering(now);
                picking::lemma_first_where(
                    popped.reservations,
                    |r: ReservationView| model::lingers(r, now),
                );
                if at < popped.reservations.len() {
                    let woken = popped.wake_at(at as int, now);
                    popped.lemma_wake_at_fair(at as int, a, now);
                    popped.lemma_wake_at_orderly(at as int, now, now);
                    assert(rivals(woken, a, b)) by {
                        assert(woken.jobs.dom().contains(a) && woken.jobs.dom().contains(b));
                        assert(woken.jobs.contains_key(a) && woken.jobs.contains_key(b));
                    }
                    woken.lemma_pick_fair(a, b, now);
                }
            },
            Some(c) => {
                let at = popped.first_overtaken(c, now);
                if at < popped.reservations.len() {
                    let woken = popped.wake_at(at as int, now);
                    let back = woken.push_job_candidate(c.job, now);
                    popped.lemma_overtaking_is_unlaned(c, now);
                    popped.lemma_wake_at_inv(at as int, now);
                    popped.lemma_wake_at_orderly(at as int, now, now);
                    popped.lemma_wake_at_waits(at as int, now);
                    assert(woken.calm(back));
                    woken.lemma_calm_orderly(back, now, now);
                    assert(back.fair_to(a, now)) by {
                        assert(popped.jobs.dom().contains(a));
                        assert(woken.jobs.dom().contains(a));
                        assert(woken.jobs.contains_key(a));
                        if c.job.value != a {
                            popped.lemma_wake_at_fair(at as int, a, now);
                            let own = as_candidate(woken.jobs[a], a);
                            assert(back.admission(own, now) is Pass == woken.admission(
                                own,
                                now,
                            ) is Pass);
                        }
                    }
                    assert(rivals(back, a, b)) by {
                        assert(back.jobs.dom().contains(a) && back.jobs.dom().contains(b));
                        assert(back.jobs.contains_key(a) && back.jobs.contains_key(b));
                    }
                    back.lemma_pick_fair(a, b, now);
                }
            },
        }
    }

    // One step of a pass: `a` is granted, or both wait on and `a` is left out
    // no more than before.
    proof fn lemma_step_in_order(self, a: u64, b: u64, now: Instant)
        requires
            fairness::in_a_pass(self, now),
            self.orderly(now),
            rivals(self, a, b),
            self.fair_to(a, now),
        ensures
            self.pick(now).1 matches Some(c) ==> {
                let popped = self.pick(now).0;
                let after = popped.settle(c, now);
                &&& fairness::in_a_pass(after, now)
                &&& after.orderly(now)
                &&& after.fair_to(a, now)
                &&& popped.admission(c, now) is Pass ==> c.job.value != b
                &&& popped.admission(c, now) is Pass && c.job.value == a || rivals(after, a, b)
            },
    {
        self.lemma_pick_inv(now);
        self.lemma_pick_waits(now);
        self.lemma_pick_orderly(now);
        self.lemma_picked_describes(now);
        self.lemma_picked_is_best(now);
        self.lemma_pick_fair(a, b, now);
        fairness::lemma_goes_on_in_a_pass(self, now);
        let (popped, found) = self.pick(now);
        if let Some(c) = found {
            popped.lemma_settle_orderly(c, now);
            popped.lemma_settle_fair(c, a, now);
            popped.lemma_settle_waits(c, now);
            popped.lemma_settle_standing(c, now);
            popped.lemma_dispose_frame(c, now);
            let done = popped.dispose(c, now);
            let after = popped.settle(c, now);
            assert(popped.jobs.dom().contains(a) && popped.jobs.dom().contains(b));
            if !(popped.admission(c, now) is Pass && c.job.value == a) {
                assert(done.jobs.dom().contains(a) && done.jobs.dom().contains(b));
                assert(after.jobs.contains_key(a) && after.jobs.contains_key(b));
                assert(popped.jobs.contains_key(a) && popped.jobs.contains_key(b));
            }
        }
    }

    proof fn lemma_loop_in_order(self, a: u64, b: u64, now: Instant)
        requires
            fairness::in_a_pass(self, now),
            self.orderly(now),
            rivals(self, a, b),
            self.fair_to(a, now),
            laws::names(self.grant_loop(now).1, b),
        ensures
            granted_before(self.grant_loop(now).1, a, b),
        decreases
            self.jobs.dom().len(),
            model::lingering(self.reservations, now),
            self.disorder(now),
            self.candidates.len(),
    {
        self.lemma_step_in_order(a, b, now);
        if let Some(c) = self.pick(now).1 {
            self.lemma_settle_decreases(now);
            let popped = self.pick(now).0;
            let after = popped.settle(c, now);
            let rest = after.grant_loop(now).1;
            lemma_names_joined(c.job, rest, a);
            lemma_names_joined(c.job, rest, b);
            if popped.admission(c, now) is Pass && c.job.value == a {
                lemma_first_goes_before(c.job, rest, b);
            } else {
                after.lemma_loop_in_order(a, b, now);
                lemma_goes_before_joined(c.job, rest, a, b);
            }
        }
    }
}

proof fn lemma_first_goes_before(job: JobId, rest: Seq<Grant>, b: u64)
    requires
        laws::names(rest, b),
    ensures
        granted_before(seq![Grant { job }] + rest, job.value, b),
{
    let grants = seq![Grant { job }] + rest;
    let at = choose|at: int|
        0 <= at < rest.len() && rest[at] == (Grant { job: JobId { value: b } });
    assert(grants[0].job == job);
    assert(grants[at + 1] == rest[at]);
}

proof fn lemma_goes_before_joined(job: JobId, rest: Seq<Grant>, a: u64, b: u64)
    requires
        granted_before(rest, a, b),
    ensures
        granted_before(seq![Grant { job }] + rest, a, b),
{
    let grants = seq![Grant { job }] + rest;
    let (i, j) = choose|i: int, j: int|
        0 <= i < j < rest.len() && (#[trigger] rest[i]).job.value == a && (
        #[trigger] rest[j]).job.value == b;
    assert(grants[i + 1] == rest[i]);
    assert(grants[j + 1] == rest[j]);
}

pub proof fn lemma_names_joined(job: JobId, rest: Seq<Grant>, id: u64)
    ensures
        laws::names(seq![Grant { job }] + rest, id) <==> job.value == id || laws::names(rest, id),
{
    let grants = seq![Grant { job }] + rest;
    let one = Grant { job: JobId { value: id } };
    if laws::names(grants, id) && job.value != id {
        let at = choose|at: int| 0 <= at < grants.len() && grants[at] == one;
        assert(rest[at - 1] == one);
    }
    if job.value == id {
        assert(grants[0] == one);
    }
    if laws::names(rest, id) {
        let at = choose|at: int| 0 <= at < rest.len() && rest[at] == one;
        assert(grants[at + 1] == one);
    }
}

/// Equal jobs leave in order: of two unlaned jobs without a delay, of the
/// same scope and weight, the one that is older, has waited at least as long
/// and has no lower priority is granted in every pass that grants the other
/// one, and before it, whatever passes have gone before.
pub proof fn law_equal_jobs_leave_in_order(
    s: SchedulerView,
    earlier: Instant,
    a: u64,
    b: u64,
    now: Instant,
)
    requires
        s.inv(),
        s.covered(),
        s.in_rank(earlier),
        s.orderly(earlier),
        earlier.nanos <= now.nanos,
        wakeups::spans_every_level(s.aging),
        rivals(s, a, b),
        laws::names(s.grants(now), b),
    ensures
        laws::names(s.grants(now), a),
        granted_before(s.grants(now), a, b),
{
    fairness::lemma_starts_in_a_pass(s, earlier, now);
    s.lemma_promote_waits(now);
    s.lemma_promote_ahead(now);
    s.lemma_promote_orderly(earlier, now);
    s.lemma_promote_standing(a, now);
    s.lemma_promote_standing(b, now);
    let mid = s.promote(now);
    assert(s.jobs.dom().contains(a) && s.jobs.dom().contains(b));
    assert(mid.jobs.dom().contains(a) && mid.jobs.dom().contains(b));
    assert(mid.jobs.contains_key(a) && mid.jobs.contains_key(b));
    assert(rivals(mid, a, b));
    assert(mid.fair_to(a, now)) by {
        assert(mid.job_kept(a));
        if !mid.jobs[a].in_candidate_heap {
            let own = coverage::job_ref(a);
            assert(mid.sleeps(own));
            if coverage::blocked_in(mid.blocked, own) {
                let e = choose|e: BlockedJob| #[trigger]
                    mid.blocked.contains(e) && e.reference == own;
                assert(mid.blocked_with_reason(e, now));
                assert(mid.closed_to(mid.jobs[a].meta, now));
            } else {
                let i = choose|i: int|
                    0 <= i < mid.reservations.len() && (
                    #[trigger] mid.reservations[i]).queue.contains(own);
                mid.lemma_parked_is_fair(a, i, now);
            }
        }
    }
    mid.lemma_loop_in_order(a, b, now);
    let grants = s.grants(now);
    let (i, j) = choose|i: int, j: int|
        0 <= i < j < grants.len() && (#[trigger] grants[i]).job.value == a && (
        #[trigger] grants[j]).job.value == b;
    assert(grants[i] == Grant { job: JobId { value: a } });
}

} // verus!
