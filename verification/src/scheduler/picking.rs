//! Picking the candidate that is dealt with next: whoever is parked behind
//! an ended hold is served on the way, and the search ends.

use super::entries::{Admission, Candidate, CandidateRef, Job};
use super::model::{ReservationView, SchedulerView};
use super::{fairness, model};
use crate::time::Instant;
use crate::types::OutboundScope;
use vstd::prelude::*;

verus! {

pub proof fn lemma_first_where(
    reservations: Seq<ReservationView>,
    p: spec_fn(ReservationView) -> bool,
)
    ensures
        model::first_where(reservations, p) <= reservations.len(),
        model::first_where(reservations, p) < reservations.len() ==> p(
            reservations[model::first_where(reservations, p) as int],
        ),
        forall|i: int|
            0 <= i < model::first_where(reservations, p) ==> !p(#[trigger] reservations[i]),
    decreases reservations.len(),
{
    if reservations.len() > 0 && !p(reservations[0]) {
        let rest = reservations.drop_first();
        lemma_first_where(rest, p);
        assert forall|i: int| 0 <= i < model::first_where(reservations, p) implies !p(
            #[trigger] reservations[i],
        ) by {
            if i > 0 {
                assert(rest[i - 1] == reservations[i]);
            }
        }
    }
}

proof fn lemma_place_before_bounds(
    queue: Seq<CandidateRef>,
    jobs: Map<u64, Job>,
    age: u64,
    place: nat,
)
    requires
        queue.len() <= place,
    ensures
        model::place_before(queue, jobs, age, place) <= place,
    decreases queue.len(),
{
    if queue.len() > 0 {
        let rest = queue.drop_last();
        lemma_place_before_bounds(rest, jobs, age, rest.len());
        lemma_place_before_bounds(rest, jobs, age, place);
    }
}

pub proof fn lemma_parking_place_bounds(
    queue: Seq<CandidateRef>,
    jobs: Map<u64, Job>,
    reference: CandidateRef,
)
    ensures
        model::parking_place(queue, jobs, reference) <= queue.len(),
{
    if let Some(age) = model::age_of(reference, jobs) {
        lemma_place_before_bounds(queue, jobs, age, queue.len());
    }
}

/// Whom somebody precedes is in no lane.
pub proof fn lemma_overtaking_has_no_lane(
    queue: Seq<CandidateRef>,
    jobs: Map<u64, Job>,
    job: Job,
)
    requires
        model::someone_ahead(queue, jobs, job),
    ensures
        job.meta.lane is None,
    decreases queue.len(),
{
    if !model::is_ahead(queue[0], jobs, job) {
        lemma_overtaking_has_no_lane(queue.drop_first(), jobs, job);
    }
}

spec fn share(r: ReservationView, now: Instant) -> nat {
    if r.until.nanos <= now.nanos {
        r.queue.len()
    } else {
        0
    }
}

proof fn lemma_lingering_update(
    reservations: Seq<ReservationView>,
    at: int,
    r: ReservationView,
    now: Instant,
)
    requires
        0 <= at < reservations.len(),
    ensures
        model::lingering(reservations.update(at, r), now) + share(reservations[at], now)
            == model::lingering(reservations, now) + share(r, now),
    decreases reservations.len(),
{
    let after = reservations.update(at, r);
    if at > 0 {
        lemma_lingering_update(reservations.drop_first(), at - 1, r, now);
        assert(after.drop_first() =~= reservations.drop_first().update(at - 1, r));
    } else {
        assert(after.drop_first() =~= reservations.drop_first());
    }
}

proof fn lemma_lingering_remove(reservations: Seq<ReservationView>, at: int, now: Instant)
    requires
        0 <= at < reservations.len(),
    ensures
        model::lingering(reservations.remove(at), now) + share(reservations[at], now)
            == model::lingering(reservations, now),
    decreases reservations.len(),
{
    let after = reservations.remove(at);
    if at > 0 {
        lemma_lingering_remove(reservations.drop_first(), at - 1, now);
        assert(after.drop_first() =~= reservations.drop_first().remove(at - 1));
    } else {
        assert(after =~= reservations.drop_first());
    }
}

proof fn lemma_lingering_push(reservations: Seq<ReservationView>, r: ReservationView, now: Instant)
    ensures
        model::lingering(reservations.push(r), now) == model::lingering(reservations, now) + share(
            r,
            now,
        ),
    decreases reservations.len(),
{
    if reservations.len() > 0 {
        lemma_lingering_push(reservations.drop_first(), r, now);
        assert(reservations.push(r).drop_first() =~= reservations.drop_first().push(r));
    } else {
        assert(reservations.push(r).drop_first() =~= reservations);
    }
}

impl SchedulerView {
    // Serving a queue behind an ended hold makes it shorter.
    proof fn lemma_wake_at_lingers_less(self, at: int, now: Instant)
        requires
            0 <= at < self.reservations.len(),
            model::lingers(self.reservations[at], now),
        ensures
            model::lingering(self.wake_at(at, now).reservations, now) < model::lingering(
                self.reservations,
                now,
            ),
    {
        let r = self.reservations[at];
        let queue = model::live_queue(r.queue, self.jobs, self.lanes);
        super::soundness_grant::lemma_live_queue_is_suffix(r.queue, self.jobs, self.lanes);
        if queue.len() == 0 {
            lemma_lingering_remove(self.reservations, at, now);
        } else {
            let shorter = ReservationView { queue: queue.drop_first(), ..r };
            lemma_lingering_update(self.reservations, at, shorter, now);
        }
    }

    /// Every queue that is served on the way makes the search shorter.
    pub proof fn lemma_woken_lingers_no_more(self, now: Instant)
        ensures
            ({
                let (popped, found) = self.pop_candidate(now);
                let left = model::lingering(self.reservations, now);
                &&& popped.reservations == self.reservations
                &&& found is None && popped.first_lingering(now) < popped.reservations.len()
                    ==> model::lingering(
                    popped.wake_at(popped.first_lingering(now) as int, now).reservations,
                    now,
                ) < left
                &&& found matches Some(c) ==> popped.first_overtaken(c, now)
                    < popped.reservations.len() ==> model::lingering(
                    popped.wake_at(
                        popped.first_overtaken(c, now) as int,
                        now,
                    ).push_job_candidate(c.job, now).reservations,
                    now,
                ) < left
                &&& popped.first_lingering(now) <= popped.reservations.len()
                &&& found matches Some(c) ==> popped.first_overtaken(c, now)
                    <= popped.reservations.len()
            }),
    {
        self.lemma_pop_candidate_keeps(now);
        let (popped, found) = self.pop_candidate(now);
        lemma_first_where(
            popped.reservations,
            |r: ReservationView| model::lingers(r, now),
        );
        let at = popped.first_lingering(now) as int;
        if at < popped.reservations.len() {
            popped.lemma_wake_at_lingers_less(at, now);
        }
        if let Some(c) = found {
            let jobs = popped.jobs;
            let job = jobs[c.job.value];
            lemma_first_where(
                popped.reservations,
                |r: ReservationView| model::overtakes(r, jobs, job, now),
            );
            let over = popped.first_overtaken(c, now) as int;
            if over < popped.reservations.len() {
                popped.lemma_wake_at_lingers_less(over, now);
            }
        }
    }

    // A candidate that is not granted leaves nobody new behind an ended hold.
    proof fn lemma_dispose_lingers(self, c: Candidate, now: Instant)
        requires
            self.admission(c, now) !is Pass,
        ensures
            model::lingering(self.dispose(c, now).reservations, now) <= model::lingering(
                self.reservations,
                now,
            ),
    {
        let checked = self.after_admission(c, now);
        assert(checked.reservations == self.reservations);
        match self.admission(c, now) {
            Admission::Blocked { until, reserve } => {
                if let Some(scope) = reserve {
                    let reference = checked.reference_of(c.job);
                    fairness::lemma_find_bounds(self.reservations, scope);
                    let at = model::find(self.reservations, scope) as int;
                    if at >= self.reservations.len() {
                        lemma_lingering_push(
                            self.reservations,
                            ReservationView {
                                window: scope,
                                until,
                                owner: reference,
                                queue: Seq::empty(),
                            },
                            now,
                        );
                    } else if until.nanos > self.reservations[at].until.nanos {
                        lemma_lingering_update(
                            self.reservations,
                            at,
                            ReservationView {
                                until,
                                owner: reference,
                                ..self.reservations[at]
                            },
                            now,
                        );
                    }
                }
            },
            Admission::Reserved => {
                let scope = checked.parking_window(c.scope, now);
                let at = model::find(self.reservations, scope) as int;
                let r = self.reservations[at];
                let reference = checked.reference_of(c.job);
                let place = model::parking_place(r.queue, checked.jobs, reference);
                lemma_lingering_update(
                    self.reservations,
                    at,
                    ReservationView { queue: r.queue.insert(place as int, reference), ..r },
                    now,
                );
            },
            Admission::Pass => {},
        }
    }

    pub proof fn lemma_wake_at_waits(self, at: int, now: Instant)
        ensures
            self.waits_on(self.wake_at(at, now), now),
    {
        let r = self.reservations[at];
        let queue = model::live_queue(r.queue, self.jobs, self.lanes);
        if queue.len() > 0 {
            let rest = SchedulerView {
                reservations: self.reservations.update(
                    at,
                    ReservationView { queue: queue.drop_first(), ..r },
                ),
                ..self
            };
            assert(self.waits_on(rest, now));
            rest.lemma_push_waits(queue[0], now, now);
            self.lemma_waits_on_trans(rest, self.wake_at(at, now), now);
        }
    }

    pub proof fn lemma_wake_next_waits(self, scope: OutboundScope, now: Instant)
        ensures
            self.waits_on(self.wake_next(scope, now), now),
    {
        self.lemma_wake_at_waits(model::find(self.reservations, scope) as int, now);
        assert(self.waits_on(self, now));
    }

    /// After a grant, waking whoever is next changes no request.
    pub proof fn lemma_settle_waits(self, c: Candidate, now: Instant)
        ensures
            self.dispose(c, now).waits_on(self.settle(c, now), now),
            self.admission(c, now) !is Pass ==> self.settle(c, now) == self.dispose(c, now),
    {
        let after = self.dispose(c, now);
        assert(after.waits_on(after, now));
        after.lemma_wake_next_waits(OutboundScope::Global, now);
        let global = after.wake_next(OutboundScope::Global, now);
        global.lemma_wake_next_waits(c.scope, now);
        after.lemma_waits_on_trans(global, global.wake_next(c.scope, now), now);
    }

    /// Picking is a pop, or something was served on the way; it changes no
    /// request.
    pub proof fn lemma_pick_waits(self, now: Instant)
        ensures
            self.waits_on(self.pick(now).0, now),
            self.pick(now) == self.pop_candidate(now) || model::lingering(
                self.pick(now).0.reservations,
                now,
            ) < model::lingering(self.reservations, now),
        decreases model::lingering(self.reservations, now),
    {
        self.lemma_woken_lingers_no_more(now);
        self.lemma_pop_candidate_waits(now);
        let (popped, found) = self.pop_candidate(now);
        match found {
            None => {
                let at = popped.first_lingering(now);
                if at < popped.reservations.len() {
                    let woken = popped.wake_at(at as int, now);
                    popped.lemma_wake_at_waits(at as int, now);
                    woken.lemma_pick_waits(now);
                    self.lemma_waits_on_trans(popped, woken, now);
                    self.lemma_waits_on_trans(woken, self.pick(now).0, now);
                    woken.lemma_pop_candidate_keeps(now);
                }
            },
            Some(c) => {
                let at = popped.first_overtaken(c, now);
                if at < popped.reservations.len() {
                    let woken = popped.wake_at(at as int, now);
                    let back = woken.push_job_candidate(c.job, now);
                    popped.lemma_wake_at_waits(at as int, now);
                    woken.lemma_push_waits(CandidateRef::Job(c.job), now, now);
                    back.lemma_pick_waits(now);
                    self.lemma_waits_on_trans(popped, woken, now);
                    self.lemma_waits_on_trans(woken, back, now);
                    self.lemma_waits_on_trans(back, self.pick(now).0, now);
                    back.lemma_pop_candidate_keeps(now);
                }
            },
        }
    }

    /// A picked candidate carries the weight and the scope of its job.
    pub proof fn lemma_picked_describes(self, now: Instant)
        ensures
            self.pick(now).1 matches Some(c) ==> {
                let after = self.pick(now).0;
                &&& after.jobs.contains_key(c.job.value)
                &&& after.jobs[c.job.value].meta.weight == c.weight
                &&& after.jobs[c.job.value].meta.scope == c.scope
            },
        decreases model::lingering(self.reservations, now),
    {
        self.lemma_woken_lingers_no_more(now);
        self.lemma_pop_candidate_describes(now);
        let (popped, found) = self.pop_candidate(now);
        match found {
            None => {
                let at = popped.first_lingering(now);
                if at < popped.reservations.len() {
                    popped.wake_at(at as int, now).lemma_picked_describes(now);
                }
            },
            Some(c) => {
                let at = popped.first_overtaken(c, now);
                if at < popped.reservations.len() {
                    popped.wake_at(at as int, now).push_job_candidate(
                        c.job,
                        now,
                    ).lemma_picked_describes(now);
                }
            },
        }
    }

    /// Picking and dealing with a candidate leaves less to do.
    pub proof fn lemma_settle_decreases(self, now: Instant)
        requires
            self.jobs.dom().finite(),
            self.pick(now).1 is Some,
        ensures
            ({
                let popped = self.pick(now).0;
                let after = popped.settle(self.pick(now).1->0, now);
                let before = model::lingering(self.reservations, now);
                let left = model::lingering(after.reservations, now);
                &&& after.jobs.dom().finite()
                &&& after.jobs.dom().len() <= self.jobs.dom().len()
                &&& {
                    ||| after.jobs.dom().len() < self.jobs.dom().len()
                    ||| left < before
                    ||| left == before && after.disorder(now) < self.disorder(now)
                    ||| left == before && after.disorder(now) == self.disorder(now)
                        && after.candidates.len() < self.candidates.len()
                }
            }),
    {
        let (popped, found) = self.pick(now);
        let c = found->0;
        self.lemma_pick_waits(now);
        self.lemma_picked_describes(now);
        popped.lemma_settle_waits(c, now);
        popped.lemma_dispose_frame(c, now);
        let after = popped.settle(c, now);
        let done = popped.dispose(c, now);
        assert(after.jobs.dom() == done.jobs.dom());
        if popped.admission(c, now) is Pass {
            assert(done.jobs.dom() =~= popped.jobs.dom().remove(c.job.value));
            assert(popped.jobs.dom().contains(c.job.value));
        } else {
            assert(done.jobs.dom() =~= popped.jobs.dom());
            popped.lemma_dispose_lingers(c, now);
            if self.pick(now) == self.pop_candidate(now) {
                self.lemma_pop_candidate_keeps(now);
                self.lemma_dispose_decreases(now);
            }
        }
    }
}

} // verus!
