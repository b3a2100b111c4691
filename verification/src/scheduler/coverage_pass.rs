//! A grant pass forgets no waiting job.

use super::entries::{
    Admission, AgingEvent, BlockedJob, Candidate, CandidateKey, CandidateRef, DelayedJob, Job,
};
use super::lane::LaneView;
use super::model::{PopStep, ReservationView, SchedulerView};
use super::{coverage, entries, lane, model, picking, soundness_grant};
use crate::heap;
use crate::time::Instant;
use crate::types::{JobId, OutboundLaneKey, OutboundScope};
use vstd::prelude::*;

verus! {

broadcast use vstd::multiset::group_multiset_axioms;

impl SchedulerView {
    // A state that differs in nothing the coverage speaks of is covered too.
    pub proof fn lemma_covered_same(self, after: SchedulerView, excused: Set<CandidateRef>)
        requires
            self.kept_but(excused),
            after.jobs == self.jobs,
            after.lanes == self.lanes,
            after.candidates == self.candidates,
            after.blocked == self.blocked,
            after.reservations == self.reservations,
        ensures
            after.kept_but(excused),
    {
        assert forall|key: u64| #[trigger] after.lanes.contains_key(key) implies self.same_head(
            after,
            key,
        ) by {
            self.lemma_same_head(after, key);
        }
        self.lemma_kept_frame(after, excused);
    }

    // An excuse that nobody needs can be dropped.
    pub proof fn lemma_excuse_not_needed(
        self,
        reference: CandidateRef,
        excused: Set<CandidateRef>,
    )
        requires
            self.kept_but(excused),
            reference matches CandidateRef::Job(id) ==> !self.jobs.contains_key(id.value)
                || self.job_kept(id.value),
            reference matches CandidateRef::Lane(key) ==> !self.lanes.contains_key(key.value)
                || self.lane_kept(key.value),
        ensures
            self.kept_but(excused.remove(reference)),
    {
        let fewer = excused.remove(reference);
        assert forall|k: u64| #[trigger] self.jobs.contains_key(k) && !fewer.contains(
            coverage::job_ref(k),
        ) implies self.job_kept(k) by {
            if excused.contains(coverage::job_ref(k)) {
                assert(reference == coverage::job_ref(k));
            }
        }
        assert forall|k: u64| #[trigger] self.lanes.contains_key(k) && !fewer.contains(
            coverage::lane_ref(k),
        ) implies self.lane_kept(k) by {
            if excused.contains(coverage::lane_ref(k)) {
                assert(reference == coverage::lane_ref(k));
            }
        }
    }

    // ---------- wake-ups ----------

    proof fn lemma_aging_step_covered(self, reference: CandidateRef, now: Instant)
        requires
            self.covered(),
        ensures
            self.aging_step(reference, now).covered(),
    {
        let after = self.aging_step(reference, now);
        let none = Set::<CandidateRef>::empty();
        let one = none.insert(reference);
        self.lemma_kept_weaken(none, one);
        match reference {
            CandidateRef::Job(id) => {
                assert(coverage::job_ref(id.value) == reference);
                if self.jobs.contains_key(id.value) && self.jobs[id.value].in_candidate_heap {
                    let job = self.jobs[id.value];
                    let level = entries::effective(job, self.aging, now);
                    if level > job.candidate_effective {
                        assert(after.jobs.dom() =~= self.jobs.dom());
                        assert forall|key: u64| #[trigger]
                            after.lanes.contains_key(key) implies self.same_head(after, key) by {
                            self.lemma_same_head(after, key);
                        }
                        self.lemma_kept_frame(after, one);
                        assert(after.candidates.contains(after.key_of(id.value)));
                        after.lemma_excuse_not_needed(reference, one);
                        assert(one.remove(reference) =~= none);
                    }
                }
            },
            CandidateRef::Lane(key) => {
                assert(coverage::lane_ref(key.value) == reference);
                if after != self {
                    let l = self.lanes[key.value];
                    let job = self.jobs[l.pending[0].1.value];
                    let level = entries::effective(job, self.aging, now);
                    if level <= l.candidate_effective {
                        self.lemma_covered_same(after, none);
                    } else {
                        let entry = CandidateKey {
                            effective: level,
                            sequence: job.sequence,
                            reference,
                        };
                        assert(after.candidates.contains(entry));
                        assert forall|k: u64| #[trigger]
                            after.lanes.contains_key(k) implies after.lane_marked(k) by {
                            assert(self.lane_marked(k));
                            if k != key.value && self.lanes[k].in_candidate_heap {
                                let e = choose|e: CandidateKey| #[trigger]
                                    self.candidates.contains(e) && e.reference
                                        == coverage::lane_ref(k) && e.effective
                                        >= self.lanes[k].candidate_effective;
                                assert(after.candidates.contains(e));
                            }
                        }
                        assert forall|k: u64| #[trigger]
                            after.lanes.contains_key(k) implies after.lane_kept(k) by {
                            self.lemma_same_head(after, k);
                            assert(self.lane_kept(k));
                        }
                        assert forall|k: u64| #[trigger]
                            after.jobs.contains_key(k) implies after.job_kept(k) by {
                            assert(self.job_kept(k));
                            assert(after.key_of(k) == self.key_of(k));
                        }
                    }
                }
            },
        }
    }

    proof fn lemma_aging_steps_covered(self, due: Seq<AgingEvent>, now: Instant)
        requires
            self.covered(),
        ensures
            self.aging_steps(due, now).covered(),
        decreases due.len(),
    {
        if due.len() > 0 {
            self.lemma_aging_steps_covered(due.drop_last(), now);
            self.aging_steps(due.drop_last(), now).lemma_aging_step_covered(
                due.last().reference,
                now,
            );
        }
    }

    proof fn lemma_delayed_step_covered(self, entry: DelayedJob, now: Instant)
        requires
            self.inv(),
            self.covered(),
        ensures
            self.delayed_step(entry, now).covered(),
    {
        let none = Set::<CandidateRef>::empty();
        let id = entry.job.value;
        if !self.jobs.contains_key(id) {
            self.lemma_covered_same(self.delayed_step(entry, now), none);
        } else {
            let job = self.jobs[id];
            let ready = SchedulerView {
                jobs: self.jobs.insert(id, Job { ready_at: now, not_before: None, ..job }),
                ..self
            };
            let own = coverage::job_ref(id);
            assert(own == CandidateRef::Job(entry.job));
            let excused = match job.meta.lane {
                Some(key) => none.insert(own).insert(CandidateRef::Lane(key)),
                None => none.insert(own),
            };
            self.lemma_kept_weaken(none, excused);
            assert(ready.jobs.dom() =~= self.jobs.dom());
            assert forall|key: u64| #[trigger] ready.lanes.contains_key(key) && !excused.contains(
                coverage::lane_ref(key),
            ) implies self.same_head(ready, key) by {
                self.lemma_same_head(ready, key);
                self.lemma_head_waits(key);
            }
            self.lemma_kept_frame(ready, excused);
            match job.meta.lane {
                Some(key) => {
                    ready.lemma_push_lane_kept(key, now, excused);
                    let after = ready.push_lane_head_candidate(key, now);
                    let left = excused.remove(CandidateRef::Lane(key));
                    assert(after.job_kept(id));
                    after.lemma_excuse_not_needed(own, left);
                    assert(left.remove(own) =~= none);
                },
                None => {
                    ready.lemma_push_job_kept(entry.job, now, excused);
                    assert(excused.remove(own) =~= none);
                },
            }
        }
    }

    proof fn lemma_promote_delayed_covered(self, now: Instant)
        requires
            self.inv(),
            self.covered(),
        ensures
            self.promote_delayed(now).covered(),
        decreases self.delayed.len(),
    {
        if self.delayed.len() > 0 && heap::first_of(self.delayed).not_before.nanos <= now.nanos {
            heap::lemma_first_exists(self.delayed);
            let entry = heap::first_of(self.delayed);
            let rest = SchedulerView { delayed: self.delayed.remove(entry), ..self };
            model::lemma_remove_shrinks(self.delayed, entry);
            rest.lemma_steps_keep_queues(entry, now);
            self.lemma_delayed_step_inv(entry, now);
            self.lemma_covered_same(rest, Set::empty());
            self.lemma_delayed_step_covered(entry, now);
            let moved = self.delayed_step(entry, now);
            let mid = rest.delayed_step(entry, now);
            moved.lemma_covered_same(mid, Set::empty());
            mid.lemma_promote_delayed_covered(now);
        }
    }

    // Losing a blocked entry costs its reference only.
    pub proof fn lemma_unblock(self, entry: BlockedJob)
        requires
            self.covered(),
            self.blocked.contains(entry),
        ensures
            (SchedulerView { blocked: self.blocked.remove(entry), ..self }).kept_but(
                Set::empty().insert(entry.reference),
            ),
    {
        let none = Set::<CandidateRef>::empty();
        let one = none.insert(entry.reference);
        let rest = SchedulerView { blocked: self.blocked.remove(entry), ..self };
        self.lemma_kept_weaken(none, one);
        assert forall|key: u64| #[trigger] rest.lanes.contains_key(key) implies self.same_head(
            rest,
            key,
        ) by {
            self.lemma_same_head(rest, key);
        }
        assert forall|r: CandidateRef| #[trigger] self.sleeps(r) && !one.contains(
            r,
        ) implies rest.sleeps(r) by {
            if coverage::blocked_in(self.blocked, r) {
                let e = choose|e: BlockedJob| #[trigger]
                    self.blocked.contains(e) && e.reference == r;
                assert(rest.blocked.contains(e));
            }
        }
        self.lemma_kept_frame(rest, one);
    }

    pub proof fn lemma_wake_blocked_covered(self, bound: Instant, now: Instant)
        requires
            self.covered(),
        ensures
            self.wake_blocked(bound, now).covered(),
        decreases self.blocked.len(),
    {
        if self.blocked.len() > 0 && heap::first_of(self.blocked).until.nanos <= bound.nanos {
            heap::lemma_first_exists(self.blocked);
            let entry = heap::first_of(self.blocked);
            let none = Set::<CandidateRef>::empty();
            let one = none.insert(entry.reference);
            let rest = SchedulerView { blocked: self.blocked.remove(entry), ..self };
            model::lemma_remove_shrinks(self.blocked, entry);
            rest.lemma_blocked_step_keeps_queues(entry.reference, now);
            self.lemma_unblock(entry);
            assert(one.remove(entry.reference) =~= none);
            let mid = rest.blocked_step(entry.reference, now);
            rest.lemma_push_kept(entry.reference, now, one);
            if let CandidateRef::Job(id) = entry.reference {
                if !(rest.jobs.contains_key(id.value) && rest.jobs[id.value].not_before is None) {
                    rest.lemma_excuse_not_needed(entry.reference, one);
                }
            }
            mid.lemma_wake_blocked_covered(bound, now);
        }
    }

    // A reference that is not alive is not waited for.
    pub proof fn lemma_dead_is_not_waited_for(
        self,
        reference: CandidateRef,
        base: Set<CandidateRef>,
    )
        requires
            self.inv(),
            self.kept_but(base),
            !base.contains(reference),
            !model::reference_alive(reference, self.jobs, self.lanes),
        ensures
            reference matches CandidateRef::Job(id) ==> !self.jobs.contains_key(id.value),
            reference matches CandidateRef::Lane(key) ==> self.lanes.contains_key(key.value)
                ==> self.lane_kept(key.value) && self.head(key.value) is None,
    {
        if let CandidateRef::Lane(key) = reference {
            if self.lanes.contains_key(key.value) {
                assert(coverage::lane_ref(key.value) == reference);
                self.lemma_head_waits(key.value);
                assert(self.lane_kept(key.value));
            }
        }
    }

    pub proof fn lemma_wake_at_kept(self, at: int, now: Instant, base: Set<CandidateRef>)
        requires
            self.inv(),
            self.kept_but(base),
            0 <= at < self.reservations.len(),
        ensures
            self.wake_at(at, now).kept_but(base),
    {
        let r = self.reservations[at];
        let queue = model::live_queue(r.queue, self.jobs, self.lanes);
        lemma_live_queue_drops_dead(r.queue, self.jobs, self.lanes);
        let dead = Set::new(
            |x: CandidateRef| !model::reference_alive(x, self.jobs, self.lanes),
        );
        let left = if queue.len() == 0 {
            base
        } else {
            base.insert(queue[0])
        };
        let excused = left.union(dead);
        let rest = if queue.len() == 0 {
            SchedulerView { reservations: self.reservations.remove(at), ..self }
        } else {
            SchedulerView {
                reservations: self.reservations.update(
                    at,
                    ReservationView { queue: queue.drop_first(), ..r },
                ),
                ..self
            }
        };
        self.lemma_kept_weaken(base, excused);
        assert forall|key: u64| #[trigger] rest.lanes.contains_key(key) implies self.same_head(
            rest,
            key,
        ) by {
            self.lemma_same_head(rest, key);
        }
        assert forall|x: CandidateRef| #[trigger] self.sleeps(x) && !excused.contains(
            x,
        ) implies rest.sleeps(x) by {
            if coverage::parked_in(self.reservations, x) {
                let i = choose|i: int|
                    0 <= i < self.reservations.len() && (
                    #[trigger] self.reservations[i]).queue.contains(x);
                if i == at {
                    assert(queue.contains(x));
                    let j = choose|j: int| 0 <= j < queue.len() && queue[j] == x;
                    assert(queue.drop_first()[j - 1] == x);
                    assert(rest.reservations[at].queue.contains(x));
                } else if queue.len() == 0 {
                    if i < at {
                        assert(rest.reservations[i] == self.reservations[i]);
                    } else {
                        assert(rest.reservations[i - 1] == self.reservations[i]);
                    }
                } else {
                    assert(rest.reservations[i] == self.reservations[i]);
                }
            }
        }
        self.lemma_kept_frame(rest, excused);
        assert(rest.kept_but(left)) by {
            assert forall|k: u64| #[trigger] rest.jobs.contains_key(k) && !left.contains(
                coverage::job_ref(k),
            ) implies rest.job_kept(k) by {
                if excused.contains(coverage::job_ref(k)) {
                    assert(dead.contains(coverage::job_ref(k)));
                    self.lemma_dead_is_not_waited_for(coverage::job_ref(k), base);
                }
            }
            assert forall|k: u64| #[trigger] rest.lanes.contains_key(k) && !left.contains(
                coverage::lane_ref(k),
            ) implies rest.lane_kept(k) by {
                if excused.contains(coverage::lane_ref(k)) {
                    assert(dead.contains(coverage::lane_ref(k)));
                    self.lemma_dead_is_not_waited_for(coverage::lane_ref(k), base);
                    assert(self.same_head(rest, k));
                }
            }
        }
        if queue.len() > 0 {
            rest.lemma_push_kept(queue[0], now, left);
            self.wake_at(at, now).lemma_kept_weaken(left.remove(queue[0]), base);
        }
    }

    proof fn lemma_reservation_step_covered(self, scope: OutboundScope, now: Instant)
        requires
            self.inv(),
            self.covered(),
        ensures
            self.reservation_step(scope, now).covered(),
    {
        let at = model::find(self.reservations, scope);
        if at < self.reservations.len() {
            self.lemma_wake_at_kept(at as int, now, Set::empty());
        }
    }

    proof fn lemma_reservation_steps_covered(self, windows: Seq<OutboundScope>, now: Instant)
        requires
            self.inv(),
            self.covered(),
        ensures
            self.reservation_steps(windows, now).covered(),
        decreases windows.len(),
    {
        if windows.len() > 0 {
            self.lemma_reservation_steps_inv(windows.drop_last(), now);
            self.lemma_reservation_steps_covered(windows.drop_last(), now);
            self.reservation_steps(windows.drop_last(), now).lemma_reservation_step_covered(
                windows.last(),
                now,
            );
        }
    }

    proof fn lemma_compact_lanes_covered(self)
        requires
            self.inv(),
            self.covered(),
        ensures
            self.compact_lanes().covered(),
    {
        let after = self.compact_lanes();
        let none = Set::<CandidateRef>::empty();
        assert forall|key: u64| #[trigger] after.lanes.contains_key(key) implies self.same_head(
            after,
            key,
        ) by {
            assert(self.lanes.contains_key(key));
            assert(self.lane_ok(key));
            lemma_first_of_kept(self.lanes[key].pending, self.jobs);
        }
        self.lemma_kept_frame(after, none);
    }

    pub proof fn lemma_promote_covered(self, now: Instant)
        requires
            self.inv(),
            self.covered(),
        ensures
            self.promote(now).covered(),
    {
        let start = SchedulerView {
            aging_events: model::later_events(self.aging_events, now),
            ..self
        };
        self.lemma_covered_same(start, Set::empty());
        start.lemma_aging_steps_covered(model::due_events(self.aging_events, now), now);
        self.lemma_promote_aging_inv(now);
        let a = self.promote_aging(now);
        a.lemma_promote_delayed_covered(now);
        a.lemma_promote_delayed_inv(now);
        let b = a.promote_delayed(now);
        b.lemma_wake_blocked_covered(now, now);
        b.lemma_wake_blocked_inv(now, now);
        let c = b.wake_blocked(now, now);
        c.lemma_reservation_steps_covered(model::expired_windows(c.reservations, now), now);
        c.lemma_reservation_steps_inv(model::expired_windows(c.reservations, now), now);
        c.promote_reservations(now).lemma_compact_lanes_covered();
    }
}

impl SchedulerView {
    // ---------- picking a candidate ----------

    pub proof fn lemma_pop_step_covered(self, now: Instant)
        requires
            self.inv(),
            self.covered(),
        ensures
            match self.pop_step(now).1 {
                PopStep::Found(c) => {
                    let after = self.pop_step(now).0;
                    &&& after.kept_but(Set::empty().insert(after.reference_of(c.job)))
                    &&& after.jobs[c.job.value].meta.lane matches Some(key)
                        ==> !after.lanes[key.value].in_candidate_heap
                },
                _ => self.pop_step(now).0.covered(),
            },
            self.pop_step(now).1 is Empty ==> self.pop_step(now).0.candidates.len() == 0,
    {
        if self.candidates.len() > 0 {
            heap::lemma_first_exists(self.candidates);
            let key = heap::first_of(self.candidates);
            let none = Set::<CandidateRef>::empty();
            let one = none.insert(key.reference);
            let rest = SchedulerView { candidates: self.candidates.remove(key), ..self };
            let (after, step) = self.pop_step(now);
            self.lemma_kept_weaken(none, one);
            match key.reference {
                CandidateRef::Job(id) => {
                    assert(coverage::job_ref(id.value) == key.reference);
                    assert(self.ref_ok(key.reference));
                    assert(after.jobs.dom() =~= self.jobs.dom());
                    assert forall|k: u64| #[trigger] after.lanes.contains_key(
                        k,
                    ) implies self.same_head(after, k) by {
                        self.lemma_same_head(after, k);
                    }
                    if step is Found {
                        self.lemma_kept_frame(after, one);
                        assert(after.reference_of(id) == key.reference);
                    } else {
                        self.lemma_kept_frame(after, none);
                    }
                },
                CandidateRef::Lane(lane_key) => {
                    assert(coverage::lane_ref(lane_key.value) == key.reference);
                    self.lemma_pop_lane_covered(key, lane_key, now);
                },
            }
        }
    }

    proof fn lemma_pop_lane_covered(
        self,
        key: CandidateKey,
        lane_key: OutboundLaneKey,
        now: Instant,
    )
        requires
            self.inv(),
            self.covered(),
            self.candidates.contains(key),
            key.reference == CandidateRef::Lane(lane_key),
        ensures
            ({
                let rest = SchedulerView { candidates: self.candidates.remove(key), ..self };
                let (after, step) = rest.pop_lane(key, lane_key, now);
                match step {
                    PopStep::Found(c) => {
                        &&& after.kept_but(Set::empty().insert(after.reference_of(c.job)))
                        &&& after.jobs[c.job.value].meta.lane matches Some(k)
                            ==> !after.lanes[k.value].in_candidate_heap
                    },
                    _ => after.covered(),
                }
            }),
    {
        let rest = SchedulerView { candidates: self.candidates.remove(key), ..self };
        let (after, step) = rest.pop_lane(key, lane_key, now);
        let none = Set::<CandidateRef>::empty();
        let one = none.insert(key.reference);
        let k0 = lane_key.value;
        assert(coverage::lane_ref(k0) == key.reference);
        self.lemma_kept_weaken(none, one);
        assert(one.remove(key.reference) =~= none);
        if !self.lanes.contains_key(k0) || key.effective < self.lanes[k0].candidate_effective {
            assert forall|k: u64| #[trigger] after.lanes.contains_key(k) implies self.same_head(
                after,
                k,
            ) by {
                self.lemma_same_head(after, k);
            }
            self.lemma_kept_frame(after, none);
        } else {
            let held = self.lanes[k0];
            let taken = LaneView { in_candidate_heap: false, ..held };
            let kept = if held.in_flight is Some {
                taken
            } else {
                taken.drained(self.jobs)
            };
            let thinner = SchedulerView { lanes: rest.lanes.insert(k0, kept), ..rest };
            lane::lemma_drop_dead_is_idempotent(held.pending, self.jobs);
            assert forall|k: u64| #[trigger] thinner.lanes.contains_key(k) && !one.contains(
                coverage::lane_ref(k),
            ) implies self.same_head(thinner, k) by {
                assert(k != k0);
                self.lemma_same_head(thinner, k);
            }
            self.lemma_kept_frame(thinner, one);
            self.lemma_head_waits(k0);
            if held.in_flight is Some {
                assert(after == thinner);
                after.lemma_excuse_not_needed(key.reference, one);
            } else if kept.pending.len() == 0 {
                assert forall|k: u64| #[trigger] after.lanes.contains_key(k) implies k != k0
                    && thinner.same_head(after, k) by {
                    thinner.lemma_same_head(after, k);
                }
                thinner.lemma_kept_frame(after, one);
                after.lemma_excuse_not_needed(key.reference, one);
            } else {
                let head = kept.pending[0].1;
                let job = self.jobs[head.value];
                assert(self.head(k0) == Some(head.value));
                self.lemma_same_head(thinner, k0);
                if entries::delayed_at(job, now) {
                    assert(after == thinner);
                    assert(after.lane_kept(k0));
                    after.lemma_excuse_not_needed(key.reference, one);
                } else if step is Again {
                    thinner.lemma_push_lane_kept(lane_key, now, one);
                } else {
                    assert(after == thinner);
                    assert(after.reference_of(head) == key.reference);
                }
            }
        }
    }

    pub proof fn lemma_pop_candidate_covered(self, now: Instant)
        requires
            self.inv(),
            self.covered(),
        ensures
            match self.pop_candidate(now).1 {
                Some(c) => {
                    let after = self.pop_candidate(now).0;
                    &&& after.kept_but(Set::empty().insert(after.reference_of(c.job)))
                    &&& after.jobs[c.job.value].meta.lane matches Some(key)
                        ==> !after.lanes[key.value].in_candidate_heap
                },
                None => self.pop_candidate(now).0.covered() && self.pop_candidate(
                    now,
                ).0.candidates.len() == 0,
            },
        decreases self.disorder(now), self.candidates.len(),
    {
        self.lemma_pop_step_decreases(now);
        self.lemma_pop_step_inv(now);
        self.lemma_pop_step_covered(now);
        let (after, step) = self.pop_step(now);
        if step is Again {
            after.lemma_pop_candidate_covered(now);
        }
    }

    // ---------- granting ----------

    // Holds that keep their queues keep what is parked in them.
    pub proof fn lemma_same_queues(self, after: SchedulerView, excused: Set<CandidateRef>)
        requires
            self.kept_but(excused),
            after.jobs == self.jobs,
            after.lanes == self.lanes,
            after.candidates == self.candidates,
            after.blocked == self.blocked,
            after.reservations.len() >= self.reservations.len(),
            forall|i: int|
                0 <= i < self.reservations.len() ==> (#[trigger] after.reservations[i]).queue
                    == self.reservations[i].queue,
        ensures
            after.kept_but(excused),
    {
        assert forall|key: u64| #[trigger] after.lanes.contains_key(key) implies self.same_head(
            after,
            key,
        ) by {
            self.lemma_same_head(after, key);
        }
        assert forall|r: CandidateRef| #[trigger] self.sleeps(r) && !excused.contains(
            r,
        ) implies after.sleeps(r) by {
            if coverage::parked_in(self.reservations, r) {
                let i = choose|i: int|
                    0 <= i < self.reservations.len() && (
                    #[trigger] self.reservations[i]).queue.contains(r);
                assert(after.reservations[i].queue.contains(r));
            }
        }
        self.lemma_kept_frame(after, excused);
    }

    // A waiting job of a lane shows in the lane.
    pub proof fn lemma_member_shows(self, id: u64)
        requires
            self.inv(),
            self.jobs.contains_key(id),
        ensures
            self.jobs[id].meta.lane matches Some(key) ==> self.lanes.contains_key(key.value)
                && self.head(key.value) is Some,
    {
        if let Some(key) = self.jobs[id].meta.lane {
            assert(self.member_ok(id));
            let held = self.lanes[key.value].pending;
            let entry = (self.jobs[id].lane_order->0, JobId { value: id });
            let i = choose|i: int| 0 <= i < held.len() && held[i] == entry;
            assert(self.jobs.contains_key(held[i].1.value));
            self.lemma_head_waits(key.value);
        }
    }

    // What sleeps needs no excuse.
    proof fn lemma_asleep_is_kept(self, reference: CandidateRef, excused: Set<CandidateRef>)
        requires
            self.inv(),
            self.kept_but(excused),
            self.sleeps(reference),
            reference matches CandidateRef::Job(id) ==> self.jobs.contains_key(id.value)
                && !self.jobs[id.value].in_candidate_heap,
            reference matches CandidateRef::Lane(key) ==> self.lanes.contains_key(key.value)
                && self.head(key.value) is Some,
        ensures
            self.kept_but(excused.remove(reference)),
    {
        match reference {
            CandidateRef::Job(id) => {
                assert(coverage::job_ref(id.value) == reference);
                assert(self.job_kept(id.value));
            },
            CandidateRef::Lane(key) => {
                assert(coverage::lane_ref(key.value) == reference);
                assert(self.lane_kept(key.value));
            },
        }
        self.lemma_excuse_not_needed(reference, excused);
    }

    proof fn lemma_grant_covered(self, c: Candidate, now: Instant)
        requires
            self.inv(),
            self.grantable(c, now),
            self.kept_but(Set::empty().insert(self.reference_of(c.job))),
            self.jobs[c.job.value].meta.lane matches Some(key)
                ==> !self.lanes[key.value].in_candidate_heap,
        ensures
            self.grant(c, now).covered(),
    {
        let after = self.grant(c, now);
        let none = Set::<CandidateRef>::empty();
        let own = self.reference_of(c.job);
        let one = none.insert(own);
        let id = c.job.value;
        let job = self.jobs[id];
        assert(after.jobs == self.jobs.remove(id));
        assert forall|k: u64| #[trigger] after.jobs.contains_key(k) && !one.contains(
            coverage::job_ref(k),
        ) implies self.jobs.contains_key(k) && self.same_marks(after, k) by {}
        assert forall|k: u64| #[trigger] after.lanes.contains_key(k) && !one.contains(
            coverage::lane_ref(k),
        ) implies self.same_head(after, k) by {
            assert(self.lanes.contains_key(k));
            if let Some(key) = job.meta.lane {
                assert(coverage::lane_ref(key.value) == own);
                assert(k != key.value);
            }
            assert(self.lane_ok(k));
            let held = self.lanes[k].pending;
            assert(self.same_alive(after, held)) by {
                assert forall|i: int| 0 <= i < held.len() implies (self.jobs.contains_key(
                    (#[trigger] held[i]).1.value,
                ) <==> after.jobs.contains_key(held[i].1.value)) by {
                    if held[i].1.value == id {
                        assert(self.jobs[id].meta.lane == Some(OutboundLaneKey { value: k }));
                    }
                }
            }
            self.lemma_head_stays(after, k);
            self.lemma_head_waits(k);
            if let Some(h) = self.head(k) {
                assert(h != id);
            }
        }
        assert forall|k: u64| #[trigger] after.lanes.contains_key(k) implies self.mark_stays(
            after,
            k,
        ) by {
            assert(self.lanes.contains_key(k));
        }
        self.lemma_kept_frame(after, one);
        after.lemma_excuse_not_needed(own, one);
        assert(one.remove(own) =~= none);
    }

    proof fn lemma_rearm_covered(self, scope: OutboundScope, now: Instant)
        requires
            self.covered(),
        ensures
            self.rearm_window(scope, now).covered(),
    {
        self.lemma_same_queues(self.rearm_window(scope, now), Set::empty());
    }

    proof fn lemma_block_covered(
        self,
        c: Candidate,
        until: Instant,
        reserve: Option<OutboundScope>,
    )
        requires
            self.inv(),
            self.jobs.contains_key(c.job.value),
            self.kept_but(Set::empty().insert(self.reference_of(c.job))),
            self.jobs[c.job.value].meta.lane is None
                ==> !self.jobs[c.job.value].in_candidate_heap,
            self.block(c, until, reserve).inv(),
        ensures
            self.block(c, until, reserve).covered(),
    {
        let own = self.reference_of(c.job);
        let none = Set::<CandidateRef>::empty();
        let one = none.insert(own);
        let held = match reserve {
            Some(scope) => self.hold(scope, until, own),
            None => self,
        };
        self.lemma_same_queues(held, one);
        let after = self.block(c, until, reserve);
        let entry = BlockedJob { until, reference: own };
        assert(after.blocked.contains(entry));
        assert forall|key: u64| #[trigger] after.lanes.contains_key(key) implies held.same_head(
            after,
            key,
        ) by {
            held.lemma_same_head(after, key);
        }
        assert forall|r: CandidateRef| #[trigger] held.sleeps(r) && !one.contains(
            r,
        ) implies after.sleeps(r) by {
            if coverage::blocked_in(held.blocked, r) {
                let e = choose|e: BlockedJob| #[trigger]
                    held.blocked.contains(e) && e.reference == r;
                assert(after.blocked.contains(e));
            }
        }
        held.lemma_kept_frame(after, one);
        after.lemma_member_shows(c.job.value);
        assert(after.sleeps(own));
        after.lemma_asleep_is_kept(own, one);
        assert(one.remove(own) =~= none);
    }

    proof fn lemma_park_covered(self, c: Candidate, now: Instant)
        requires
            self.inv(),
            self.jobs.contains_key(c.job.value),
            self.kept_but(Set::empty().insert(self.reference_of(c.job))),
            self.jobs[c.job.value].meta.lane is None
                ==> !self.jobs[c.job.value].in_candidate_heap,
            self.held_back(c.scope, now),
            self.park(c, now).inv(),
        ensures
            self.park(c, now).covered(),
    {
        let own = self.reference_of(c.job);
        let none = Set::<CandidateRef>::empty();
        let one = none.insert(own);
        let after = self.park(c, now);
        let at = model::find(self.reservations, self.parking_window(c.scope, now)) as int;
        assert(0 <= at < self.reservations.len());
        let queue = self.reservations[at].queue;
        let place = model::parking_place(queue, self.jobs, own);
        picking::lemma_parking_place_bounds(queue, self.jobs, own);
        assert forall|key: u64| #[trigger] after.lanes.contains_key(key) implies self.same_head(
            after,
            key,
        ) by {
            self.lemma_same_head(after, key);
        }
        assert forall|r: CandidateRef| #[trigger] self.sleeps(r) && !one.contains(
            r,
        ) implies after.sleeps(r) by {
            if coverage::parked_in(self.reservations, r) {
                let i = choose|i: int|
                    0 <= i < self.reservations.len() && (
                    #[trigger] self.reservations[i]).queue.contains(r);
                if i == at {
                    let j = choose|j: int| 0 <= j < queue.len() && queue[j] == r;
                    if j < place {
                        assert(after.reservations[at].queue[j] == r);
                    } else {
                        assert(after.reservations[at].queue[j + 1] == r);
                    }
                }
                assert(after.reservations[i].queue.contains(r));
            }
        }
        self.lemma_kept_frame(after, one);
        assert(after.reservations[at].queue[place as int] == own);
        assert(after.reservations[at].queue.contains(own));
        after.lemma_member_shows(c.job.value);
        assert(after.sleeps(own));
        after.lemma_asleep_is_kept(own, one);
        assert(one.remove(own) =~= none);
    }

    pub proof fn lemma_dispose_covered(self, c: Candidate, now: Instant)
        requires
            self.inv(),
            self.grantable(c, now),
            c.scope == self.jobs[c.job.value].meta.scope,
            self.kept_but(Set::empty().insert(self.reference_of(c.job))),
            self.jobs[c.job.value].meta.lane matches Some(key)
                ==> !self.lanes[key.value].in_candidate_heap,
            self.jobs[c.job.value].meta.lane is None
                ==> !self.jobs[c.job.value].in_candidate_heap,
        ensures
            self.dispose(c, now).covered(),
    {
        let one = Set::<CandidateRef>::empty().insert(self.reference_of(c.job));
        let checked = self.after_admission(c, now);
        self.lemma_after_admission_inv(c, now);
        self.lemma_covered_same(checked, one);
        self.lemma_dispose_inv(c, now);
        assert(checked.reference_of(c.job) == self.reference_of(c.job));
        match self.admission(c, now) {
            Admission::Pass => {
                checked.lemma_grant_covered(c, now);
                let granted = checked.grant(c, now);
                granted.lemma_rearm_covered(OutboundScope::Global, now);
                granted.rearm_window(OutboundScope::Global, now).lemma_rearm_covered(
                    c.scope,
                    now,
                );
            },
            Admission::Blocked { until, reserve } => {
                checked.lemma_block_covered(c, until, reserve);
            },
            Admission::Reserved => {
                assert(checked.reservations == self.reservations);
                assert(checked.held_back(c.scope, now));
                checked.lemma_park_covered(c, now);
            },
        }
    }

    /// Popping takes the mark off the job it found.
    pub proof fn lemma_popped_is_unmarked(self, now: Instant)
        requires
            self.inv(),
        ensures
            self.pop_candidate(now).1 matches Some(c) ==> {
                let after = self.pop_candidate(now).0;
                after.jobs[c.job.value].meta.lane is None
                    ==> !after.jobs[c.job.value].in_candidate_heap
            },
        decreases self.disorder(now), self.candidates.len(),
    {
        self.lemma_pop_step_decreases(now);
        self.lemma_pop_step_inv(now);
        let (after, step) = self.pop_step(now);
        if step is Again {
            after.lemma_popped_is_unmarked(now);
        } else if let PopStep::Found(c) = step {
            heap::lemma_first_exists(self.candidates);
            let key = heap::first_of(self.candidates);
            if let CandidateRef::Lane(lane_key) = key.reference {
                assert(self.lane_ok(lane_key.value));
                self.lemma_head_waits(lane_key.value);
                assert(self.head(lane_key.value) == Some(c.job.value));
            }
        }
    }

    pub proof fn lemma_pick_covered(self, now: Instant)
        requires
            self.inv(),
            self.covered(),
        ensures
            match self.pick(now).1 {
                Some(c) => {
                    let after = self.pick(now).0;
                    &&& after.kept_but(Set::empty().insert(after.reference_of(c.job)))
                    &&& after.jobs[c.job.value].meta.lane matches Some(key)
                        ==> !after.lanes[key.value].in_candidate_heap
                    &&& after.jobs[c.job.value].meta.lane is None
                        ==> !after.jobs[c.job.value].in_candidate_heap
                },
                None => {
                    &&& self.pick(now).0.covered()
                    &&& self.pick(now).0.candidates.len() == 0
                    &&& self.pick(now).0.first_lingering(now) >= self.pick(now).0.reservations.len()
                },
            },
        decreases model::lingering(self.reservations, now),
    {
        self.lemma_woken_lingers_no_more(now);
        self.lemma_pop_candidate_inv(now);
        self.lemma_pop_candidate_covered(now);
        self.lemma_popped_is_unmarked(now);
        let (popped, found) = self.pop_candidate(now);
        let none = Set::<CandidateRef>::empty();
        match found {
            None => {
                let at = popped.first_lingering(now);
                if at < popped.reservations.len() {
                    popped.lemma_wake_at_inv(at as int, now);
                    popped.lemma_wake_at_kept(at as int, now, none);
                    popped.wake_at(at as int, now).lemma_pick_covered(now);
                }
            },
            Some(c) => {
                let at = popped.first_overtaken(c, now);
                if at < popped.reservations.len() {
                    let own = popped.reference_of(c.job);
                    popped.lemma_overtaking_is_unlaned(c, now);
                    assert(popped.jobs.contains_key(c.job.value));
                    assert(own == CandidateRef::Job(c.job));
                    popped.lemma_wake_at_inv(at as int, now);
                    popped.lemma_wake_at_waits(at as int, now);
                    popped.lemma_wake_at_kept(at as int, now, none.insert(own));
                    let woken = popped.wake_at(at as int, now);
                    assert(woken.jobs.contains_key(c.job.value));
                    assert(woken.ref_ok(own));
                    woken.lemma_push_reference_inv(own, now);
                    woken.lemma_push_job_kept(c.job, now, none.insert(own));
                    assert(none.insert(own).remove(own) =~= none);
                    woken.push_job_candidate(c.job, now).lemma_pick_covered(now);
                }
            },
        }
    }

    pub proof fn lemma_wake_next_covered(self, scope: OutboundScope, now: Instant)
        requires
            self.inv(),
            self.covered(),
        ensures
            self.wake_next(scope, now).covered(),
    {
        let at = model::find(self.reservations, scope);
        if at < self.reservations.len() {
            self.lemma_wake_at_kept(at as int, now, Set::empty());
        }
    }

    pub proof fn lemma_settle_covered(self, c: Candidate, now: Instant)
        requires
            self.inv(),
            self.grantable(c, now),
            self.dispose(c, now).covered(),
        ensures
            self.settle(c, now).covered(),
    {
        self.lemma_dispose_inv(c, now);
        let after = self.dispose(c, now);
        after.lemma_wake_next_inv(OutboundScope::Global, now);
        after.lemma_wake_next_covered(OutboundScope::Global, now);
        after.wake_next(OutboundScope::Global, now).lemma_wake_next_covered(c.scope, now);
    }

    proof fn lemma_loop_step_covered(self, now: Instant)
        requires
            self.inv(),
            self.covered(),
        ensures
            self.pick(now).1 matches Some(c) ==> {
                &&& self.pick(now).0.settle(c, now).inv()
                &&& self.pick(now).0.settle(c, now).covered()
            },
    {
        self.lemma_pick_inv(now);
        self.lemma_picked_describes(now);
        self.lemma_pick_covered(now);
        let (popped, found) = self.pick(now);
        if let Some(c) = found {
            popped.lemma_settle_inv(c, now);
            assert(popped.jobs.contains_key(c.job.value));
            popped.lemma_dispose_covered(c, now);
            popped.lemma_settle_covered(c, now);
        }
    }

    pub proof fn lemma_grant_loop_covered(self, now: Instant)
        requires
            self.inv(),
            self.covered(),
        ensures
            self.grant_loop(now).0.covered(),
            self.grant_loop(now).0.candidates.len() == 0,
            self.grant_loop(now).0.first_lingering(now) >= self.grant_loop(
                now,
            ).0.reservations.len(),
        decreases
            self.jobs.dom().len(),
            model::lingering(self.reservations, now),
            self.disorder(now),
            self.candidates.len(),
    {
        self.lemma_pick_covered(now);
        self.lemma_loop_step_covered(now);
        if let Some(c) = self.pick(now).1 {
            self.lemma_settle_decreases(now);
            self.pick(now).0.settle(c, now).lemma_grant_loop_covered(now);
        }
    }

    /// A grant pass forgets nothing and leaves no candidate behind.
    pub proof fn lemma_grant_ready_covered(self, now: Instant)
        requires
            self.inv(),
            self.covered(),
        ensures
            self.grant_ready(now).covered(),
            self.grant_ready(now).candidates.len() == 0,
    {
        self.lemma_promote_inv(now);
        self.lemma_promote_covered(now);
        let mid = self.promote(now);
        mid.lemma_grant_loop_covered(now);
        mid.grant_loop(now).0.lemma_covered_same(self.grant_ready(now), Set::empty());
    }
}

/// What a queue loses from its front is dead.
pub proof fn lemma_live_queue_drops_dead(
    queue: Seq<CandidateRef>,
    jobs: Map<u64, Job>,
    lanes: Map<u64, LaneView>,
)
    ensures
        forall|x: CandidateRef| #[trigger]
            queue.contains(x) && model::reference_alive(x, jobs, lanes) ==> model::live_queue(
                queue,
                jobs,
                lanes,
            ).contains(x),
    decreases queue.len(),
{
    if queue.len() > 0 && !model::reference_alive(queue[0], jobs, lanes) {
        let rest = queue.drop_first();
        lemma_live_queue_drops_dead(rest, jobs, lanes);
        assert forall|x: CandidateRef| #[trigger] queue.contains(x) && model::reference_alive(
            x,
            jobs,
            lanes,
        ) implies model::live_queue(queue, jobs, lanes).contains(x) by {
            let i = choose|i: int| 0 <= i < queue.len() && queue[i] == x;
            assert(rest[i - 1] == x);
            assert(rest.contains(x));
        }
    }
}

/// Dropping every dead entry of a lane keeps its first waiting job.
proof fn lemma_first_of_kept(pending: Seq<(u64, JobId)>, jobs: Map<u64, Job>)
    requires
        lane::in_lane_order(pending),
    ensures
        ({
            let kept = pending.filter(|entry: (u64, JobId)| jobs.contains_key(entry.1.value));
            let a = lane::drop_dead(pending, jobs);
            let b = lane::drop_dead(kept, jobs);
            &&& a.len() > 0 <==> b.len() > 0
            &&& a.len() > 0 ==> a[0] == b[0]
        }),
{
    let live = |entry: (u64, JobId)| jobs.contains_key(entry.1.value);
    let kept = pending.filter(live);
    soundness_grant::lemma_filter_lane(pending, live);
    lane::lemma_drop_dead_is_suffix(pending, jobs);
    lane::lemma_drop_dead_is_suffix(kept, jobs);
    let a = lane::drop_dead(pending, jobs);
    let b = lane::drop_dead(kept, jobs);
    if kept.len() > 0 {
        assert(kept.contains(kept[0]));
        assert(live(kept[0]));
        assert(b == kept);
        let i = choose|i: int| 0 <= i < pending.len() && pending[i] == kept[0];
        let cut = pending.len() - a.len();
        assert(i >= cut) by {
            if i < cut {
                assert(!jobs.contains_key(pending[i].1.value));
            }
        }
        assert(a[0] == pending[cut]);
        assert(pending.contains(pending[cut]));
        assert(live(pending[cut]));
        assert(kept.contains(pending[cut]));
        let j = choose|j: int| 0 <= j < kept.len() && kept[j] == pending[cut];
        if j > 0 {
            assert(lane::entry_lt(kept[0], kept[j]));
            if i > cut {
                assert(lane::entry_lt(pending[cut], pending[i]));
            }
        }
    } else if a.len() > 0 {
        let cut = pending.len() - a.len();
        assert(a[0] == pending[cut]);
        assert(pending.contains(pending[cut]));
        assert(live(pending[cut]));
        assert(kept.contains(pending[cut]));
    }
}

} // verus!
