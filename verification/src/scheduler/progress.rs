//! Why picking candidates and granting them comes to an end.
//!
//! Every look at the foremost entry either takes one away for good or puts
//! one into its right place; every candidate taken out is granted, and then
//! its job is gone, or it leaves the candidates.

use super::entries::{Candidate, CandidateKey, CandidateRef, Job};
use super::lane;
use super::model;
use super::model::{PopStep, SchedulerView};
use crate::heap;
use crate::time::Instant;
use crate::types::{JobId, OutboundLaneKey};
use vstd::multiset::Multiset;
use vstd::prelude::*;

verus! {

pub proof fn lemma_filter_insert<T>(m: Multiset<T>, p: spec_fn(T) -> bool, x: T)
    ensures
        m.insert(x).filter(p) == (if p(x) {
            m.filter(p).insert(x)
        } else {
            m.filter(p)
        }),
{
    broadcast use vstd::multiset::group_multiset_axioms;

    assert(m.insert(x).filter(p) =~= (if p(x) {
        m.filter(p).insert(x)
    } else {
        m.filter(p)
    }));
}

pub proof fn lemma_filter_remove<T>(m: Multiset<T>, p: spec_fn(T) -> bool, x: T)
    requires
        m.contains(x),
    ensures
        m.filter(p) == (if p(x) {
            m.remove(x).filter(p).insert(x)
        } else {
            m.remove(x).filter(p)
        }),
{
    broadcast use vstd::multiset::group_multiset_axioms;

    lemma_filter_insert(m.remove(x), p, x);
    assert(m.remove(x).insert(x) =~= m);
}

pub proof fn lemma_filter_same<T>(m: Multiset<T>, p: spec_fn(T) -> bool, q: spec_fn(T) -> bool)
    requires
        forall|x: T| #[trigger] m.contains(x) ==> p(x) == q(x),
    ensures
        m.filter(p) == m.filter(q),
{
    broadcast use vstd::multiset::group_multiset_axioms;

    assert forall|x: T| m.filter(p).count(x) == m.filter(q).count(x) by {
        if m.count(x) > 0 {
            assert(m.contains(x));
        }
    }
    assert(m.filter(p) =~= m.filter(q));
}

/// Which lane entries are dead depends on the set of waiting jobs alone.
pub proof fn lemma_drop_dead_same(
    pending: Seq<(u64, JobId)>,
    jobs: Map<u64, Job>,
    other: Map<u64, Job>,
)
    requires
        jobs.dom() == other.dom(),
    ensures
        lane::drop_dead(pending, jobs) == lane::drop_dead(pending, other),
    decreases pending.len(),
{
    assert(forall|k: u64| jobs.contains_key(k) <==> #[trigger] other.contains_key(k)) by {
        assert(forall|k: u64|
            jobs.dom().contains(k) <==> #[trigger] other.dom().contains(k));
    }
    if pending.len() > 0 && !jobs.contains_key(pending[0].1.value) {
        lemma_drop_dead_same(pending.drop_first(), jobs, other);
    }
}

impl SchedulerView {
    /// Whether the same entries are out of place in both states.
    spec fn same_places(self, other: SchedulerView, now: Instant) -> bool {
        forall|k: CandidateKey| #[trigger]
            self.out_of_place(k, now) == other.out_of_place(k, now)
    }

    proof fn lemma_disorder(self, other: SchedulerView, key: CandidateKey, now: Instant)
        requires
            self.candidates.contains(key),
            other.candidates == self.candidates.remove(key),
            self.same_places(other, now),
        ensures
            other.disorder(now) <= self.disorder(now),
            self.out_of_place(key, now) ==> other.disorder(now) < self.disorder(now),
            other.candidates.len() < self.candidates.len(),
    {
        broadcast use vstd::multiset::group_multiset_axioms;

        let p = |k: CandidateKey| self.out_of_place(k, now);
        let q = |k: CandidateKey| other.out_of_place(k, now);
        lemma_filter_same(other.candidates, p, q);
        lemma_filter_remove(self.candidates, p, key);
        model::lemma_remove_shrinks(self.candidates, key);
    }

    /// Looking at a lane's entry changes which entries are out of place for
    /// no lane.
    proof fn lemma_pop_lane_places(
        self,
        key: CandidateKey,
        lane_key: OutboundLaneKey,
        now: Instant,
    )
        ensures
            self.same_places(self.pop_lane(key, lane_key, now).0, now),
            self.pop_lane(key, lane_key, now).0.jobs == self.jobs,
            self.pop_lane(key, lane_key, now).0.aging == self.aging,
    {
        let after = self.pop_lane(key, lane_key, now).0;
        assert forall|k: CandidateKey| #[trigger] self.out_of_place(k, now) == after.out_of_place(
            k,
            now,
        ) by {
            if self.lanes.contains_key(lane_key.value) {
                lane::lemma_drop_dead_is_idempotent(
                    self.lanes[lane_key.value].pending,
                    self.jobs,
                );
            }
        }
    }

    /// An entry out of place that surfaces is replaced by one in its place.
    proof fn lemma_pop_lane_entries(
        self,
        key: CandidateKey,
        lane_key: OutboundLaneKey,
        now: Instant,
    )
        requires
            key.reference == CandidateRef::Lane(lane_key),
        ensures
            ({
                let after = self.pop_lane(key, lane_key, now).0;
                ||| after.candidates == self.candidates
                ||| self.out_of_place(key, now) && exists|fresh: CandidateKey|
                    after.candidates == #[trigger] self.candidates.insert(fresh)
                        && !self.out_of_place(fresh, now)
            }),
            self.pop_lane(key, lane_key, now).1 is Found ==> self.pop_lane(
                key,
                lane_key,
                now,
            ).0.candidates == self.candidates,
    {
        let after = self.pop_lane(key, lane_key, now).0;
        if self.lanes.contains_key(lane_key.value) {
            let pending = self.lanes[lane_key.value].pending;
            lane::lemma_drop_dead_is_idempotent(pending, self.jobs);
            let live = lane::drop_dead(pending, self.jobs);
            if after.candidates != self.candidates {
                let job = self.jobs[live[0].1.value];
                let fresh = CandidateKey {
                    effective: super::entries::effective(job, self.aging, now),
                    sequence: job.sequence,
                    reference: CandidateRef::Lane(lane_key),
                };
                assert(after.candidates == self.candidates.insert(fresh));
                assert(!self.out_of_place(fresh, now));
            }
        }
    }

    proof fn lemma_pop_job_places(self, key: CandidateKey, id: JobId, now: Instant)
        ensures
            self.same_places(self.pop_job(key, id).0, now),
            self.pop_job(key, id).0.jobs.dom() == self.jobs.dom(),
            self.pop_job(key, id).0.candidates == self.candidates,
    {
        let after = self.pop_job(key, id).0;
        assert(after.jobs.dom() =~= self.jobs.dom());
        assert forall|k: CandidateKey| #[trigger] self.out_of_place(k, now) == after.out_of_place(
            k,
            now,
        ) by {
            if let CandidateRef::Lane(lane_key) = k.reference {
                if self.lanes.contains_key(lane_key.value) {
                    lemma_drop_dead_same(
                        self.lanes[lane_key.value].pending,
                        self.jobs,
                        after.jobs,
                    );
                    lane::lemma_drop_dead_is_suffix(
                        self.lanes[lane_key.value].pending,
                        self.jobs,
                    );
                }
            }
        }
    }

    /// A look that does not end the search leaves less to look at.
    pub proof fn lemma_pop_step_decreases(self, now: Instant)
        ensures
            self.pop_step(now).0.jobs.dom() == self.jobs.dom(),
            self.pop_step(now).1 !is Empty ==> {
                &&& self.pop_step(now).0.disorder(now) <= self.disorder(now)
                &&& self.pop_step(now).0.disorder(now) < self.disorder(now) || self.pop_step(
                    now,
                ).0.candidates.len() < self.candidates.len()
            },
            self.pop_step(now).1 matches PopStep::Found(candidate) ==> self.pop_step(
                now,
            ).0.jobs.contains_key(candidate.job.value),
    {
        broadcast use vstd::multiset::group_multiset_axioms;

        if self.candidates.len() > 0 {
            heap::lemma_first_exists(self.candidates);
            let key = heap::first_of(self.candidates);
            let rest = SchedulerView { candidates: self.candidates.remove(key), ..self };
            assert(self.same_places(rest, now));
            self.lemma_disorder(rest, key, now);
            match key.reference {
                CandidateRef::Job(id) => {
                    rest.lemma_pop_job_places(key, id, now);
                    let after = rest.pop_job(key, id).0;
                    assert(self.same_places(after, now));
                    self.lemma_disorder(after, key, now);
                },
                CandidateRef::Lane(lane_key) => {
                    rest.lemma_pop_lane_places(key, lane_key, now);
                    rest.lemma_pop_lane_entries(key, lane_key, now);
                    let after = rest.pop_lane(key, lane_key, now).0;
                    assert(self.same_places(after, now));
                    if self.lanes.contains_key(lane_key.value) {
                        lane::lemma_drop_dead_is_suffix(
                            self.lanes[lane_key.value].pending,
                            self.jobs,
                        );
                    }
                    if after.candidates == rest.candidates {
                        self.lemma_disorder(after, key, now);
                    } else {
                        let fresh = choose|fresh: CandidateKey|
                            after.candidates == #[trigger] rest.candidates.insert(fresh)
                                && !rest.out_of_place(fresh, now);
                        assert(self.out_of_place(key, now));
                        let p = |k: CandidateKey| rest.out_of_place(k, now);
                        let q = |k: CandidateKey| after.out_of_place(k, now);
                        lemma_filter_insert(rest.candidates, p, fresh);
                        lemma_filter_same(after.candidates, p, q);
                    }
                },
            }
        }
    }

    /// Taking out a candidate leaves less to look at.
    pub proof fn lemma_pop_candidate_decreases(self, now: Instant)
        ensures
            self.pop_candidate(now).0.jobs.dom() == self.jobs.dom(),
            self.pop_candidate(now).1 matches Some(candidate) ==> {
                &&& self.pop_candidate(now).0.jobs.contains_key(candidate.job.value)
                &&& self.pop_candidate(now).0.disorder(now) <= self.disorder(now)
                &&& self.pop_candidate(now).0.disorder(now) < self.disorder(now)
                    || self.pop_candidate(now).0.candidates.len() < self.candidates.len()
            },
        decreases self.disorder(now), self.candidates.len(),
    {
        self.lemma_pop_step_decreases(now);
        let (after, step) = self.pop_step(now);
        if step is Again {
            after.lemma_pop_candidate_decreases(now);
        }
    }

    /// Blocking or parking a candidate leaves jobs, lanes and candidates
    /// alone; granting it takes its job away.
    pub proof fn lemma_dispose_frame(self, candidate: Candidate, now: Instant)
        ensures
            self.dispose(candidate, now).candidates == self.candidates,
            self.dispose(candidate, now).aging == self.aging,
            self.admission(candidate, now) is Pass ==> self.dispose(candidate, now).jobs
                == self.jobs.remove(candidate.job.value),
            self.admission(candidate, now) !is Pass ==> self.dispose(candidate, now).jobs
                == self.jobs && self.dispose(candidate, now).lanes == self.lanes,
    {
    }

    /// Dealing with a candidate leaves less to do.
    pub proof fn lemma_dispose_decreases(self, now: Instant)
        requires
            self.jobs.dom().finite(),
            self.pop_candidate(now).1 is Some,
        ensures
            ({
                let popped = self.pop_candidate(now).0;
                let after = popped.dispose(self.pop_candidate(now).1->0, now);
                &&& after.jobs.dom().finite()
                &&& after.jobs.dom().len() <= self.jobs.dom().len()
                &&& after.jobs.dom().len() < self.jobs.dom().len() || after.disorder(now)
                    < self.disorder(now) || after.disorder(now) == self.disorder(now)
                    && after.candidates.len() < self.candidates.len()
            }),
    {
        self.lemma_pop_candidate_decreases(now);
        let popped = self.pop_candidate(now).0;
        let candidate = self.pop_candidate(now).1->0;
        let after = popped.dispose(candidate, now);
        popped.lemma_dispose_frame(candidate, now);
        if popped.admission(candidate, now) is Pass {
            assert(after.jobs.dom() =~= popped.jobs.dom().remove(candidate.job.value));
            assert(popped.jobs.dom().contains(candidate.job.value));
        } else {
            let p = |k: CandidateKey| popped.out_of_place(k, now);
            let q = |k: CandidateKey| after.out_of_place(k, now);
            lemma_filter_same(after.candidates, p, q);
        }
    }
}

} // verus!
