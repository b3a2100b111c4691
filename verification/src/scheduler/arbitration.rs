//! Candidate entries rank jobs as they are.

use super::entries::{AgingEvent, CandidateKey, CandidateRef, DelayedJob, Job};
use super::model::SchedulerView;
use super::{coverage, entries, lane, laws, wakeups};
use crate::time::Instant;
use crate::types::{AgingPolicy, JobId, OutboundLaneKey, HIGHEST_LEVEL};
use vstd::multiset::Multiset;
use vstd::prelude::*;

verus! {

broadcast use vstd::multiset::group_multiset_axioms;

/// The moment at which the effective priority of a job rises above that of
/// its candidate entry.
pub open spec fn rise(job: Job, aging: AgingPolicy) -> int {
    job.ready_at.nanos + (job.candidate_effective + 1 - job.meta.priority.value)
        * entries::quantum_nanos(aging)
}

/// Whether a job has neither a lane nor a delay.
pub open spec fn at_large(job: Job) -> bool {
    job.meta.lane is None && job.not_before is None
}

impl SchedulerView {
    /// Whether a candidate entry of a waiting unlaned job has the job's
    /// sequence and ranks it no higher than the job is noted.
    pub open spec fn key_ranked(self, key: CandidateKey) -> bool {
        key.reference matches CandidateRef::Job(id) ==> self.jobs.contains_key(id.value) ==> {
            &&& key.sequence == self.jobs[id.value].sequence
            &&& key.effective <= self.jobs[id.value].candidate_effective
        }
    }

    /// Whether the next rise of a marked job is noted.
    pub open spec fn rise_noted(self, id: u64) -> bool {
        let job = self.jobs[id];
        &&& job.meta.priority.value <= job.candidate_effective
        &&& job.candidate_effective < HIGHEST_LEVEL && rise(job, self.aging) <= u64::MAX
            ==> self.aging_events.contains(
            AgingEvent {
                at: Instant { nanos: rise(job, self.aging) as u64 },
                reference: coverage::job_ref(id),
            },
        )
    }

    /// Whether the candidate entries of unlaned jobs rank them as they were
    /// at some moment up to `now`, and every later rise is noted.
    pub open spec fn ranked_by(self, now: Instant) -> bool {
        &&& forall|k: CandidateKey| #[trigger] self.candidates.contains(k) ==> self.key_ranked(k)
        &&& forall|id: u64| #[trigger]
            self.jobs.contains_key(id) && at_large(self.jobs[id])
                ==> self.jobs[id].candidate_effective <= entries::effective(
                self.jobs[id],
                self.aging,
                now,
            )
        &&& forall|id: u64| #[trigger]
            self.jobs.contains_key(id) && at_large(self.jobs[id])
                && self.jobs[id].in_candidate_heap ==> self.rise_noted(id)
    }

    /// Entries of the delayed queue that are of the job.
    pub open spec fn delays_of(self, id: u64) -> Multiset<DelayedJob> {
        self.delayed.filter(|entry: DelayedJob| entry.job.value == id)
    }

    /// Whether an unlaned job with a delay has never been a candidate.
    pub open spec fn delay_unmarked(self, id: u64) -> bool {
        self.jobs[id].meta.lane is None && self.jobs[id].not_before is Some ==> {
            &&& !self.jobs[id].in_candidate_heap
            &&& self.jobs[id].candidate_effective == 0
        }
    }

    /// Whether every job has at most one entry in the delayed queue, a
    /// waiting job with one is delayed, and a delayed job has never been a
    /// candidate.
    pub open spec fn delayed_once(self) -> bool {
        &&& forall|id: u64| (#[trigger] self.delays_of(id)).len() <= 1
        &&& forall|entry: DelayedJob| #[trigger]
            self.delayed.contains(entry) && self.jobs.contains_key(entry.job.value)
                ==> self.jobs[entry.job.value].not_before is Some
        &&& forall|id: u64| #[trigger] self.jobs.contains_key(id) ==> self.delay_unmarked(id)
    }

    /// What is delayed once stays so where entries are only lost.
    pub proof fn lemma_once_frame(self, after: SchedulerView)
        requires
            self.delayed_once(),
            after.delayed.subset_of(self.delayed),
            forall|id: u64| #[trigger]
                after.jobs.contains_key(id) ==> {
                    &&& self.jobs.contains_key(id)
                    &&& after.jobs[id].not_before == self.jobs[id].not_before
                    &&& after.jobs[id].meta.lane == self.jobs[id].meta.lane
                    &&& after.jobs[id].not_before is Some && after.jobs[id].meta.lane is None
                        ==> after.jobs[id].in_candidate_heap == self.jobs[id].in_candidate_heap
                        && after.jobs[id].candidate_effective == self.jobs[id].candidate_effective
                },
        ensures
            after.delayed_once(),
    {
        assert forall|id: u64| (#[trigger] after.delays_of(id)).len() <= 1 by {
            let mine = after.delays_of(id);
            let all = self.delays_of(id);
            assert(mine.subset_of(all));
            assert(all.sub(mine).len() == all.len() - mine.len());
        }
        assert forall|entry: DelayedJob| #[trigger] after.delayed.contains(entry)
            && after.jobs.contains_key(entry.job.value) implies
            after.jobs[entry.job.value].not_before is Some by {
            assert(self.delayed.count(entry) >= after.delayed.count(entry));
            assert(self.delayed.contains(entry));
        }
        assert forall|id: u64| #[trigger] after.jobs.contains_key(id) implies after.delay_unmarked(
            id,
        ) by {
            assert(self.delay_unmarked(id));
        }
    }

    pub proof fn lemma_ranked_later(self, now: Instant, later: Instant)
        requires
            self.ranked_by(now),
            now.nanos <= later.nanos,
        ensures
            self.ranked_by(later),
    {
        assert forall|id: u64| #[trigger] self.jobs.contains_key(id) && at_large(
            self.jobs[id],
        ) implies self.jobs[id].candidate_effective <= entries::effective(
            self.jobs[id],
            self.aging,
            later,
        ) by {
            laws::law_effective_priority_only_rises(self.jobs[id], self.aging, now, later);
        }
    }

    /// Whether a job is ranked the same way in both states.
    pub open spec fn same_rank(self, after: SchedulerView, id: u64) -> bool {
        &&& after.jobs[id].meta == self.jobs[id].meta
        &&& after.jobs[id].sequence == self.jobs[id].sequence
        &&& after.jobs[id].ready_at == self.jobs[id].ready_at
        &&& after.jobs[id].not_before == self.jobs[id].not_before
        &&& after.jobs[id].candidate_effective == self.jobs[id].candidate_effective
        &&& after.jobs[id].in_candidate_heap ==> self.jobs[id].in_candidate_heap
    }

    // What is ranked stays ranked where unlaned jobs get no new entry and no
    // moment is lost.
    pub proof fn lemma_ranked_frame(self, after: SchedulerView, now: Instant)
        requires
            self.ranked_by(now),
            after.aging == self.aging,
            forall|id: u64| #[trigger]
                after.jobs.contains_key(id) && after.jobs[id].meta.lane is None
                    ==> self.jobs.contains_key(id) && self.same_rank(after, id),
            forall|id: u64| #[trigger]
                after.jobs.contains_key(id) && after.jobs[id].meta.lane is Some
                    ==> self.jobs.contains_key(id) && after.jobs[id].sequence
                    == self.jobs[id].sequence && after.jobs[id].candidate_effective
                    == self.jobs[id].candidate_effective,
            forall|k: CandidateKey| #[trigger]
                after.candidates.contains(k) ==> self.candidates.contains(k)
                    || k.reference is Lane,
            forall|e: AgingEvent| #[trigger]
                self.aging_events.contains(e) && e.reference is Job && after.is_candidate(
                    e.reference,
                ) ==> after.aging_events.contains(e),
        ensures
            after.ranked_by(now),
    {
        assert forall|id: u64| #[trigger] after.jobs.contains_key(id) && at_large(after.jobs[id])
            && after.jobs[id].in_candidate_heap implies after.rise_noted(id) by {
            assert(self.rise_noted(id));
        }
        assert forall|k: CandidateKey| #[trigger] after.candidates.contains(
            k,
        ) implies after.key_ranked(k) by {
            if self.candidates.contains(k) {
                assert(self.key_ranked(k));
            }
        }
    }

    // ---------- candidates ----------

    // An unlaned job that is made a candidate is ranked as it is.
    pub proof fn lemma_push_job_ranked(self, id: JobId, now: Instant)
        requires
            self.ranked_by(now),
            wakeups::spans_every_level(self.aging),
            self.jobs.contains_key(id.value) ==> self.jobs[id.value].meta.lane is None
                && self.jobs[id.value].not_before is None,
        ensures
            self.push_job_candidate(id, now).ranked_by(now),
    {
        if self.jobs.contains_key(id.value) {
            let after = self.push_job_candidate(id, now);
            let job = self.jobs[id.value];
            let level = entries::effective(job, self.aging, now);
            let reference = CandidateRef::Job(id);
            assert(coverage::job_ref(id.value) == reference);
            wakeups::lemma_rise_ahead(job, self.aging, now);
            let noted = after.jobs[id.value];
            assert(entries::effective(noted, self.aging, now) == level);
            assert(rise(noted, self.aging) == job.ready_at.nanos + (level + 1
                - job.meta.priority.value) * entries::quantum_nanos(self.aging));
            assert forall|k: CandidateKey| #[trigger] after.candidates.contains(
                k,
            ) implies after.key_ranked(k) by {
                if self.candidates.contains(k) {
                    assert(self.key_ranked(k));
                } else {
                    assert(k.reference == reference);
                }
            }
            assert forall|k: u64| #[trigger] after.jobs.contains_key(k) && at_large(after.jobs[k])
                && after.jobs[k].in_candidate_heap implies after.rise_noted(k) by {
                if k != id.value {
                    assert(self.rise_noted(k));
                }
            }
        }
    }

    // Making a candidate of a lane's head ranks no unlaned job.
    pub proof fn lemma_push_lane_ranked(self, key: OutboundLaneKey, now: Instant)
        requires
            self.ranked_by(now),
        ensures
            self.push_lane_head_candidate(key, now).ranked_by(now),
    {
        self.lemma_ranked_frame(self.push_lane_head_candidate(key, now), now);
    }

    pub proof fn lemma_push_ranked(self, reference: CandidateRef, now: Instant)
        requires
            self.ranked_by(now),
            wakeups::spans_every_level(self.aging),
            self.ref_ok(reference),
        ensures
            self.push_reference(reference, now).ranked_by(now),
    {
        match reference {
            CandidateRef::Job(id) => self.lemma_push_job_ranked(id, now),
            CandidateRef::Lane(key) => self.lemma_push_lane_ranked(key, now),
        }
    }
}

} // verus!
