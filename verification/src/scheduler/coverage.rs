//! Every waiting job stands in a queue that will bring it up.

use super::entries::{BlockedJob, CandidateKey, CandidateRef, Job};
use super::lane::LaneView;
use super::model::{ReservationView, SchedulerView};
use super::{entries, lane, progress};
use crate::time::Instant;
use crate::types::{JobId, OutboundLaneKey};
use vstd::multiset::Multiset;
use vstd::prelude::*;

verus! {

broadcast use vstd::multiset::group_multiset_axioms;

/// The reference to an unlaned job.
pub open spec fn job_ref(id: u64) -> CandidateRef {
    CandidateRef::Job(JobId { value: id })
}

/// The reference to a lane.
pub open spec fn lane_ref(key: u64) -> CandidateRef {
    CandidateRef::Lane(OutboundLaneKey { value: key })
}

/// Whether the reference is blocked until some moment.
pub open spec fn blocked_in(blocked: Multiset<BlockedJob>, reference: CandidateRef) -> bool {
    exists|entry: BlockedJob| #[trigger] blocked.contains(entry) && entry.reference == reference
}

/// Whether the reference is parked behind a hold.
pub open spec fn parked_in(reservations: Seq<ReservationView>, reference: CandidateRef) -> bool {
    exists|i: int|
        0 <= i < reservations.len() && (#[trigger] reservations[i]).queue.contains(reference)
}

proof fn lemma_drop_dead_agrees(
    pending: Seq<(u64, JobId)>,
    jobs: Map<u64, Job>,
    other: Map<u64, Job>,
)
    requires
        forall|i: int|
            0 <= i < pending.len() ==> (jobs.contains_key((#[trigger] pending[i]).1.value)
                <==> other.contains_key(pending[i].1.value)),
    ensures
        lane::drop_dead(pending, jobs) == lane::drop_dead(pending, other),
    decreases pending.len(),
{
    if pending.len() > 0 && !jobs.contains_key(pending[0].1.value) {
        let rest = pending.drop_first();
        assert forall|i: int| 0 <= i < rest.len() implies (jobs.contains_key(
            (#[trigger] rest[i]).1.value,
        ) <==> other.contains_key(rest[i].1.value)) by {
            assert(rest[i] == pending[i + 1]);
        }
        lemma_drop_dead_agrees(rest, jobs, other);
    }
}

impl SchedulerView {
    /// Whether the reference waits to become a candidate again.
    pub open spec fn sleeps(self, reference: CandidateRef) -> bool {
        blocked_in(self.blocked, reference) || parked_in(self.reservations, reference)
    }

    /// Whether a candidate entry stands for the reference, at this effective
    /// priority or above.
    pub open spec fn stands(self, reference: CandidateRef, effective: u8) -> bool {
        exists|key: CandidateKey| #[trigger]
            self.candidates.contains(key) && key.reference == reference && key.effective
                >= effective
    }

    /// The candidate entry an unlaned job asks for.
    pub open spec fn key_of(self, id: u64) -> CandidateKey {
        CandidateKey {
            effective: self.jobs[id].candidate_effective,
            sequence: self.jobs[id].sequence,
            reference: job_ref(id),
        }
    }

    /// The first waiting job of a lane.
    pub open spec fn head(self, key: u64) -> Option<u64> {
        let rest = lane::drop_dead(self.lanes[key].pending, self.jobs);
        if rest.len() > 0 {
            Some(rest[0].1.value)
        } else {
            None
        }
    }

    /// An unlaned job without a delay has its candidate entry, or sleeps.
    pub open spec fn job_kept(self, id: u64) -> bool {
        self.jobs[id].meta.lane is None && self.jobs[id].not_before is None ==> if self.jobs[id].in_candidate_heap {
            self.candidates.contains(self.key_of(id))
        } else {
            self.sleeps(job_ref(id))
        }
    }

    /// The mark of a lane tells the truth: a marked lane has a candidate
    /// entry, and a lane in flight has none that counts.
    pub open spec fn lane_marked(self, key: u64) -> bool {
        &&& self.lanes[key].in_flight is Some ==> !self.lanes[key].in_candidate_heap
        &&& self.lanes[key].in_candidate_heap ==> self.stands(
            lane_ref(key),
            self.lanes[key].candidate_effective,
        )
    }

    /// A free lane whose first waiting job has no delay has its candidate
    /// entry, or sleeps. One without a waiting job has no mark.
    pub open spec fn lane_kept(self, key: u64) -> bool {
        self.lanes[key].in_flight is None ==> {
            &&& self.head(key) is None ==> !self.lanes[key].in_candidate_heap
            &&& self.head(key) is Some && self.jobs[self.head(key)->0].not_before is None
                && !self.lanes[key].in_candidate_heap ==> self.sleeps(lane_ref(key))
        }
    }

    /// Whether all references are kept, the excused ones excepted.
    pub open spec fn kept_but(self, excused: Set<CandidateRef>) -> bool {
        &&& forall|id: u64| #[trigger]
            self.jobs.contains_key(id) && !excused.contains(job_ref(id)) ==> self.job_kept(id)
        &&& forall|key: u64| #[trigger] self.lanes.contains_key(key) ==> self.lane_marked(key)
        &&& forall|key: u64| #[trigger]
            self.lanes.contains_key(key) && !excused.contains(lane_ref(key)) ==> self.lane_kept(
                key,
            )
    }

    /// No waiting job is forgotten.
    pub open spec fn covered(self) -> bool {
        self.kept_but(Set::empty())
    }

    pub proof fn lemma_kept_weaken(self, excused: Set<CandidateRef>, more: Set<CandidateRef>)
        requires
            self.kept_but(excused),
            excused.subset_of(more),
        ensures
            self.kept_but(more),
    {
    }

    pub proof fn lemma_fresh_covered(
        limits: crate::types::OutboundLimits,
        aging: crate::types::AgingPolicy,
    )
        ensures
            SchedulerView::fresh(limits, aging).covered(),
    {
    }

    /// Whether a job has the same candidate mark, delay and place in both
    /// states.
    pub open spec fn same_marks(self, after: SchedulerView, id: u64) -> bool {
        &&& after.jobs[id].meta.lane == self.jobs[id].meta.lane
        &&& after.jobs[id].not_before == self.jobs[id].not_before
        &&& after.jobs[id].sequence == self.jobs[id].sequence
        &&& after.jobs[id].in_candidate_heap == self.jobs[id].in_candidate_heap
        &&& after.jobs[id].candidate_effective == self.jobs[id].candidate_effective
    }

    /// Whether the mark of a lane, if it has one, is that of before.
    pub open spec fn mark_stays(self, after: SchedulerView, key: u64) -> bool {
        after.lanes[key].in_candidate_heap ==> {
            &&& self.lanes.contains_key(key)
            &&& self.lanes[key].in_candidate_heap
            &&& after.lanes[key].in_flight == self.lanes[key].in_flight
            &&& after.lanes[key].candidate_effective == self.lanes[key].candidate_effective
        }
    }

    /// Whether a lane has the same mark and the same head in both states.
    pub open spec fn same_head(self, after: SchedulerView, key: u64) -> bool {
        &&& self.lanes.contains_key(key)
        &&& after.lanes[key].in_flight == self.lanes[key].in_flight
        &&& after.lanes[key].in_candidate_heap == self.lanes[key].in_candidate_heap
        &&& after.head(key) == self.head(key)
        &&& self.head(key) matches Some(id) ==> after.jobs[id].not_before
            == self.jobs[id].not_before
    }

    /// Whether a candidate entry counts in this state.
    pub open spec fn counts(self, key: CandidateKey, excused: Set<CandidateRef>) -> bool {
        match key.reference {
            CandidateRef::Job(id) => {
                &&& self.jobs.contains_key(id.value)
                &&& !excused.contains(key.reference)
                &&& key == self.key_of(id.value)
            },
            CandidateRef::Lane(lane_key) => {
                &&& self.lanes.contains_key(lane_key.value)
                &&& self.lanes[lane_key.value].in_candidate_heap
                &&& key.effective >= self.lanes[lane_key.value].candidate_effective
            },
        }
    }

    /// What is kept stays kept where no entry that counts is lost.
    pub proof fn lemma_kept_frame(self, after: SchedulerView, excused: Set<CandidateRef>)
        requires
            self.kept_but(excused),
            forall|id: u64| #[trigger]
                after.jobs.contains_key(id) && !excused.contains(job_ref(id))
                    ==> self.jobs.contains_key(id) && self.same_marks(after, id),
            forall|key: u64| #[trigger]
                after.lanes.contains_key(key) ==> self.mark_stays(after, key),
            forall|key: u64| #[trigger]
                after.lanes.contains_key(key) && !excused.contains(lane_ref(key))
                    ==> self.same_head(after, key),
            forall|k: CandidateKey| #[trigger]
                self.candidates.contains(k) && after.counts(k, excused)
                    ==> after.candidates.contains(k),
            forall|r: CandidateRef| #[trigger]
                self.sleeps(r) && !excused.contains(r) ==> after.sleeps(r),
        ensures
            after.kept_but(excused),
    {
        assert forall|id: u64| #[trigger] after.jobs.contains_key(id) && !excused.contains(
            job_ref(id),
        ) implies after.job_kept(id) by {
            assert(self.job_kept(id));
            assert(after.key_of(id) == self.key_of(id));
        }
        assert forall|key: u64| #[trigger] after.lanes.contains_key(key) implies after.lane_marked(
            key,
        ) by {
            if after.lanes[key].in_candidate_heap {
                assert(self.lane_marked(key));
                let k = choose|k: CandidateKey| #[trigger]
                    self.candidates.contains(k) && k.reference == lane_ref(key) && k.effective
                        >= self.lanes[key].candidate_effective;
                assert(after.counts(k, excused));
                assert(after.candidates.contains(k));
            }
        }
        assert forall|key: u64| #[trigger] after.lanes.contains_key(key) && !excused.contains(
            lane_ref(key),
        ) implies after.lane_kept(key) by {
            assert(self.lane_kept(key));
        }
    }

    /// Whether the same entries of a lane are alive in both states.
    pub open spec fn same_alive(self, after: SchedulerView, pending: Seq<(u64, JobId)>) -> bool {
        forall|i: int|
            0 <= i < pending.len() ==> (self.jobs.contains_key((#[trigger] pending[i]).1.value)
                <==> after.jobs.contains_key(pending[i].1.value))
    }

    /// The head of a lane that keeps its entries alive stays.
    pub proof fn lemma_head_stays(self, after: SchedulerView, key: u64)
        requires
            after.lanes[key].pending == self.lanes[key].pending,
            self.same_alive(after, self.lanes[key].pending),
        ensures
            after.head(key) == self.head(key),
    {
        lemma_drop_dead_agrees(self.lanes[key].pending, self.jobs, after.jobs);
    }

    /// The head of a lane is a waiting job of it.
    pub proof fn lemma_head_waits(self, key: u64)
        requires
            self.inv(),
            self.lanes.contains_key(key),
        ensures
            self.head(key) matches Some(id) ==> self.jobs.contains_key(id)
                && self.jobs[id].meta.lane == Some(OutboundLaneKey { value: key }),
            self.head(key) is Some <==> lane::has_live(self.lanes[key].pending, self.jobs),
    {
        let held = self.lanes[key].pending;
        let rest = lane::drop_dead(held, self.jobs);
        lane::lemma_drop_dead_is_suffix(held, self.jobs);
        assert(self.lane_ok(key));
        if rest.len() > 0 {
            assert(rest[0] == held[held.len() - rest.len()]);
            assert(self.jobs.contains_key(held[held.len() - rest.len()].1.value));
        }
    }

    /// The head of a lane depends on its entries and on which jobs wait.
    pub proof fn lemma_same_head(self, after: SchedulerView, key: u64)
        requires
            after.jobs.dom() == self.jobs.dom(),
            after.lanes[key].pending == self.lanes[key].pending || after.lanes[key].pending
                == lane::drop_dead(self.lanes[key].pending, self.jobs),
        ensures
            after.head(key) == self.head(key),
            self.head(key) matches Some(id) ==> self.jobs.contains_key(id),
    {
        let held = self.lanes[key].pending;
        progress::lemma_drop_dead_same(held, self.jobs, after.jobs);
        progress::lemma_drop_dead_same(
            lane::drop_dead(held, self.jobs),
            self.jobs,
            after.jobs,
        );
        lane::lemma_drop_dead_is_idempotent(held, self.jobs);
        lane::lemma_drop_dead_is_suffix(held, self.jobs);
    }

    // ---------- candidates ----------

    /// A job that is made a candidate needs no excuse any more.
    pub proof fn lemma_push_job_kept(self, id: JobId, now: Instant, excused: Set<CandidateRef>)
        requires
            self.kept_but(excused),
        ensures
            self.push_job_candidate(id, now).kept_but(excused.remove(CandidateRef::Job(id))),
    {
        let after = self.push_job_candidate(id, now);
        let fewer = excused.remove(CandidateRef::Job(id));
        assert(job_ref(id.value) == CandidateRef::Job(id));
        if self.jobs.contains_key(id.value) {
            let job = self.jobs[id.value];
            let level = entries::effective(job, self.aging, now);
            let more = excused.insert(CandidateRef::Job(id));
            self.lemma_kept_weaken(excused, more);
            assert(after.jobs.dom() =~= self.jobs.dom());
            assert forall|key: u64| #[trigger] after.lanes.contains_key(
                key,
            ) implies self.same_head(after, key) by {
                self.lemma_same_head(after, key);
            }
            self.lemma_kept_frame(after, more);
            assert(after.candidates.contains(after.key_of(id.value)));
            assert(after.job_kept(id.value));
            assert forall|k: u64| #[trigger] after.jobs.contains_key(k) && !fewer.contains(
                job_ref(k),
            ) implies after.job_kept(k) by {
                if k != id.value {
                    assert(!more.contains(job_ref(k)));
                }
            }
            assert forall|key: u64| #[trigger] after.lanes.contains_key(key) && !fewer.contains(
                lane_ref(key),
            ) implies after.lane_kept(key) by {
                assert(!more.contains(lane_ref(key)));
            }
        } else {
            assert forall|k: u64| #[trigger] after.jobs.contains_key(k) && !fewer.contains(
                job_ref(k),
            ) implies after.job_kept(k) by {
                assert(!excused.contains(job_ref(k)));
            }
            assert forall|key: u64| #[trigger] after.lanes.contains_key(key) && !fewer.contains(
                lane_ref(key),
            ) implies after.lane_kept(key) by {
                assert(!excused.contains(lane_ref(key)));
            }
        }
    }

    /// A lane whose head is made a candidate needs no excuse any more.
    pub proof fn lemma_push_lane_kept(
        self,
        key: OutboundLaneKey,
        now: Instant,
        excused: Set<CandidateRef>,
    )
        requires
            self.kept_but(excused),
        ensures
            self.push_lane_head_candidate(key, now).kept_but(
                excused.remove(CandidateRef::Lane(key)),
            ),
    {
        let after = self.push_lane_head_candidate(key, now);
        let fewer = excused.remove(CandidateRef::Lane(key));
        let more = excused.insert(CandidateRef::Lane(key));
        assert(lane_ref(key.value) == CandidateRef::Lane(key));
        self.lemma_kept_weaken(excused, more);
        let held = self.lanes[key.value];
        if !self.lanes.contains_key(key.value) || held.in_flight is Some {
            assert forall|k: u64| #[trigger] after.jobs.contains_key(k) && !fewer.contains(
                job_ref(k),
            ) implies after.job_kept(k) by {
                assert(!excused.contains(job_ref(k)));
            }
            assert forall|k: u64| #[trigger] after.lanes.contains_key(k) && !fewer.contains(
                lane_ref(k),
            ) implies after.lane_kept(k) by {
                if k != key.value {
                    assert(!excused.contains(lane_ref(k)));
                }
            }
        } else {
            assert(self.lane_marked(key.value));
            let drained = held.drained(self.jobs);
            let thinner = SchedulerView {
                lanes: self.lanes.insert(key.value, drained),
                ..self
            };
            lane::lemma_drop_dead_is_idempotent(held.pending, self.jobs);
            assert forall|k: u64| #[trigger] thinner.lanes.contains_key(
                k,
            ) implies self.same_head(thinner, k) by {
                self.lemma_same_head(thinner, k);
            }
            self.lemma_kept_frame(thinner, more);
            if drained.pending.len() == 0 {
                self.lemma_kept_frame(after, more);
            } else {
                let job = self.jobs[drained.pending[0].1.value];
                assert(thinner.head(key.value) == Some(drained.pending[0].1.value));
                if entries::delayed_at(job, now) || drained.in_candidate_heap {
                    assert(after == thinner);
                    assert(after.lane_kept(key.value));
                } else {
                    let level = entries::effective(job, self.aging, now);
                    let marked = LaneView {
                        in_candidate_heap: true,
                        candidate_effective: level,
                        ..drained
                    };
                    let entry = CandidateKey {
                        effective: level,
                        sequence: job.sequence,
                        reference: CandidateRef::Lane(key),
                    };
                    assert(after.candidates.contains(entry));
                    assert(after.lanes == self.lanes.insert(key.value, marked));
                    assert(after.lane_marked(key.value));
                    assert(after.head(key.value) == thinner.head(key.value));
                    assert(after.lane_kept(key.value));
                }
            }
            assert forall|k: u64| #[trigger] after.lanes.contains_key(k) implies after.lane_marked(
                k,
            ) by {
                if k != key.value {
                    assert(thinner.lanes.contains_key(k));
                    assert(thinner.lane_marked(k));
                    if after.lanes[k].in_candidate_heap {
                        let e = choose|e: CandidateKey| #[trigger]
                            thinner.candidates.contains(e) && e.reference == lane_ref(k)
                                && e.effective >= thinner.lanes[k].candidate_effective;
                        assert(after.candidates.contains(e));
                    }
                }
            }
            assert forall|k: u64| #[trigger] after.jobs.contains_key(k) && !fewer.contains(
                job_ref(k),
            ) implies after.job_kept(k) by {
                assert(!more.contains(job_ref(k)));
                assert(thinner.job_kept(k));
                assert(after.key_of(k) == thinner.key_of(k));
            }
            assert forall|k: u64| #[trigger] after.lanes.contains_key(k) && !fewer.contains(
                lane_ref(k),
            ) implies after.lane_kept(k) by {
                if k != key.value {
                    assert(thinner.lanes.contains_key(k));
                    assert(!more.contains(lane_ref(k)));
                    assert(thinner.lane_kept(k));
                    assert(after.head(k) == thinner.head(k));
                }
            }
        }
    }

    pub proof fn lemma_push_kept(
        self,
        reference: CandidateRef,
        now: Instant,
        excused: Set<CandidateRef>,
    )
        requires
            self.kept_but(excused),
        ensures
            self.push_reference(reference, now).kept_but(excused.remove(reference)),
    {
        match reference {
            CandidateRef::Job(id) => self.lemma_push_job_kept(id, now, excused),
            CandidateRef::Lane(key) => self.lemma_push_lane_kept(key, now, excused),
        }
    }
}

} // verus!
