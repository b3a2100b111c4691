//! No operation forgets a waiting job.

use super::entries::{BlockedJob, CandidateKey, CandidateRef, DelayedJob, Job};
use super::lane::LaneView;
use super::model::{ReservationView, SchedulerView};
use super::{coverage, lane, model, soundness_enqueue};
use crate::heap;
use crate::time::Instant;
use crate::types::{
    JobId, OutboundCompletion, OutboundEnqueueMode, OutboundLaneKey, OutboundLimits, OutboundMeta,
};
use vstd::prelude::*;

verus! {

broadcast use vstd::multiset::group_multiset_axioms;

impl SchedulerView {
    // ---------- removal ----------

    // Forgetting a job costs nobody but the lane it waited in.
    proof fn lemma_remove_waiting_kept(self, id: JobId)
        requires
            self.inv(),
            self.covered(),
            self.jobs.contains_key(id.value),
        ensures
            self.remove_waiting(id).kept_but(Set::empty().insert(self.reference_of(id))),
    {
        let after = self.remove_waiting(id);
        let own = self.reference_of(id);
        let one = Set::<CandidateRef>::empty().insert(own);
        let job = self.jobs[id.value];
        assert(after.jobs == self.jobs.remove(id.value));
        self.lemma_kept_weaken(Set::empty(), one);
        assert forall|k: u64| #[trigger] after.lanes.contains_key(k) implies self.mark_stays(
            after,
            k,
        ) by {
            assert(self.lanes.contains_key(k));
        }
        assert forall|k: u64| #[trigger] after.lanes.contains_key(k) && !one.contains(
            coverage::lane_ref(k),
        ) implies self.same_head(after, k) by {
            assert(self.lanes.contains_key(k));
            if let Some(key) = job.meta.lane {
                assert(coverage::lane_ref(key.value) == own);
            }
            assert(self.lane_ok(k));
            let held = self.lanes[k].pending;
            assert(self.same_alive(after, held)) by {
                assert forall|i: int| 0 <= i < held.len() implies (self.jobs.contains_key(
                    (#[trigger] held[i]).1.value,
                ) <==> after.jobs.contains_key(held[i].1.value)) by {
                    if held[i].1.value == id.value {
                        assert(job.meta.lane == Some(OutboundLaneKey { value: k }));
                    }
                }
            }
            self.lemma_head_stays(after, k);
            self.lemma_head_waits(k);
        }
        self.lemma_kept_frame(after, one);
    }

    proof fn lemma_compact_candidates_covered(self)
        requires
            self.inv(),
            self.covered(),
        ensures
            self.compact_candidates().covered(),
    {
        let after = self.compact_candidates();
        let none = Set::<CandidateRef>::empty();
        assert forall|key: u64| #[trigger] after.lanes.contains_key(key) implies self.same_head(
            after,
            key,
        ) by {
            self.lemma_same_head(after, key);
        }
        assert forall|k: CandidateKey| #[trigger] self.candidates.contains(k) && after.counts(
            k,
            none,
        ) implies after.candidates.contains(k) by {
            if let CandidateRef::Lane(key) = k.reference {
                assert(self.lane_marked(key.value));
                assert(!none.contains(coverage::lane_ref(key.value)));
                assert(self.lane_kept(key.value));
                self.lemma_head_waits(key.value);
            }
            assert(model::reference_alive(k.reference, self.jobs, self.lanes));
        }
        self.lemma_kept_frame(after, none);
    }

    proof fn lemma_rouse_lane_kept(self, key: OutboundLaneKey, excused: Set<CandidateRef>)
        requires
            self.inv(),
            self.kept_but(excused),
        ensures
            self.rouse_lane(key).kept_but(excused.remove(CandidateRef::Lane(key))),
    {
        let after = self.rouse_lane(key);
        let own = CandidateRef::Lane(key);
        assert(coverage::lane_ref(key.value) == own);
        let more = excused.insert(own);
        self.lemma_kept_weaken(excused, more);
        if self.lanes.contains_key(key.value) {
            self.lemma_head_waits(key.value);
        }
        assert forall|k: u64| #[trigger] after.lanes.contains_key(k) && !more.contains(
            coverage::lane_ref(k),
        ) implies self.same_head(after, k) by {
            assert(k != key.value);
            assert(self.lanes.contains_key(k));
        }
        assert forall|r: CandidateRef| #[trigger] self.sleeps(r) implies after.sleeps(r) by {
            if coverage::blocked_in(self.blocked, r) {
                let e = choose|e: BlockedJob| #[trigger]
                    self.blocked.contains(e) && e.reference == r;
                assert(after.blocked.contains(e));
            }
        }
        self.lemma_kept_frame(after, more);
        if after.lanes.contains_key(key.value) && after.lanes[key.value].in_flight is None {
            let entry = BlockedJob { until: Instant { nanos: 0 }, reference: own };
            let l = self.lanes[key.value];
            after.lemma_head_of(self, key.value);
            if !lane::has_live(l.pending, self.jobs) || !l.in_candidate_heap {
                assert(after.blocked.contains(entry));
                assert(after.sleeps(own));
            }
        }
        assert forall|k: u64| #[trigger] after.lanes.contains_key(k) && !excused.remove(
            own,
        ).contains(coverage::lane_ref(k)) implies after.lane_kept(k) by {
            if k != key.value {
                assert(!more.contains(coverage::lane_ref(k)));
            }
        }
    }

    // The head of a lane depends on its entries and on which jobs wait.
    proof fn lemma_head_of(self, other: SchedulerView, key: u64)
        requires
            self.jobs == other.jobs,
            self.lanes[key].pending == other.lanes[key].pending,
        ensures
            self.head(key) == other.head(key),
    {
    }

    proof fn lemma_without_kept(self, id: JobId)
        requires
            self.inv(),
            self.covered(),
        ensures
            self.jobs.contains_key(id.value) ==> self.without(id).kept_but(
                Set::empty().insert(self.reference_of(id)),
            ),
            !self.jobs.contains_key(id.value) ==> self.without(id).covered(),
    {
        let none = Set::<CandidateRef>::empty();
        if self.jobs.contains_key(id.value) {
            let one = none.insert(self.reference_of(id));
            self.lemma_remove_waiting_kept(id);
            self.remove_waiting(id).lemma_covered_same(self.without(id), one);
        } else {
            self.lemma_covered_same(self.without(id), none);
        }
    }

    pub proof fn lemma_cancel_covered(self, id: JobId)
        requires
            self.inv(),
            self.covered(),
        ensures
            self.cancel(id).covered(),
    {
        let none = Set::<CandidateRef>::empty();
        self.lemma_without_kept(id);
        self.lemma_cancel_inv(id);
        if self.jobs.contains_key(id.value) {
            let own = self.reference_of(id);
            let one = none.insert(own);
            let zero = Instant { nanos: 0 };
            let gone = self.without(id);
            let released = gone.release_holds(own, zero);
            gone.lemma_same_queues(released, one);
            gone.lemma_release_holds_inv(own, zero);
            assert(one.remove(own) =~= none);
            match own {
                CandidateRef::Job(_) => released.lemma_excuse_not_needed(own, one),
                CandidateRef::Lane(key) => released.lemma_rouse_lane_kept(key, one),
            }
        }
    }

    pub proof fn lemma_cancel_at_covered(self, id: JobId, now: Instant)
        requires
            self.inv(),
            self.covered(),
        ensures
            self.cancel_at(id, now).covered(),
    {
        let none = Set::<CandidateRef>::empty();
        self.lemma_without_kept(id);
        if self.jobs.contains_key(id.value) {
            let own = self.reference_of(id);
            let one = none.insert(own);
            let cancelled = self.without(id);
            let released = cancelled.release_holds(own, now);
            cancelled.lemma_same_queues(released, one);
            assert(one.remove(own) =~= none);
            match own {
                CandidateRef::Job(_) => released.lemma_excuse_not_needed(own, one),
                CandidateRef::Lane(key) => released.lemma_push_lane_kept(key, now, one),
            }
        }
    }

    // ---------- completion ----------

    pub proof fn lemma_start_covered(self, id: JobId, now: Instant)
        requires
            self.inv(),
            self.covered(),
        ensures
            self.start(id, now).covered(),
    {
        self.lemma_start_releases(id, now);
        self.lemma_complete_covered(id, OutboundCompletion::Success, now);
        let done = self.complete(id, OutboundCompletion::Success, now);
        if self.start(id, now) != self {
            done.lemma_covered_same(self.start(id, now), Set::empty());
        }
    }

    pub proof fn lemma_complete_covered(
        self,
        id: JobId,
        completion: OutboundCompletion,
        now: Instant,
    )
        requires
            self.inv(),
            self.covered(),
        ensures
            self.complete(id, completion, now).covered(),
    {
        let none = Set::<CandidateRef>::empty();
        if self.in_flight.contains_key(id.value) {
            let finished = SchedulerView { in_flight: self.in_flight.remove(id.value), ..self };
            self.lemma_covered_same(finished, none);
            let released = match self.in_flight[id.value].lane {
                Some(key) => finished.release_lane(key, now),
                None => finished,
            };
            if let Some(key) = self.in_flight[id.value].lane {
                assert(self.flight_ok(id.value));
                assert(self.lane_marked(key.value));
                let own = CandidateRef::Lane(key);
                let one = none.insert(own);
                assert(coverage::lane_ref(key.value) == own);
                let freed = LaneView { in_flight: None, ..self.lanes[key.value] };
                let open = SchedulerView {
                    lanes: finished.lanes.insert(key.value, freed),
                    ..finished
                };
                finished.lemma_kept_weaken(none, one);
                assert forall|k: u64| #[trigger] open.lanes.contains_key(k) && !one.contains(
                    coverage::lane_ref(k),
                ) implies finished.same_head(open, k) by {
                    finished.lemma_same_head(open, k);
                }
                finished.lemma_kept_frame(open, one);
                assert(one.remove(own) =~= none);
                if freed.pending.len() > 0 {
                    open.lemma_push_lane_kept(key, now, one);
                } else {
                    assert forall|k: u64| #[trigger] released.lanes.contains_key(
                        k,
                    ) implies finished.same_head(released, k) by {
                        finished.lemma_same_head(released, k);
                    }
                    finished.lemma_kept_frame(released, none);
                }
            }
            released.lemma_covered_same(self.complete(id, completion, now), none);
        }
    }

    // ---------- deadlines ----------

    proof fn lemma_trim_delayed_covered(self)
        requires
            self.covered(),
        ensures
            self.trim_delayed().covered(),
        decreases self.delayed.len(),
    {
        if self.delayed.len() > 0 && !self.jobs.contains_key(
            heap::first_of(self.delayed).job.value,
        ) {
            heap::lemma_first_exists(self.delayed);
            model::lemma_remove_shrinks(self.delayed, heap::first_of(self.delayed));
            let after = SchedulerView {
                delayed: self.delayed.remove(heap::first_of(self.delayed)),
                stale_delayed: lane::less(self.stale_delayed, 1),
                ..self
            };
            self.lemma_covered_same(after, Set::empty());
            after.lemma_trim_delayed_covered();
        }
    }

    proof fn lemma_trim_blocked_covered(self)
        requires
            self.inv(),
            self.covered(),
        ensures
            self.trim_blocked().covered(),
        decreases self.blocked.len(),
    {
        if self.blocked.len() > 0 && !model::reference_alive(
            heap::first_of(self.blocked).reference,
            self.jobs,
            self.lanes,
        ) {
            heap::lemma_first_exists(self.blocked);
            let entry = heap::first_of(self.blocked);
            model::lemma_remove_shrinks(self.blocked, entry);
            let after = SchedulerView { blocked: self.blocked.remove(entry), ..self };
            let none = Set::<CandidateRef>::empty();
            let one = none.insert(entry.reference);
            self.lemma_unblock(entry);
            self.lemma_dead_is_not_waited_for(entry.reference, Set::empty());
            after.lemma_excuse_not_needed(entry.reference, one);
            assert(one.remove(entry.reference) =~= none);
            self.lemma_fewer_entries(after);
            after.lemma_trim_blocked_covered();
        }
    }

    proof fn lemma_trim_aging_covered(self)
        requires
            self.covered(),
        ensures
            self.trim_aging().covered(),
        decreases self.aging_events.len(),
    {
        if self.aging_events.len() > 0 && !self.is_candidate(
            heap::first_of(self.aging_events).reference,
        ) {
            heap::lemma_first_exists(self.aging_events);
            model::lemma_remove_shrinks(self.aging_events, heap::first_of(self.aging_events));
            let after = SchedulerView {
                aging_events: self.aging_events.remove(heap::first_of(self.aging_events)),
                ..self
            };
            self.lemma_covered_same(after, Set::empty());
            after.lemma_trim_aging_covered();
        }
    }

    pub proof fn lemma_trimmed_covered(self)
        requires
            self.inv(),
            self.covered(),
        ensures
            self.trimmed().covered(),
    {
        self.lemma_trim_delayed_covered();
        self.lemma_trim_delayed_inv();
        self.trim_delayed().lemma_trim_blocked_covered();
        self.trim_delayed().trim_blocked().lemma_trim_aging_covered();
    }

    // ---------- new limits ----------

    proof fn lemma_push_references_kept(
        self,
        references: Seq<CandidateRef>,
        now: Instant,
        excused: Set<CandidateRef>,
    )
        requires
            self.kept_but(excused),
        ensures
            self.push_references(references, now).kept_but(
                excused.filter(|r: CandidateRef| !references.contains(r)),
            ),
        decreases references.len(),
    {
        let left = excused.filter(|r: CandidateRef| !references.contains(r));
        if references.len() == 0 {
            assert(left =~= excused);
        } else {
            let front = references.drop_last();
            let last = references.last();
            self.lemma_push_references_kept(front, now, excused);
            let mid = self.push_references(front, now);
            let between = excused.filter(|r: CandidateRef| !front.contains(r));
            mid.lemma_push_kept(last, now, between);
            let after = self.push_references(references, now);
            assert(between.remove(last).subset_of(left)) by {
                assert forall|r: CandidateRef| between.remove(last).contains(r) implies left.contains(
                    r,
                ) by {
                    if references.contains(r) {
                        let i = choose|i: int| 0 <= i < references.len() && references[i] == r;
                        assert(front[i] == r);
                    }
                }
            }
            after.lemma_kept_weaken(between.remove(last), left);
        }
    }

    proof fn lemma_wake_parked_kept(
        self,
        holds: Seq<ReservationView>,
        now: Instant,
        excused: Set<CandidateRef>,
    )
        requires
            self.kept_but(excused),
        ensures
            self.wake_parked(holds, now).kept_but(
                excused.filter(|r: CandidateRef| !coverage::parked_in(holds, r)),
            ),
        decreases holds.len(),
    {
        let left = excused.filter(|r: CandidateRef| !coverage::parked_in(holds, r));
        if holds.len() == 0 {
            assert(left =~= excused);
        } else {
            let front = holds.drop_last();
            let queue = holds.last().queue;
            self.lemma_wake_parked_kept(front, now, excused);
            let mid = self.wake_parked(front, now);
            let between = excused.filter(|r: CandidateRef| !coverage::parked_in(front, r));
            mid.lemma_push_references_kept(queue, now, between);
            let last = between.filter(|r: CandidateRef| !queue.contains(r));
            assert(last.subset_of(left)) by {
                assert forall|r: CandidateRef| last.contains(r) implies left.contains(r) by {
                    if coverage::parked_in(holds, r) {
                        let i = choose|i: int|
                            0 <= i < holds.len() && (#[trigger] holds[i]).queue.contains(r);
                        if i < front.len() {
                            assert(front[i].queue.contains(r));
                        }
                    }
                }
            }
            self.wake_parked(holds, now).lemma_kept_weaken(last, left);
        }
    }

    pub proof fn lemma_set_limits_covered(self, limits: OutboundLimits, now: Instant)
        requires
            self.covered(),
        ensures
            self.set_limits(limits, now).covered(),
    {
        if self.limits_refusal(limits) is None {
            let none = Set::<CandidateRef>::empty();
            let relimited = self.relimited(limits);
            let bound = Instant { nanos: u64::MAX };
            self.lemma_covered_same(relimited, none);
            relimited.lemma_wake_blocked_covered(bound, now);
            let woken = relimited.wake_blocked(bound, now);
            let start = SchedulerView { reservations: Seq::empty(), ..woken };
            let excused = Set::new(|r: CandidateRef| coverage::parked_in(woken.reservations, r));
            woken.lemma_kept_weaken(none, excused);
            assert forall|key: u64| #[trigger] start.lanes.contains_key(
                key,
            ) implies woken.same_head(start, key) by {
                woken.lemma_same_head(start, key);
            }
            woken.lemma_kept_frame(start, excused);
            start.lemma_wake_parked_kept(woken.reservations, now, excused);
            assert(excused.filter(
                |r: CandidateRef| !coverage::parked_in(woken.reservations, r),
            ) =~= none);
        }
    }

    // ---------- sequences ----------

    proof fn lemma_rebase_covered(self)
        requires
            self.inv(),
            self.covered(),
            self.next_job_id < u64::MAX,
        ensures
            self.rebase_sequences().covered(),
    {
        let after = self.rebase_sequences();
        let none = Set::<CandidateRef>::empty();
        self.lemma_rebase_inv();
        if self.jobs.dom().len() == 0 {
            self.lemma_covered_same(after, none);
        } else {
            assert forall|k: u64| #[trigger] after.jobs.contains_key(k) <==> self.jobs.contains_key(
                k,
            ) by {
                assert(after.jobs.dom().contains(k) <==> self.jobs.dom().contains(k));
            }
            let least = model::least_sequence(self.jobs);
            let jobs = model::ranked_jobs(self.jobs);
            let live = |key: CandidateKey|
                model::reference_alive(key.reference, self.jobs, self.lanes);
            let moved = if least == 0 {
                |key: CandidateKey| model::rekeyed_candidate(key, jobs, self.lanes)
            } else {
                |key: CandidateKey|
                    CandidateKey { sequence: model::shifted(key.sequence, least), ..key }
            };
            let from = if least == 0 {
                self.candidates.filter(live)
            } else {
                self.candidates
            };
            assert(after.candidates == model::image(from, moved)) by {
                if least != 0 {
                    super::rebase::lemma_image_same(
                        self.candidates,
                        moved,
                        |key: CandidateKey|
                            CandidateKey {
                                sequence: model::shifted(
                                    key.sequence,
                                    model::least_sequence(self.jobs),
                                ),
                                ..key
                            },
                    );
                }
            }
            assert forall|k: u64| #[trigger] after.jobs.contains_key(k) implies after.job_kept(
                k,
            ) by {
                assert(self.job_kept(k));
                if self.jobs[k].meta.lane is None && self.jobs[k].not_before is None
                    && self.jobs[k].in_candidate_heap {
                    let old = self.key_of(k);
                    assert(live(old));
                    assert(from.contains(old));
                    soundness_enqueue::lemma_image_holds(from, moved, old);
                    assert(moved(old) == after.key_of(k));
                }
            }
            assert forall|k: u64| #[trigger] after.lanes.contains_key(k) implies {
                &&& after.lane_marked(k)
                &&& after.lane_kept(k)
            } by {
                assert(self.lanes.contains_key(k));
                assert(self.lane_marked(k));
                assert(self.lane_kept(k));
                self.lemma_head_waits(k);
                self.lemma_same_head(after, k);
                if after.lanes[k].in_candidate_heap {
                    let e = choose|e: CandidateKey| #[trigger]
                        self.candidates.contains(e) && e.reference == coverage::lane_ref(k)
                            && e.effective >= self.lanes[k].candidate_effective;
                    assert(live(e));
                    assert(from.contains(e));
                    soundness_enqueue::lemma_image_holds(from, moved, e);
                    assert(after.candidates.contains(moved(e)));
                }
                if let Some(h) = self.head(k) {
                    assert(self.jobs.contains_key(h));
                }
            }
        }
    }

    proof fn lemma_take_sequence_covered(self)
        requires
            self.inv(),
            self.covered(),
            self.next_job_id < u64::MAX,
        ensures
            self.take_sequence().covered(),
    {
        if self.next_sequence == u64::MAX {
            self.lemma_rebase_covered();
        }
        self.ready_sequence().lemma_covered_same(self.take_sequence(), Set::empty());
    }

    // ---------- enqueue ----------

    // A job with a new id is in no lane yet.
    proof fn lemma_record_kept(
        self,
        recorded: SchedulerView,
        id: JobId,
        job: Job,
        excused: Set<CandidateRef>,
    )
        requires
            self.inv(),
            self.kept_but(excused),
            id.value == self.next_job_id,
            recorded.jobs == self.jobs.insert(id.value, job),
            recorded.lanes == self.lanes,
            recorded.candidates == self.candidates,
            recorded.blocked == self.blocked,
            recorded.reservations == self.reservations,
        ensures
            recorded.kept_but(excused.insert(CandidateRef::Job(id))),
    {
        let more = excused.insert(CandidateRef::Job(id));
        assert(coverage::job_ref(id.value) == CandidateRef::Job(id));
        self.lemma_kept_weaken(excused, more);
        assert forall|k: u64| #[trigger] recorded.lanes.contains_key(k) implies self.same_head(
            recorded,
            k,
        ) by {
            assert(self.lane_ok(k));
            let held = self.lanes[k].pending;
            assert(self.same_alive(recorded, held)) by {
                assert forall|i: int| 0 <= i < held.len() implies (self.jobs.contains_key(
                    (#[trigger] held[i]).1.value,
                ) <==> recorded.jobs.contains_key(held[i].1.value)) by {
                    assert(held[i].1.value < self.next_job_id);
                }
            }
            self.lemma_head_stays(recorded, k);
            self.lemma_head_waits(k);
        }
        self.lemma_kept_frame(recorded, more);
    }

    proof fn lemma_enter_lane_kept(
        self,
        recorded: SchedulerView,
        key: OutboundLaneKey,
        id: JobId,
        job: Job,
        old: Option<JobId>,
        now: Instant,
        excused: Set<CandidateRef>,
    )
        requires
            self.inv(),
            self.kept_but(excused),
            id.value == self.next_job_id,
            job.meta.lane == Some(key),
            job.lane_order is Some ==> self.lanes.contains_key(key.value),
            recorded.jobs == self.jobs.insert(id.value, job),
            recorded.lanes == self.lanes,
            recorded.candidates == self.candidates,
            recorded.blocked == self.blocked,
            recorded.reservations == self.reservations,
        ensures
            recorded.enter_lane(key, id, job.lane_order, old, now).kept_but(
                excused.remove(CandidateRef::Lane(key)),
            ),
    {
        let own = CandidateRef::Lane(key);
        let new = CandidateRef::Job(id);
        let k0 = key.value;
        assert(coverage::lane_ref(k0) == own);
        assert(coverage::job_ref(id.value) == new);
        self.lemma_record_kept(recorded, id, job, excused);
        let more = excused.insert(new).insert(own);
        recorded.lemma_kept_weaken(excused.insert(new), more);
        let inherited = job.lane_order;
        let order = recorded.lane_order_for(k0, inherited);
        let placed = recorded.insert_lane_pending(k0, id, inherited);
        let known = SchedulerView {
            jobs: placed.jobs.insert(
                id.value,
                Job { lane_order: Some(order), ..placed.jobs[id.value] },
            ),
            ..placed
        };
        let l = known.lanes[k0];
        let cleared = if old is Some && l.pending[0].1 == old->0 {
            SchedulerView {
                lanes: known.lanes.insert(
                    k0,
                    LaneView { in_candidate_heap: false, candidate_effective: 0, ..l },
                ),
                ..known
            }
        } else {
            known
        };
        let held = recorded.lane_or_empty(k0).pending;
        super::laws::lemma_renumber_keeps(recorded.jobs, held);
        lemma_renumber_marks(recorded.jobs, held);
        assert(cleared.jobs.dom() =~= recorded.jobs.dom());
        assert forall|k: u64| #[trigger] cleared.jobs.contains_key(k) && !more.contains(
            coverage::job_ref(k),
        ) implies recorded.jobs.contains_key(k) && recorded.same_marks(cleared, k) by {
            assert(recorded.jobs.dom().contains(k));
        }
        assert forall|k: u64| #[trigger] cleared.lanes.contains_key(k) implies recorded.mark_stays(
            cleared,
            k,
        ) by {}
        assert forall|k: u64| #[trigger] cleared.lanes.contains_key(k) && !more.contains(
            coverage::lane_ref(k),
        ) implies recorded.same_head(cleared, k) by {
            assert(k != k0);
            assert(cleared.lanes[k] == recorded.lanes[k]);
            recorded.lemma_same_head(cleared, k);
            if let Some(h) = recorded.head(k) {
                assert(recorded.jobs.contains_key(h));
                self.lemma_head_waits(k);
                assert(self.lane_ok(k));
                let pending = self.lanes[k].pending;
                assert(self.same_alive(recorded, pending)) by {
                    assert forall|i: int| 0 <= i < pending.len() implies (self.jobs.contains_key(
                        (#[trigger] pending[i]).1.value,
                    ) <==> recorded.jobs.contains_key(pending[i].1.value)) by {
                        assert(pending[i].1.value < self.next_job_id);
                    }
                }
                self.lemma_head_stays(recorded, k);
                assert(h != id.value);
            }
        }
        recorded.lemma_kept_frame(cleared, more);
        cleared.lemma_push_lane_kept(key, now, more);
        let after = cleared.push_lane_head_candidate(key, now);
        let left = more.remove(own);
        assert(after.jobs == cleared.jobs);
        assert(recorded.jobs.contains_key(id.value));
        assert(placed.jobs[id.value].meta == job.meta);
        assert(after.job_kept(id.value));
        after.lemma_excuse_not_needed(new, left);
        assert(left.remove(new).subset_of(excused.remove(own)));
        after.lemma_kept_weaken(left.remove(new), excused.remove(own));
    }

    pub proof fn lemma_accept_covered(
        self,
        meta: OutboundMeta,
        mode: OutboundEnqueueMode,
        not_before: Option<Instant>,
        now: Instant,
    )
        requires
            self.inv(),
            self.covered(),
            self.next_job_id < u64::MAX,
            self.refusal(meta, mode) is None,
        ensures
            self.accept(meta, mode, not_before, now).covered(),
    {
        let none = Set::<CandidateRef>::empty();
        self.lemma_before_insert(meta, mode, not_before, now);
        self.lemma_accept_inv(meta, mode, not_before, now);
        let old = self.replaced_by(meta, mode);
        let ready = self.before_insert(meta, mode);
        let id = JobId { value: ready.next_job_id };
        let job = self.new_job(meta, mode, not_before, now);
        let recorded = SchedulerView {
            jobs: ready.jobs.insert(id.value, job),
            next_job_id: (ready.next_job_id + 1) as u64,
            delayed: match not_before {
                Some(until) => ready.delayed.insert(
                    DelayedJob { not_before: until, sequence: job.sequence, job: id },
                ),
                None => ready.delayed,
            },
            ..ready
        };
        let excused = match old {
            Some(gone) => none.insert(self.reference_of(gone)),
            None => none,
        };
        match old {
            Some(gone) => {
                let slot = SchedulerView::slot_of(meta, mode)->0;
                assert(self.coalesce.contains_key(slot));
                assert(self.jobs[gone.value].meta.lane == meta.lane);
                self.lemma_remove_waiting_kept(gone);
            },
            None => self.lemma_take_sequence_covered(),
        }
        assert(ready.kept_but(excused));
        let queued = match meta.lane {
            Some(key) => recorded.enter_lane(key, id, job.lane_order, old, now),
            None => if not_before is None {
                recorded.push_job_candidate(id, now)
            } else {
                recorded
            },
        };
        match meta.lane {
            Some(key) => {
                ready.lemma_enter_lane_kept(recorded, key, id, job, old, now, excused);
                assert(excused.remove(CandidateRef::Lane(key)) =~= none);
            },
            None => {
                ready.lemma_record_kept(recorded, id, job, excused);
                let new = CandidateRef::Job(id);
                let more = excused.insert(new);
                let left = more.remove(new);
                if not_before is None {
                    recorded.lemma_push_job_kept(id, now, more);
                } else {
                    assert(recorded.job_kept(id.value));
                    recorded.lemma_excuse_not_needed(new, more);
                }
                assert(queued.kept_but(left));
                if let Some(gone) = old {
                    let lost = self.reference_of(gone);
                    assert(lost == CandidateRef::Job(gone));
                    assert(gone.value != id.value);
                    assert(queued.jobs.dom() =~= recorded.jobs.dom());
                    assert(!queued.jobs.dom().contains(gone.value));
                    queued.lemma_excuse_not_needed(lost, left);
                    assert(left.remove(lost) =~= none);
                } else {
                    assert(left =~= none);
                }
            },
        }
        assert(queued.covered());
        let slotted = match SchedulerView::slot_of(meta, mode) {
            Some(key) => SchedulerView { coalesce: queued.coalesce.insert(key, id), ..queued },
            None => queued,
        };
        queued.lemma_covered_same(slotted, none);
        let compact = slotted.compact_delayed();
        slotted.lemma_covered_same(compact, none);
        assert(slotted == self.queued(meta, mode, not_before, now));
        compact.lemma_compact_candidates_covered();
    }
}

// Renumbering a lane leaves the candidate marks alone.
pub proof fn lemma_renumber_marks(jobs: Map<u64, Job>, pending: Seq<(u64, JobId)>)
    ensures
        model::renumber_jobs(jobs, pending).dom() == jobs.dom(),
        forall|k: u64| #[trigger]
            jobs.contains_key(k) ==> {
                let job = model::renumber_jobs(jobs, pending)[k];
                &&& job.in_candidate_heap == jobs[k].in_candidate_heap
                &&& job.candidate_effective == jobs[k].candidate_effective
            },
    decreases pending.len(),
{
    if pending.len() > 0 {
        lemma_renumber_marks(jobs, pending.drop_last());
        assert(model::renumber_jobs(jobs, pending).dom() =~= jobs.dom());
    }
}

} // verus!
