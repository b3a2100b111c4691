//! What holds of every reachable scheduler state.

use super::entries::{
    AgingEvent, BlockedJob, CandidateKey, CandidateRef, CoalesceKey, DelayedJob, Job,
};
use super::lane::LaneView;
use super::model::SchedulerView;
use super::{entries, lane, model};
use crate::time::Instant;
use crate::types::{AgingPolicy, JobId, OutboundLaneKey, OutboundLimits};
use vstd::multiset::Multiset;
use vstd::prelude::*;

verus! {

broadcast use vstd::multiset::group_multiset_axioms;

impl SchedulerView {
    /// A reference to an unlaned job: the id has been issued, and if the job
    /// still waits it has no lane and no delay.
    pub open spec fn ref_ok(self, reference: CandidateRef) -> bool {
        match reference {
            CandidateRef::Job(id) => {
                &&& id.value < self.next_job_id
                &&& self.jobs.contains_key(id.value) ==> self.jobs[id.value].meta.lane is None
                    && self.jobs[id.value].not_before is None
            },
            CandidateRef::Lane(_) => true,
        }
    }

    /// Every id in use has been issued, and a job does not wait and run at
    /// the same time.
    pub open spec fn ids_inv(self) -> bool {
        &&& self.jobs.dom().finite()
        &&& forall|k: u64| #[trigger] self.jobs.contains_key(k) ==> k < self.next_job_id
        &&& forall|k: u64| #[trigger]
            self.in_flight.contains_key(k) ==> k < self.next_job_id && !self.jobs.contains_key(k)
    }

    /// Every reference in a queue is in order.
    pub open spec fn refs_inv(self) -> bool {
        &&& forall|key: CandidateKey| #[trigger]
            self.candidates.contains(key) ==> self.ref_ok(key.reference)
        &&& forall|entry: BlockedJob| #[trigger]
            self.blocked.contains(entry) ==> self.ref_ok(entry.reference)
        &&& forall|event: AgingEvent| #[trigger]
            self.aging_events.contains(event) ==> self.ref_ok(event.reference)
        &&& forall|i: int, j: int|
            0 <= i < self.reservations.len() && 0 <= j < self.reservations[i].queue.len()
                ==> self.ref_ok(#[trigger] self.reservations[i].queue[j])
    }

    /// A lane in order: its entries are sorted, have been issued, and those
    /// of waiting jobs agree with the jobs; what is in flight belongs to it.
    pub open spec fn lane_ok(self, key: u64) -> bool {
        let l = self.lanes[key];
        &&& lane::in_lane_order(l.pending)
        &&& no_repeats(l.pending)
        &&& forall|i: int|
            0 <= i < l.pending.len() ==> {
                let entry = #[trigger] l.pending[i];
                &&& entry.1.value < self.next_job_id
                &&& l.next_order != 0 ==> entry.0 < l.next_order
                &&& self.jobs.contains_key(entry.1.value) ==> {
                    &&& self.jobs[entry.1.value].meta.lane == Some(OutboundLaneKey { value: key })
                    &&& self.jobs[entry.1.value].lane_order == Some(entry.0)
                }
            }
        &&& l.in_flight matches Some(id) ==> {
            &&& self.in_flight.contains_key(id.value)
            &&& self.in_flight[id.value].lane == Some(OutboundLaneKey { value: key })
        }
    }

    /// A waiting job with a lane has its place in it.
    pub open spec fn member_ok(self, id: u64) -> bool {
        self.jobs[id].meta.lane matches Some(key) ==> {
            &&& self.lanes.contains_key(key.value)
            &&& self.jobs[id].lane_order is Some
            &&& self.lanes[key.value].pending.contains(
                (self.jobs[id].lane_order->0, JobId { value: id }),
            )
        }
    }

    /// A job in flight with a lane holds the lane.
    pub open spec fn flight_ok(self, id: u64) -> bool {
        self.in_flight[id].lane matches Some(key) ==> {
            &&& self.lanes.contains_key(key.value)
            &&& self.lanes[key.value].in_flight == Some(JobId { value: id })
        }
    }

    pub open spec fn lanes_inv(self) -> bool {
        &&& forall|key: u64| #[trigger] self.lanes.contains_key(key) ==> self.lane_ok(key)
        &&& forall|id: u64| #[trigger] self.jobs.contains_key(id) ==> self.member_ok(id)
        &&& forall|id: u64| #[trigger] self.in_flight.contains_key(id) ==> self.flight_ok(id)
    }

    /// A latest-wins slot names a waiting job of that slot, and a waiting job
    /// of a slot is the one the slot names.
    pub open spec fn slots_inv(self) -> bool {
        &&& forall|slot: CoalesceKey| #[trigger]
            self.coalesce.contains_key(slot) ==> {
                &&& self.jobs.contains_key(self.coalesce[slot].value)
                &&& self.jobs[self.coalesce[slot].value].coalesce_key == Some(slot)
            }
        &&& forall|id: u64| #[trigger]
            self.jobs.contains_key(id) ==> (self.jobs[id].coalesce_key matches Some(slot) ==> {
                &&& self.coalesce.contains_key(slot)
                &&& self.coalesce[slot] == JobId { value: id }
                &&& slot.scope == self.jobs[id].meta.scope
                &&& slot.lane == self.jobs[id].meta.lane
                &&& slot.class == self.jobs[id].meta.class
            })
    }

    /// Waiting jobs have different sequences, all of them issued.
    pub open spec fn sequences_inv(self) -> bool {
        &&& forall|a: u64| #[trigger]
            self.jobs.contains_key(a) ==> self.jobs[a].sequence < self.next_sequence
        &&& forall|a: u64, b: u64|
            #![trigger self.jobs.contains_key(a), self.jobs.contains_key(b)]
            self.jobs.contains_key(a) && self.jobs.contains_key(b) && a != b
                ==> self.jobs[a].sequence != self.jobs[b].sequence
    }

    /// A delayed job has an entry in the delayed queue, at its deadline.
    pub open spec fn delayed_inv(self) -> bool {
        &&& forall|entry: DelayedJob| #[trigger]
            self.delayed.contains(entry) ==> {
                &&& entry.job.value < self.next_job_id
                &&& self.jobs.contains_key(entry.job.value)
                    && self.jobs[entry.job.value].not_before is Some
                    ==> self.jobs[entry.job.value].not_before == Some(entry.not_before)
            }
        &&& forall|id: u64| #[trigger]
            self.jobs.contains_key(id) && self.jobs[id].not_before is Some ==> has_entry(
                self.delayed,
                id,
            )
    }

    /// Every waiting job fits every window that applies to it.
    pub open spec fn weights_inv(self) -> bool {
        forall|id: u64| #[trigger]
            self.jobs.contains_key(id) ==> {
                &&& model::too_small(self.global_limits, self.jobs[id].meta.weight@) is None
                &&& model::too_small_in_chat(
                    self.chat_limits,
                    self.jobs[id].meta.scope,
                    self.jobs[id].meta.weight@,
                ) is None
            }
    }

    /// The windows are those of the limits.
    pub open spec fn windows_inv(self) -> bool {
        &&& windows_match(self.global_windows, self.global_limits)
        &&& forall|chat: u64| #[trigger]
            self.chat_window_sets.contains_key(chat) ==> windows_match(
                self.chat_window_sets[chat],
                crate::window::applicable(self.chat_limits, chat),
            )
    }

    /// What holds of every reachable state.
    pub open spec fn inv(self) -> bool {
        &&& self.ids_inv()
        &&& self.refs_inv()
        &&& self.lanes_inv()
        &&& self.slots_inv()
        &&& self.sequences_inv()
        &&& self.delayed_inv()
        &&& self.weights_inv()
        &&& self.windows_inv()
    }
}

/// No job is listed twice.
pub open spec fn no_repeats(pending: Seq<(u64, JobId)>) -> bool {
    forall|i: int, j: int|
        0 <= i < j < pending.len() ==> (#[trigger] pending[i]).1 != (#[trigger] pending[j]).1
}

/// Whether the delayed queue holds an entry of the job.
pub open spec fn has_entry(delayed: Multiset<DelayedJob>, id: u64) -> bool {
    exists|entry: DelayedJob| #[trigger] delayed.contains(entry) && entry.job.value == id
}

/// Whether a set of windows has the given limits.
pub open spec fn windows_match(
    windows: Seq<crate::window::WindowView>,
    limits: Seq<crate::types::WindowLimit>,
) -> bool {
    &&& windows.len() == limits.len()
    &&& forall|i: int|
        0 <= i < windows.len() ==> (#[trigger] windows[i]).capacity == limits[i].capacity
            && windows[i].window == limits[i].window
}

impl SchedulerView {
    pub proof fn lemma_fresh_inv(limits: OutboundLimits, aging: AgingPolicy)
        ensures
            SchedulerView::fresh(limits, aging).inv(),
    {
    }

    // ---------- candidates ----------

    pub proof fn lemma_schedule_aging_inv(
        self,
        reference: CandidateRef,
        keyed: u8,
        base: u8,
        ready_at: Instant,
    )
        requires
            self.inv(),
            self.ref_ok(reference),
        ensures
            self.schedule_aging(reference, keyed, base, ready_at).inv(),
    {
        let after = self.schedule_aging(reference, keyed, base, ready_at);
        after.lemma_same_lanes(self);
        assert(forall|r: CandidateRef| self.ref_ok(r) ==> #[trigger] after.ref_ok(r));
        assert forall|event: AgingEvent| #[trigger]
            after.aging_events.contains(event) implies after.ref_ok(event.reference) by {
            if !self.aging_events.contains(event) {
                assert(event.reference == reference);
            }
        }
    }

    pub proof fn lemma_push_key_inv(self, reference: CandidateRef, job: Job, now: Instant)
        requires
            self.inv(),
            self.ref_ok(reference),
        ensures
            self.push_key(reference, job, now).inv(),
    {
        let level = entries::effective(job, self.aging, now);
        let key = CandidateKey { effective: level, sequence: job.sequence, reference };
        let with_key = SchedulerView { candidates: self.candidates.insert(key), ..self };
        assert(with_key.inv()) by {
            assert forall|k: CandidateKey| #[trigger]
                with_key.candidates.contains(k) implies with_key.ref_ok(k.reference) by {
                if k != key {
                    assert(self.candidates.contains(k));
                }
            }
            with_key.lemma_same_lanes(self);
        }
        with_key.lemma_schedule_aging_inv(
            reference,
            level,
            job.meta.priority.value,
            job.ready_at,
        );
    }

    /// The lanes stay in order if nothing they speak of changes.
    pub proof fn lemma_same_lanes(self, before: SchedulerView)
        requires
            before.lanes_inv(),
            self.lanes == before.lanes,
            self.jobs == before.jobs,
            self.in_flight == before.in_flight,
            self.next_job_id == before.next_job_id,
        ensures
            self.lanes_inv(),
    {
        assert forall|key: u64| #[trigger] self.lanes.contains_key(key) implies self.lane_ok(
            key,
        ) by {
            assert(before.lane_ok(key));
        }
        assert forall|id: u64| #[trigger] self.jobs.contains_key(id) implies self.member_ok(
            id,
        ) by {
            assert(before.member_ok(id));
        }
        assert forall|id: u64| #[trigger] self.in_flight.contains_key(id) implies self.flight_ok(
            id,
        ) by {
            assert(before.flight_ok(id));
        }
    }

    /// The invariant survives a change of a job that keeps what the
    /// invariant speaks of.
    pub proof fn lemma_retouch(self, id: u64, job: Job)
        requires
            self.inv(),
            self.jobs.contains_key(id),
            job.meta == self.jobs[id].meta,
            job.sequence == self.jobs[id].sequence,
            job.coalesce_key == self.jobs[id].coalesce_key,
            job.lane_order == self.jobs[id].lane_order,
            job.not_before == self.jobs[id].not_before,
        ensures
            (SchedulerView { jobs: self.jobs.insert(id, job), ..self }).inv(),
    {
        let after = SchedulerView { jobs: self.jobs.insert(id, job), ..self };
        assert(after.jobs.dom() =~= self.jobs.dom());
        assert(after.ids_inv());
        assert forall|r: CandidateRef| self.ref_ok(r) implies #[trigger] after.ref_ok(r) by {}
        assert(after.refs_inv());
        assert(after.lanes_inv()) by {
            assert forall|key: u64| #[trigger]
                after.lanes.contains_key(key) implies after.lane_ok(key) by {
                assert(self.lane_ok(key));
            }
            assert forall|k: u64| #[trigger] after.jobs.contains_key(k) implies after.member_ok(
                k,
            ) by {
                assert(self.jobs.contains_key(k));
                assert(self.member_ok(k));
            }
            assert forall|k: u64| #[trigger]
                after.in_flight.contains_key(k) implies after.flight_ok(k) by {
                assert(self.flight_ok(k));
            }
        }
        assert(after.slots_inv()) by {
            assert forall|k: u64| #[trigger] after.jobs.contains_key(k) implies (
            after.jobs[k].coalesce_key matches Some(slot) ==> {
                &&& after.coalesce.contains_key(slot)
                &&& after.coalesce[slot] == JobId { value: k }
                &&& slot.scope == after.jobs[k].meta.scope
                &&& slot.lane == after.jobs[k].meta.lane
                &&& slot.class == after.jobs[k].meta.class
            }) by {
                assert(self.jobs.contains_key(k));
            }
        }
        assert(after.sequences_inv()) by {
            assert forall|a: u64, b: u64|
                #![trigger after.jobs.contains_key(a), after.jobs.contains_key(b)]
                after.jobs.contains_key(a) && after.jobs.contains_key(b) && a != b implies
                after.jobs[a].sequence != after.jobs[b].sequence by {
                assert(self.jobs.contains_key(a) && self.jobs.contains_key(b));
            }
            assert forall|a: u64| #[trigger] after.jobs.contains_key(a) implies
                after.jobs[a].sequence < after.next_sequence by {
                assert(self.jobs.contains_key(a));
            }
        }
        assert(after.delayed_inv()) by {
            assert forall|k: u64| #[trigger] after.jobs.contains_key(k)
                && after.jobs[k].not_before is Some implies has_entry(after.delayed, k) by {
                assert(self.jobs.contains_key(k));
            }
        }
        assert(after.weights_inv()) by {
            assert forall|k: u64| #[trigger] after.jobs.contains_key(k) implies {
                &&& model::too_small(after.global_limits, after.jobs[k].meta.weight@) is None
                &&& model::too_small_in_chat(
                    after.chat_limits,
                    after.jobs[k].meta.scope,
                    after.jobs[k].meta.weight@,
                ) is None
            } by {
                assert(self.jobs.contains_key(k));
            }
        }
    }

    pub proof fn lemma_push_job_inv(self, id: JobId, now: Instant)
        requires
            self.inv(),
            self.ref_ok(CandidateRef::Job(id)),
        ensures
            self.push_job_candidate(id, now).inv(),
    {
        if self.jobs.contains_key(id.value) {
            let job = self.jobs[id.value];
            let noted = Job {
                in_candidate_heap: true,
                candidate_effective: entries::effective(job, self.aging, now),
                ..job
            };
            self.lemma_retouch(id.value, noted);
            let with_job = SchedulerView { jobs: self.jobs.insert(id.value, noted), ..self };
            with_job.lemma_push_key_inv(CandidateRef::Job(id), job, now);
        }
    }

    /// The invariant survives dropping dead head entries and new candidate
    /// marks of a lane.
    pub proof fn lemma_retouch_lane(self, key: u64, l: LaneView)
        requires
            self.inv(),
            self.lanes.contains_key(key),
            l.in_flight == self.lanes[key].in_flight,
            l.next_order == self.lanes[key].next_order,
            l.pending == self.lanes[key].pending || l.pending == lane::drop_dead(
                self.lanes[key].pending,
                self.jobs,
            ),
        ensures
            (SchedulerView { lanes: self.lanes.insert(key, l), ..self }).inv(),
    {
        let after = SchedulerView { lanes: self.lanes.insert(key, l), ..self };
        let held = self.lanes[key];
        lane::lemma_drop_dead_is_suffix(held.pending, self.jobs);
        let cut = held.pending.len() - l.pending.len();
        assert(self.lane_ok(key));
        assert forall|i: int| 0 <= i < l.pending.len() implies #[trigger] l.pending[i]
            == held.pending[i + cut] by {}
        assert forall|k: u64| #[trigger] after.lanes.contains_key(k) implies after.lane_ok(k) by {
            if k != key {
                assert(self.lane_ok(k));
            } else {
                assert(lane::in_lane_order(l.pending));
            }
        }
        assert forall|id: u64| #[trigger] after.jobs.contains_key(id) implies after.member_ok(
            id,
        ) by {
            assert(self.member_ok(id));
            if self.jobs[id].meta.lane == Some(OutboundLaneKey { value: key }) {
                let entry = (self.jobs[id].lane_order->0, JobId { value: id });
                let i = choose|i: int| 0 <= i < held.pending.len() && held.pending[i] == entry;
                assert(i >= cut) by {
                    if i < cut {
                        assert(!self.jobs.contains_key(held.pending[i].1.value));
                    }
                }
                assert(l.pending[i - cut] == entry);
            }
        }
        assert forall|id: u64| #[trigger] after.in_flight.contains_key(id) implies after.flight_ok(
            id,
        ) by {
            assert(self.flight_ok(id));
        }
        assert(after.refs_inv()) by {
            assert forall|r: CandidateRef| self.ref_ok(r) implies #[trigger] after.ref_ok(r) by {}
        }
    }

    /// A free lane without a waiting job can go away.
    pub proof fn lemma_drop_lane(self, key: u64)
        requires
            self.inv(),
            self.lanes.contains_key(key),
            self.lanes[key].in_flight is None,
            lane::drop_dead(self.lanes[key].pending, self.jobs).len() == 0,
        ensures
            (SchedulerView { lanes: self.lanes.remove(key), ..self }).inv(),
    {
        let after = SchedulerView { lanes: self.lanes.remove(key), ..self };
        let held = self.lanes[key];
        lane::lemma_drop_dead_is_suffix(held.pending, self.jobs);
        assert forall|k: u64| #[trigger] after.lanes.contains_key(k) implies after.lane_ok(k) by {
            assert(self.lane_ok(k));
        }
        assert forall|id: u64| #[trigger] after.jobs.contains_key(id) implies after.member_ok(
            id,
        ) by {
            assert(self.member_ok(id));
            if self.jobs[id].meta.lane == Some(OutboundLaneKey { value: key }) {
                let entry = (self.jobs[id].lane_order->0, JobId { value: id });
                let i = choose|i: int| 0 <= i < held.pending.len() && held.pending[i] == entry;
                assert(!self.jobs.contains_key(held.pending[i].1.value));
            }
        }
        assert forall|id: u64| #[trigger] after.in_flight.contains_key(id) implies after.flight_ok(
            id,
        ) by {
            assert(self.flight_ok(id));
        }
        assert(after.refs_inv()) by {
            assert forall|r: CandidateRef| self.ref_ok(r) implies #[trigger] after.ref_ok(r) by {}
        }
    }

    pub proof fn lemma_push_lane_inv(self, key: OutboundLaneKey, now: Instant)
        requires
            self.inv(),
        ensures
            self.push_lane_head_candidate(key, now).inv(),
    {
        if self.lanes.contains_key(key.value) && self.lanes[key.value].in_flight is None {
            let drained = self.lanes[key.value].drained(self.jobs);
            if drained.pending.len() == 0 {
                self.lemma_drop_lane(key.value);
            } else {
                let job = self.jobs[drained.pending[0].1.value];
                if entries::delayed_at(job, now) || drained.in_candidate_heap {
                    self.lemma_retouch_lane(key.value, drained);
                } else {
                    let marked = LaneView {
                        in_candidate_heap: true,
                        candidate_effective: entries::effective(job, self.aging, now),
                        ..drained
                    };
                    self.lemma_retouch_lane(key.value, marked);
                    let with_lane = SchedulerView {
                        lanes: self.lanes.insert(key.value, marked),
                        ..self
                    };
                    with_lane.lemma_push_key_inv(CandidateRef::Lane(key), job, now);
                }
            }
        }
    }

    pub proof fn lemma_push_reference_inv(self, reference: CandidateRef, now: Instant)
        requires
            self.inv(),
            self.ref_ok(reference),
        ensures
            self.push_reference(reference, now).inv(),
    {
        match reference {
            CandidateRef::Job(id) => self.lemma_push_job_inv(id, now),
            CandidateRef::Lane(key) => self.lemma_push_lane_inv(key, now),
        }
    }

    // ---------- removal ----------

    pub proof fn lemma_remove_waiting_inv(self, id: JobId)
        requires
            self.inv(),
        ensures
            self.remove_waiting(id).inv(),
            self.remove_waiting(id).jobs == self.jobs.remove(id.value),
            self.remove_waiting(id).next_job_id == self.next_job_id,
            self.remove_waiting(id).next_sequence == self.next_sequence,
    {
        let after = self.remove_waiting(id);
        if !self.jobs.contains_key(id.value) {
            assert(self.jobs.remove(id.value) =~= self.jobs);
        } else {
            let job = self.jobs[id.value];
            assert(self.member_ok(id.value));
            assert(after.jobs.dom() =~= self.jobs.dom().remove(id.value));
            assert(forall|k: u64| #[trigger]
                after.jobs.contains_key(k) ==> self.jobs.contains_key(k) && after.jobs[k]
                    == self.jobs[k]);
            assert(after.ids_inv());
            assert forall|r: CandidateRef| self.ref_ok(r) implies #[trigger] after.ref_ok(r) by {}
            assert(after.refs_inv());
            assert(after.lanes_inv()) by {
                assert forall|k: u64| #[trigger]
                    after.lanes.contains_key(k) implies after.lane_ok(k) by {
                    assert(self.lanes.contains_key(k));
                    assert(self.lane_ok(k));
                }
                assert forall|k: u64| #[trigger]
                    after.jobs.contains_key(k) implies after.member_ok(k) by {
                    assert(self.member_ok(k));
                }
                assert forall|k: u64| #[trigger]
                    after.in_flight.contains_key(k) implies after.flight_ok(k) by {
                    assert(self.flight_ok(k));
                }
            }
            assert(after.slots_inv()) by {
                assert forall|slot: CoalesceKey| #[trigger]
                    after.coalesce.contains_key(slot) implies {
                    &&& after.jobs.contains_key(after.coalesce[slot].value)
                    &&& after.jobs[after.coalesce[slot].value].coalesce_key == Some(slot)
                } by {
                    assert(self.coalesce.contains_key(slot));
                    if self.coalesce[slot].value == id.value {
                        assert(self.coalesce[slot] == id);
                        assert(job.coalesce_key == Some(slot));
                    }
                }
                assert forall|k: u64| #[trigger] after.jobs.contains_key(k) implies (
                after.jobs[k].coalesce_key matches Some(slot) ==> {
                    &&& after.coalesce.contains_key(slot)
                    &&& after.coalesce[slot] == JobId { value: k }
                    &&& slot.scope == after.jobs[k].meta.scope
                    &&& slot.lane == after.jobs[k].meta.lane
                    &&& slot.class == after.jobs[k].meta.class
                }) by {
                    assert(self.jobs.contains_key(k));
                    assert(self.jobs.contains_key(id.value));
                }
            }
            assert(after.sequences_inv()) by {
                assert forall|a: u64, b: u64|
                    #![trigger after.jobs.contains_key(a), after.jobs.contains_key(b)]
                    after.jobs.contains_key(a) && after.jobs.contains_key(b) && a != b implies
                    after.jobs[a].sequence != after.jobs[b].sequence by {
                    assert(self.jobs.contains_key(a) && self.jobs.contains_key(b));
                }
            }
            assert(after.delayed_inv());
            assert(after.weights_inv());
        }
    }

    /// The invariant survives losing entries of the queues that the
    /// invariant does not ask for.
    pub proof fn lemma_fewer_entries(self, after: SchedulerView)
        requires
            self.inv(),
            after.jobs == self.jobs,
            after.lanes == self.lanes,
            after.in_flight == self.in_flight,
            after.next_job_id == self.next_job_id,
            after.next_sequence == self.next_sequence,
            after.coalesce == self.coalesce,
            after.global_limits == self.global_limits,
            after.chat_limits == self.chat_limits,
            after.windows_inv(),
            forall|k: CandidateKey| #[trigger]
                after.candidates.contains(k) ==> self.candidates.contains(k),
            forall|k: BlockedJob| #[trigger]
                after.blocked.contains(k) ==> self.blocked.contains(k) || self.ref_ok(
                    k.reference,
                ),
            forall|k: AgingEvent| #[trigger]
                after.aging_events.contains(k) ==> self.aging_events.contains(k),
            forall|k: DelayedJob| #[trigger]
                after.delayed.contains(k) ==> self.delayed.contains(k),
            forall|k: DelayedJob| #[trigger]
                self.delayed.contains(k) && self.jobs.contains_key(k.job.value)
                    ==> after.delayed.contains(k),
            forall|i: int, j: int|
                0 <= i < after.reservations.len() && 0 <= j < after.reservations[i].queue.len()
                    ==> self.ref_ok(#[trigger] after.reservations[i].queue[j]),
        ensures
            after.inv(),
    {
        after.lemma_same_lanes(self);
        assert forall|r: CandidateRef| self.ref_ok(r) implies #[trigger] after.ref_ok(r) by {}
        assert(after.refs_inv()) by {
            assert forall|i: int, j: int|
                0 <= i < after.reservations.len() && 0 <= j
                    < after.reservations[i].queue.len() implies after.ref_ok(
                #[trigger] after.reservations[i].queue[j],
            ) by {
                assert(self.ref_ok(after.reservations[i].queue[j]));
            }
        }
        assert(after.delayed_inv()) by {
            assert forall|id: u64| #[trigger] after.jobs.contains_key(id)
                && after.jobs[id].not_before is Some implies has_entry(after.delayed, id) by {
                assert(self.jobs.contains_key(id));
                let entry = choose|entry: DelayedJob| #[trigger]
                    self.delayed.contains(entry) && entry.job.value == id;
                assert(after.delayed.contains(entry));
            }
        }
    }

    pub proof fn lemma_compact_delayed_inv(self)
        requires
            self.inv(),
        ensures
            self.compact_delayed().inv(),
    {
        self.lemma_fewer_entries(self.compact_delayed());
    }

    pub proof fn lemma_compact_candidates_inv(self)
        requires
            self.inv(),
        ensures
            self.compact_candidates().inv(),
    {
        self.lemma_fewer_entries(self.compact_candidates());
    }

    pub proof fn lemma_cancel_inv(self, id: JobId)
        requires
            self.inv(),
        ensures
            self.without(id).inv(),
            self.cancel(id).inv(),
    {
        self.lemma_remove_waiting_inv(id);
        self.remove_waiting(id).lemma_compact_delayed_inv();
        if self.jobs.contains_key(id.value) {
            let reference = self.reference_of(id);
            let zero = Instant { nanos: 0 };
            self.without(id).lemma_release_holds_inv(reference, zero);
            let released = self.without(id).release_holds(reference, zero);
            if let CandidateRef::Lane(key) = reference {
                released.lemma_rouse_lane_inv(key);
            }
        }
    }

    proof fn lemma_rouse_lane_inv(self, key: OutboundLaneKey)
        requires
            self.inv(),
        ensures
            self.rouse_lane(key).inv(),
    {
        let after = self.rouse_lane(key);
        if self.lanes.contains_key(key.value) && self.lanes[key.value].in_flight is None {
            let l = self.lanes[key.value];
            let entry = BlockedJob {
                until: Instant { nanos: 0 },
                reference: CandidateRef::Lane(key),
            };
            let noted = SchedulerView { blocked: self.blocked.insert(entry), ..self };
            assert forall|e: BlockedJob| #[trigger] noted.blocked.contains(e) implies e == entry
                || self.blocked.contains(e) by {}
            self.lemma_fewer_entries(noted);
            if !lane::has_live(l.pending, self.jobs) {
                noted.lemma_retouch_lane(
                    key.value,
                    LaneView { in_candidate_heap: false, candidate_effective: 0, ..l },
                );
            }
        }
    }

    pub proof fn lemma_release_holds_inv(self, owner: CandidateRef, now: Instant)
        requires
            self.inv(),
        ensures
            self.release_holds(owner, now).inv(),
    {
        self.lemma_fewer_entries(self.release_holds(owner, now));
    }

    pub proof fn lemma_cancel_at_inv(self, id: JobId, now: Instant)
        requires
            self.inv(),
        ensures
            self.cancel_at(id, now).inv(),
    {
        self.lemma_cancel_inv(id);
        if self.jobs.contains_key(id.value) {
            let reference = self.reference_of(id);
            self.without(id).lemma_release_holds_inv(reference, now);
            if let CandidateRef::Lane(key) = reference {
                self.without(id).release_holds(reference, now).lemma_push_lane_inv(key, now);
            }
        }
    }
}

} // verus!
