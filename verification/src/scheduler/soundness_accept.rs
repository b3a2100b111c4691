//! The invariant across the taking in of a job.

use super::entries::{CandidateRef, CoalesceKey, DelayedJob, Job};
use super::lane::LaneView;
use super::model::SchedulerView;
use super::{lane, model, soundness};
use crate::time::Instant;
use crate::types::{JobId, OutboundEnqueueMode, OutboundLaneKey, OutboundMeta};
use vstd::prelude::*;

verus! {

broadcast use vstd::multiset::group_multiset_axioms;

/// A lane lists at most as many entries as ids have been issued.
proof fn lemma_few_entries(pending: Seq<(u64, JobId)>, bound: u64)
    requires
        soundness::no_repeats(pending),
        forall|i: int| 0 <= i < pending.len() ==> (#[trigger] pending[i]).1.value < bound,
    ensures
        pending.len() <= bound,
    decreases bound,
{
    if pending.len() > 0 {
        let before = (bound - 1) as u64;
        assert(pending[0].1.value < bound);
        if exists|i: int| 0 <= i < pending.len() && (#[trigger] pending[i]).1.value == before {
            let at = choose|i: int|
                0 <= i < pending.len() && (#[trigger] pending[i]).1.value == before;
            let rest = pending.remove(at);
            assert forall|i: int| 0 <= i < rest.len() implies (#[trigger] rest[i]).1.value
                < before by {
                if i < at {
                    assert(rest[i] == pending[i]);
                    assert(pending[i].1 != pending[at].1);
                } else {
                    assert(rest[i] == pending[i + 1]);
                    assert(pending[at].1 != pending[i + 1].1);
                }
            }
            assert forall|i: int, j: int| 0 <= i < j < rest.len() implies (
            #[trigger] rest[i]).1 != (#[trigger] rest[j]).1 by {
                let a = if i < at {
                    i
                } else {
                    i + 1
                };
                let b = if j < at {
                    j
                } else {
                    j + 1
                };
                assert(rest[i] == pending[a] && rest[j] == pending[b]);
            }
            lemma_few_entries(rest, before);
        } else {
            assert forall|i: int| 0 <= i < pending.len() implies (#[trigger] pending[i]).1.value
                < before by {
                assert(pending[i].1.value < bound);
            }
            lemma_few_entries(pending, before);
        }
    }
}

/// Numbering the entries of a lane from zero tells each waiting job its new
/// place and changes nothing else.
proof fn lemma_renumber_jobs(jobs: Map<u64, Job>, pending: Seq<(u64, JobId)>)
    requires
        soundness::no_repeats(pending),
    ensures
        model::renumber_jobs(jobs, pending).dom() == jobs.dom(),
        forall|i: int|
            0 <= i < pending.len() && jobs.contains_key((#[trigger] pending[i]).1.value)
                ==> model::renumber_jobs(jobs, pending)[pending[i].1.value] == (Job {
                lane_order: Some(i as u64),
                ..jobs[pending[i].1.value]
            }),
        forall|k: u64| #[trigger]
            jobs.contains_key(k) && (forall|i: int|
                0 <= i < pending.len() ==> (#[trigger] pending[i]).1.value != k)
                ==> model::renumber_jobs(jobs, pending)[k] == jobs[k],
    decreases pending.len(),
{
    if pending.len() > 0 {
        let front = pending.drop_last();
        assert forall|i: int, j: int| 0 <= i < j < front.len() implies (
        #[trigger] front[i]).1 != (#[trigger] front[j]).1 by {
            assert(pending[i].1 != pending[j].1);
        }
        lemma_renumber_jobs(jobs, front);
        let before = model::renumber_jobs(jobs, front);
        let after = model::renumber_jobs(jobs, pending);
        let last = pending.last().1;
        assert(after.dom() =~= jobs.dom());
        assert(forall|k: u64| before.contains_key(k) <==> #[trigger] jobs.contains_key(k)) by {
            assert(forall|k: u64|
                before.dom().contains(k) <==> #[trigger] jobs.dom().contains(k));
        }
        assert forall|i: int| 0 <= i < front.len() implies (#[trigger] front[i]).1.value
            != last.value by {
            assert(pending[i].1 != pending[pending.len() - 1].1);
        }
        assert forall|i: int|
            0 <= i < pending.len() && jobs.contains_key(
                (#[trigger] pending[i]).1.value,
            ) implies after[pending[i].1.value] == (Job {
            lane_order: Some(i as u64),
            ..jobs[pending[i].1.value]
        }) by {
            if i < front.len() {
                assert(front[i] == pending[i]);
            } else {
                assert(before[last.value] == jobs[last.value]);
            }
        }
        assert forall|k: u64| #[trigger] jobs.contains_key(k) && (forall|i: int|
            0 <= i < pending.len() ==> (#[trigger] pending[i]).1.value != k) implies after[k]
            == jobs[k] by {
            assert(pending[pending.len() - 1].1.value != k);
            assert forall|i: int| 0 <= i < front.len() implies (#[trigger] front[i]).1.value
                != k by {
                assert(pending[i].1.value != k);
            }
            assert(before[k] == jobs[k]);
        }
    }
}

impl SchedulerView {
    /// Readying a lane keeps the lanes in order and every job but its place.
    pub proof fn lemma_ready_lane(self, key: u64)
        requires
            self.inv(),
        ensures
            self.ready_lane(key).lanes_inv(),
            self.ready_lane(key).lanes.contains_key(key),
            self.ready_lane(key).lanes[key].next_order == 0 ==> self.ready_lane(
                key,
            ).lanes[key].pending.len() == 0,
            self.ready_lane(key).jobs.dom() == self.jobs.dom(),
            forall|k: u64| #[trigger]
                self.jobs.contains_key(k) ==> self.ready_lane(key).jobs[k] == (Job {
                    lane_order: self.ready_lane(key).jobs[k].lane_order,
                    ..self.jobs[k]
                }),
    {
        let after = self.ready_lane(key);
        let l = self.lane_or_empty(key);
        if self.lanes.contains_key(key) {
            assert(self.lane_ok(key));
        }
        if self.lane_wraps(key) {
            let held = l.pending;
            lemma_few_entries(held, self.next_job_id);
            lemma_renumber_jobs(self.jobs, held);
            assert(forall|k: u64| after.jobs.contains_key(k) <==> #[trigger] self.jobs.contains_key(k))
                by {
                assert(forall|k: u64|
                    after.jobs.dom().contains(k) <==> #[trigger] self.jobs.dom().contains(k));
            }
            assert forall|k: u64| #[trigger] self.jobs.contains_key(k) implies after.jobs[k]
                == (Job { lane_order: after.jobs[k].lane_order, ..self.jobs[k] }) by {
                if exists|i: int| 0 <= i < held.len() && (#[trigger] held[i]).1.value == k {
                    let i = choose|i: int|
                        0 <= i < held.len() && (#[trigger] held[i]).1.value == k;
                    assert(self.jobs.contains_key(held[i].1.value));
                }
            }
            let fresh = after.lanes[key].pending;
            assert forall|i: int| 0 <= i < fresh.len() implies #[trigger] fresh[i] == (
                i as u64,
                held[i].1,
            ) by {}
            assert forall|k: u64| #[trigger] after.lanes.contains_key(k) implies after.lane_ok(
                k,
            ) by {
                if k == key {
                    assert forall|i: int| 0 <= i < fresh.len() implies {
                        let entry = #[trigger] fresh[i];
                        &&& entry.1.value < after.next_job_id
                        &&& entry.0 < after.lanes[key].next_order
                        &&& after.jobs.contains_key(entry.1.value) ==> {
                            &&& after.jobs[entry.1.value].meta.lane == Some(
                                OutboundLaneKey { value: key },
                            )
                            &&& after.jobs[entry.1.value].lane_order == Some(entry.0)
                        }
                    } by {
                        assert(held[i].1.value < self.next_job_id);
                        assert(self.jobs.contains_key(held[i].1.value)
                            <==> after.jobs.contains_key(held[i].1.value));
                    }
                    assert(soundness::no_repeats(fresh)) by {
                        assert forall|i: int, j: int| 0 <= i < j < fresh.len() implies (
                        #[trigger] fresh[i]).1 != (#[trigger] fresh[j]).1 by {
                            assert(held[i].1 != held[j].1);
                        }
                    }
                } else {
                    assert(self.lane_ok(k));
                    let other = self.lanes[k].pending;
                    assert forall|i: int|
                        0 <= i < other.len() && after.jobs.contains_key(
                            (#[trigger] other[i]).1.value,
                        ) implies after.jobs[other[i].1.value] == self.jobs[other[i].1.value] by {
                        let id = other[i].1.value;
                        assert(self.jobs.contains_key(id));
                        assert(self.jobs[id].meta.lane == Some(OutboundLaneKey { value: k }));
                        assert forall|j: int| 0 <= j < held.len() implies (
                        #[trigger] held[j]).1.value != id by {
                            if held[j].1.value == id {
                                assert(self.jobs[id].meta.lane == Some(
                                    OutboundLaneKey { value: key },
                                ));
                            }
                        }
                    }
                }
            }
            assert forall|id: u64| #[trigger] after.jobs.contains_key(id) implies after.member_ok(
                id,
            ) by {
                assert(self.jobs.contains_key(id));
                assert(self.member_ok(id));
                if let Some(lane_key) = self.jobs[id].meta.lane {
                    let entry = (self.jobs[id].lane_order->0, JobId { value: id });
                    if lane_key.value == key {
                        let i = choose|i: int| 0 <= i < held.len() && held[i] == entry;
                        assert(self.jobs.contains_key(held[i].1.value));
                        assert(fresh[i] == (i as u64, JobId { value: id }));
                    } else {
                        assert forall|j: int| 0 <= j < held.len() implies (
                        #[trigger] held[j]).1.value != id by {
                            if held[j].1.value == id {
                                assert(self.jobs[id].meta.lane == Some(
                                    OutboundLaneKey { value: key },
                                ));
                            }
                        }
                    }
                }
            }
            assert forall|id: u64| #[trigger]
                after.in_flight.contains_key(id) implies after.flight_ok(id) by {
                assert(self.flight_ok(id));
            }
        } else {
            assert forall|k: u64| #[trigger] after.lanes.contains_key(k) implies after.lane_ok(
                k,
            ) by {
                if self.lanes.contains_key(k) {
                    assert(self.lane_ok(k));
                }
            }
            assert forall|id: u64| #[trigger] after.jobs.contains_key(id) implies after.member_ok(
                id,
            ) by {
                assert(self.member_ok(id));
            }
            assert forall|id: u64| #[trigger]
                after.in_flight.contains_key(id) implies after.flight_ok(id) by {
                assert(self.flight_ok(id));
            }
        }
    }

    /// Putting a job with a new id into its lane keeps the lanes in order.
    proof fn lemma_place_in_lane(
        self,
        ready: SchedulerView,
        after: SchedulerView,
        key: OutboundLaneKey,
        id: JobId,
        order: u64,
        job: Job,
    )
        requires
            ready.lanes_inv(),
            self.ids_inv(),
            id.value == self.next_job_id,
            ready.next_job_id == self.next_job_id,
            ready.in_flight == self.in_flight,
            ready.jobs.dom() == self.jobs.dom(),
            after.next_job_id == id.value + 1,
            after.in_flight == ready.in_flight,
            after.jobs == ready.jobs.insert(id.value, job),
            job.meta.lane == Some(key),
            job.lane_order == Some(order),
            after.lanes.contains_key(key.value),
            forall|k: u64|
                k != key.value ==> (#[trigger] after.lanes.contains_key(k)
                    <==> ready.lanes.contains_key(k)) && (ready.lanes.contains_key(k)
                    ==> after.lanes[k] == ready.lanes[k]),
            after.lanes[key.value].pending == lane::insert_sorted(
                ready.lane_or_empty(key.value).pending,
                (order, id),
            ),
            after.lanes[key.value].in_flight == ready.lane_or_empty(key.value).in_flight,
            after.lanes[key.value].next_order != 0 ==> order < after.lanes[key.value].next_order,
            after.lanes[key.value].next_order != 0 ==> {
                ||| ready.lane_or_empty(key.value).pending.len() == 0
                ||| ready.lane_or_empty(key.value).next_order != 0 && ready.lane_or_empty(
                    key.value,
                ).next_order <= after.lanes[key.value].next_order
            },
        ensures
            after.lanes_inv(),
    {
        let k0 = key.value;
        let held = ready.lane_or_empty(k0).pending;
        let placed = after.lanes[k0].pending;
        assert(!ready.jobs.contains_key(id.value)) by {
            assert(ready.jobs.dom().contains(id.value) <==> self.jobs.dom().contains(id.value));
            assert(self.jobs.contains_key(id.value) ==> id.value < self.next_job_id);
        }
        if ready.lanes.contains_key(k0) {
            assert(ready.lane_ok(k0));
        }
        assert(lane::in_lane_order(held));
        lane::lemma_insert_sorted_order(held, (order, id));
        assert forall|i: int| 0 <= i < placed.len() implies (#[trigger] placed[i]) == (order, id)
            || held.contains(placed[i]) by {
            assert(placed.contains(placed[i]));
        }
        assert forall|i: int| 0 <= i < placed.len() implies {
            let entry = #[trigger] placed[i];
            &&& entry.1.value < after.next_job_id
            &&& after.lanes[k0].next_order != 0 ==> entry.0 < after.lanes[k0].next_order
            &&& after.jobs.contains_key(entry.1.value) ==> {
                &&& after.jobs[entry.1.value].meta.lane == Some(key)
                &&& after.jobs[entry.1.value].lane_order == Some(entry.0)
            }
        } by {
            let entry = placed[i];
            if entry != (order, id) {
                let j = choose|j: int| 0 <= j < held.len() && held[j] == entry;
                assert(held[j].1.value < ready.next_job_id);
                assert(entry.1.value != id.value);
            }
        }
        assert(soundness::no_repeats(placed)) by {
            assert forall|i: int, j: int| 0 <= i < j < placed.len() implies (
            #[trigger] placed[i]).1 != (#[trigger] placed[j]).1 by {
                assert(lane::entry_lt(placed[i], placed[j]));
                if placed[i] == (order, id) {
                    let b = choose|b: int| 0 <= b < held.len() && held[b] == placed[j];
                    assert(held[b].1.value < ready.next_job_id);
                } else if placed[j] == (order, id) {
                    let a = choose|a: int| 0 <= a < held.len() && held[a] == placed[i];
                    assert(held[a].1.value < ready.next_job_id);
                } else {
                    let a = choose|a: int| 0 <= a < held.len() && held[a] == placed[i];
                    let b = choose|b: int| 0 <= b < held.len() && held[b] == placed[j];
                    assert(a != b);
                    if a < b {
                        assert(held[a].1 != held[b].1);
                    } else {
                        assert(held[b].1 != held[a].1);
                    }
                }
            }
        }
        assert forall|k: u64| #[trigger] after.lanes.contains_key(k) implies after.lane_ok(k) by {
            if k == k0 {
                assert(OutboundLaneKey { value: k0 } == key);
                assert(lane::in_lane_order(placed));
            } else {
                assert(ready.lane_ok(k));
                let other = ready.lanes[k].pending;
                assert forall|i: int| 0 <= i < other.len() implies (#[trigger] other[i]).1.value
                    != id.value by {
                    assert(other[i].1.value < ready.next_job_id);
                }
            }
        }
        assert forall|k: u64| #[trigger] after.jobs.contains_key(k) implies after.member_ok(k) by {
            if k == id.value {
                assert(JobId { value: k } == id);
                assert(placed.contains((order, id)));
            } else {
                assert(ready.jobs.contains_key(k));
                assert(ready.member_ok(k));
                if let Some(lane_key) = ready.jobs[k].meta.lane {
                    if lane_key.value == k0 {
                        let entry = (ready.jobs[k].lane_order->0, JobId { value: k });
                        assert(held.contains(entry));
                        assert(placed.contains(entry));
                    } else {
                        assert(after.lanes.contains_key(lane_key.value));
                    }
                }
            }
        }
        assert forall|k: u64| #[trigger] after.in_flight.contains_key(k) implies after.flight_ok(
            k,
        ) by {
            assert(ready.flight_ok(k));
            if let Some(lane_key) = ready.in_flight[k].lane {
                if lane_key.value != k0 {
                    assert(after.lanes.contains_key(lane_key.value));
                }
            }
        }
    }

    /// Recording a job with a new id keeps what does not concern lanes.
    proof fn lemma_record(
        self,
        jobs: Map<u64, Job>,
        after: SchedulerView,
        id: JobId,
        job: Job,
        slot: Option<CoalesceKey>,
    )
        requires
            self.inv(),
            id.value == self.next_job_id,
            jobs.dom() == self.jobs.dom(),
            forall|k: u64| #[trigger]
                self.jobs.contains_key(k) ==> jobs[k] == (Job {
                    lane_order: jobs[k].lane_order,
                    ..self.jobs[k]
                }),
            after.jobs == jobs.insert(id.value, job),
            after.next_job_id == id.value + 1,
            after.next_sequence == self.next_sequence,
            job.sequence < self.next_sequence,
            forall|k: u64| #[trigger]
                self.jobs.contains_key(k) ==> self.jobs[k].sequence != job.sequence,
            after.in_flight == self.in_flight,
            after.candidates == self.candidates,
            after.blocked == self.blocked,
            after.aging_events == self.aging_events,
            after.reservations == self.reservations,
            after.global_windows == self.global_windows,
            after.chat_window_sets == self.chat_window_sets,
            after.global_limits == self.global_limits,
            after.chat_limits == self.chat_limits,
            job.coalesce_key == slot,
            slot matches Some(key) ==> {
                &&& !self.coalesce.contains_key(key)
                &&& after.coalesce == self.coalesce.insert(key, id)
                &&& key.scope == job.meta.scope
                &&& key.lane == job.meta.lane
                &&& key.class == job.meta.class
            },
            slot is None ==> after.coalesce == self.coalesce,
            match job.not_before {
                Some(until) => after.delayed == self.delayed.insert(
                    DelayedJob { not_before: until, sequence: job.sequence, job: id },
                ),
                None => after.delayed == self.delayed,
            },
            model::too_small(self.global_limits, job.meta.weight@) is None,
            model::too_small_in_chat(
                    self.chat_limits,
                    job.meta.scope,
                    job.meta.weight@,
                ) is None,
            after.lanes_inv(),
        ensures
            after.inv(),
    {
        assert(forall|k: u64| jobs.contains_key(k) <==> #[trigger] self.jobs.contains_key(k)) by {
            assert(forall|k: u64|
                jobs.dom().contains(k) <==> #[trigger] self.jobs.dom().contains(k));
        }
        assert(!self.jobs.contains_key(id.value));
        assert(after.jobs.dom() =~= self.jobs.dom().insert(id.value));
        assert forall|k: u64| #[trigger] after.jobs.contains_key(k) implies k == id.value
            || self.jobs.contains_key(k) && after.jobs[k] == (Job {
            lane_order: after.jobs[k].lane_order,
            ..self.jobs[k]
        }) by {
            if k != id.value {
                assert(jobs.contains_key(k) <==> self.jobs.contains_key(k));
            }
        }
        assert(after.ids_inv());
        assert forall|r: CandidateRef| self.ref_ok(r) implies #[trigger] after.ref_ok(r) by {
            if let CandidateRef::Job(other) = r {
                if after.jobs.contains_key(other.value) {
                    assert(self.jobs.contains_key(other.value));
                }
            }
        }
        assert(after.refs_inv());
        assert(after.slots_inv()) by {
            assert forall|key: CoalesceKey| #[trigger] after.coalesce.contains_key(key) implies {
                &&& after.jobs.contains_key(after.coalesce[key].value)
                &&& after.jobs[after.coalesce[key].value].coalesce_key == Some(key)
            } by {
                if self.coalesce.contains_key(key) {
                    let other = self.coalesce[key].value;
                    assert(self.jobs.contains_key(other));
                    assert(jobs.contains_key(other));
                }
            }
            assert forall|k: u64| #[trigger] after.jobs.contains_key(k) implies (
            after.jobs[k].coalesce_key matches Some(key) ==> {
                &&& after.coalesce.contains_key(key)
                &&& after.coalesce[key] == JobId { value: k }
                &&& key.scope == after.jobs[k].meta.scope
                &&& key.lane == after.jobs[k].meta.lane
                &&& key.class == after.jobs[k].meta.class
            }) by {
                if k != id.value {
                    assert(self.jobs.contains_key(k));
                } else {
                    assert(JobId { value: k } == id);
                }
            }
        }
        assert(after.sequences_inv()) by {
            assert forall|a: u64, b: u64|
                #![trigger after.jobs.contains_key(a), after.jobs.contains_key(b)]
                after.jobs.contains_key(a) && after.jobs.contains_key(b) && a != b implies
                after.jobs[a].sequence != after.jobs[b].sequence by {
                if a != id.value {
                    assert(self.jobs.contains_key(a));
                }
                if b != id.value {
                    assert(self.jobs.contains_key(b));
                }
            }
        }
        assert(after.delayed_inv()) by {
            assert forall|entry: DelayedJob| #[trigger] after.delayed.contains(entry) implies {
                &&& entry.job.value < after.next_job_id
                &&& after.jobs.contains_key(entry.job.value)
                    && after.jobs[entry.job.value].not_before is Some
                    ==> after.jobs[entry.job.value].not_before == Some(entry.not_before)
            } by {
                if self.delayed.contains(entry) {
                    assert(entry.job.value < self.next_job_id);
                }
            }
            assert forall|k: u64| #[trigger] after.jobs.contains_key(k)
                && after.jobs[k].not_before is Some implies soundness::has_entry(after.delayed, k) by {
                if k == id.value {
                    let entry = DelayedJob {
                        not_before: job.not_before->0,
                        sequence: job.sequence,
                        job: id,
                    };
                    assert(after.delayed.contains(entry));
                } else {
                    assert(self.jobs.contains_key(k));
                    assert(soundness::has_entry(self.delayed, k));
                    let entry = choose|entry: DelayedJob| #[trigger]
                        self.delayed.contains(entry) && entry.job.value == k;
                    assert(after.delayed.contains(entry));
                }
            }
        }
        assert(after.weights_inv()) by {
            assert forall|k: u64| #[trigger] after.jobs.contains_key(k) implies {
                &&& model::too_small(after.global_limits, after.jobs[k].meta.weight@) is None
                &&& model::too_small_in_chat(
                    after.chat_limits,
                    after.jobs[k].meta.scope,
                    after.jobs[k].meta.weight@,
                ) is None
            } by {
                if k != id.value {
                    assert(self.jobs.contains_key(k));
                }
            }
        }
    }
}

pub proof fn lemma_renumber_commutes(
    jobs: Map<u64, Job>,
    pending: Seq<(u64, JobId)>,
    id: u64,
    job: Job,
)
    requires
        forall|i: int| 0 <= i < pending.len() ==> (#[trigger] pending[i]).1.value != id,
    ensures
        model::renumber_jobs(jobs.insert(id, job), pending) == model::renumber_jobs(
            jobs,
            pending,
        ).insert(id, job),
    decreases pending.len(),
{
    if pending.len() > 0 {
        let front = pending.drop_last();
        assert forall|i: int| 0 <= i < front.len() implies (#[trigger] front[i]).1.value != id by {
            assert(front[i] == pending[i]);
        }
        lemma_renumber_commutes(jobs, front, id, job);
        assert(pending[pending.len() - 1].1.value != id);
        assert(model::renumber_jobs(jobs.insert(id, job), pending) =~= model::renumber_jobs(
            jobs,
            pending,
        ).insert(id, job));
    }
}

impl SchedulerView {
    /// Making a candidate of a job does not look at the latest-wins slots.
    proof fn lemma_push_job_ignores_slots(
        self,
        coalesce: Map<CoalesceKey, JobId>,
        id: JobId,
        now: Instant,
    )
        ensures
            (SchedulerView { coalesce, ..self }).push_job_candidate(id, now) == (SchedulerView {
                coalesce,
                ..self.push_job_candidate(id, now)
            }),
            self.push_job_candidate(id, now).coalesce == self.coalesce,
    {
        assert((SchedulerView { coalesce, ..self }).push_job_candidate(id, now) =~= (
        SchedulerView { coalesce, ..self.push_job_candidate(id, now) }));
    }

    /// Making a candidate of a lane's head does not look at the latest-wins
    /// slots.
    proof fn lemma_push_lane_ignores_slots(
        self,
        coalesce: Map<CoalesceKey, JobId>,
        key: OutboundLaneKey,
        now: Instant,
    )
        ensures
            (SchedulerView { coalesce, ..self }).push_lane_head_candidate(key, now) == (
            SchedulerView { coalesce, ..self.push_lane_head_candidate(key, now) }),
            self.push_lane_head_candidate(key, now).coalesce == self.coalesce,
    {
        assert((SchedulerView { coalesce, ..self }).push_lane_head_candidate(key, now) =~= (
        SchedulerView { coalesce, ..self.push_lane_head_candidate(key, now) }));
    }

    /// What the state before a job is recorded offers to it.
    pub proof fn lemma_before_insert(
        self,
        meta: OutboundMeta,
        mode: OutboundEnqueueMode,
        not_before: Option<Instant>,
        now: Instant,
    )
        requires
            self.inv(),
            self.next_job_id < u64::MAX,
            self.refusal(meta, mode) is None,
        ensures
            ({
                let ready = self.before_insert(meta, mode);
                let job = self.new_job(meta, mode, not_before, now);
                let slot = SchedulerView::slot_of(meta, mode);
                &&& ready.inv()
                &&& ready.next_job_id == self.next_job_id
                &&& job.sequence < ready.next_sequence
                &&& forall|k: u64| #[trigger]
                    ready.jobs.contains_key(k) ==> ready.jobs[k].sequence != job.sequence
                &&& slot matches Some(key) ==> !ready.coalesce.contains_key(key)
                &&& job.coalesce_key == slot
                &&& meta.lane is None ==> job.lane_order is None
                &&& meta.lane matches Some(key) ==> (job.lane_order matches Some(order) ==> {
                    &&& ready.lanes.contains_key(key.value)
                    &&& ready.lanes[key.value].next_order != 0 ==> order
                        < ready.lanes[key.value].next_order
                })
                &&& model::too_small(ready.global_limits, meta.weight@) is None
                &&& model::too_small_in_chat(
                    ready.chat_limits,
                    meta.scope,
                    meta.weight@,
                ) is None
            }),
    {
        let ready = self.before_insert(meta, mode);
        let job = self.new_job(meta, mode, not_before, now);
        match self.replaced_by(meta, mode) {
            Some(old) => {
                let slot = SchedulerView::slot_of(meta, mode)->0;
                assert(self.coalesce.contains_key(slot));
                assert(self.jobs.contains_key(old.value));
                let held = self.jobs[old.value];
                assert(held.coalesce_key == Some(slot));
                assert(held.meta.lane == meta.lane);
                self.lemma_remove_waiting_inv(old);
                assert(self.member_ok(old.value));
                if let Some(key) = meta.lane {
                    let pending = self.lanes[key.value].pending;
                    let entry = (held.lane_order->0, JobId { value: old.value });
                    let i = choose|i: int| 0 <= i < pending.len() && pending[i] == entry;
                    assert(self.lane_ok(key.value));
                    assert(pending[i].0 == held.lane_order->0);
                }
                assert forall|k: u64| #[trigger] ready.jobs.contains_key(k) implies
                    ready.jobs[k].sequence != job.sequence by {
                    assert(self.jobs.contains_key(k));
                }
                assert(!ready.coalesce.contains_key(slot));
            },
            None => {
                self.lemma_ready_sequence_inv();
                self.lemma_take_sequence_inv();
                let before = self.ready_sequence();
                assert forall|k: u64| #[trigger] ready.jobs.contains_key(k) implies
                    ready.jobs[k].sequence != job.sequence by {
                    assert(before.jobs.contains_key(k));
                }
            },
        }
    }

    /// The state in which a new job stands in its queue and its slot, before
    /// dead entries are dropped.
    pub open spec fn queued(
        self,
        meta: OutboundMeta,
        mode: OutboundEnqueueMode,
        not_before: Option<Instant>,
        now: Instant,
    ) -> SchedulerView {
        let ready = self.before_insert(meta, mode);
        let id = JobId { value: ready.next_job_id };
        let job = self.new_job(meta, mode, not_before, now);
        let recorded = SchedulerView {
            jobs: ready.jobs.insert(id.value, job),
            next_job_id: (ready.next_job_id + 1) as u64,
            delayed: match not_before {
                Some(until) => ready.delayed.insert(
                    DelayedJob { not_before: until, sequence: job.sequence, job: id },
                ),
                None => ready.delayed,
            },
            ..ready
        };
        let placed = match meta.lane {
            Some(key) => recorded.enter_lane(
                key,
                id,
                job.lane_order,
                self.replaced_by(meta, mode),
                now,
            ),
            None => if not_before is None {
                recorded.push_job_candidate(id, now)
            } else {
                recorded
            },
        };
        match SchedulerView::slot_of(meta, mode) {
            Some(key) => SchedulerView { coalesce: placed.coalesce.insert(key, id), ..placed },
            None => placed,
        }
    }

    /// The invariant survives taking in a job.
    pub proof fn lemma_accept_inv(
        self,
        meta: OutboundMeta,
        mode: OutboundEnqueueMode,
        not_before: Option<Instant>,
        now: Instant,
    )
        requires
            self.inv(),
            self.next_job_id < u64::MAX,
            self.refusal(meta, mode) is None,
        ensures
            self.accept(meta, mode, not_before, now).inv(),
            self.queued(meta, mode, not_before, now).compact_delayed().inv(),
            self.accept(meta, mode, not_before, now) == self.queued(
                meta,
                mode,
                not_before,
                now,
            ).compact_delayed().compact_candidates(),
    {
        self.lemma_before_insert(meta, mode, not_before, now);
        let old = self.replaced_by(meta, mode);
        let ready = self.before_insert(meta, mode);
        let id = JobId { value: ready.next_job_id };
        let job = self.new_job(meta, mode, not_before, now);
        let slot = SchedulerView::slot_of(meta, mode);
        let coalesce = match slot {
            Some(key) => ready.coalesce.insert(key, id),
            None => ready.coalesce,
        };
        let recorded = SchedulerView {
            jobs: ready.jobs.insert(id.value, job),
            next_job_id: (ready.next_job_id + 1) as u64,
            delayed: match not_before {
                Some(until) => ready.delayed.insert(
                    DelayedJob { not_before: until, sequence: job.sequence, job: id },
                ),
                None => ready.delayed,
            },
            ..ready
        };
        let slotted = match meta.lane {
            Some(key) => {
                let queued = recorded.enter_lane(key, id, job.lane_order, old, now);
                ready.lemma_enter_lane_inv(recorded, coalesce, key, id, job, slot, old, now);
                SchedulerView { coalesce, ..queued }
            },
            None => {
                let known = SchedulerView { coalesce, ..recorded };
                assert(known.lanes_inv()) by {
                    assert forall|k: u64| #[trigger]
                        known.lanes.contains_key(k) implies known.lane_ok(k) by {
                        assert(ready.lane_ok(k));
                        let pending = ready.lanes[k].pending;
                        assert forall|i: int| 0 <= i < pending.len() implies (
                        #[trigger] pending[i]).1.value != id.value by {
                            assert(pending[i].1.value < ready.next_job_id);
                        }
                    }
                    assert forall|k: u64| #[trigger]
                        known.jobs.contains_key(k) implies known.member_ok(k) by {
                        if k != id.value {
                            assert(ready.jobs.contains_key(k));
                            assert(ready.member_ok(k));
                        }
                    }
                    assert forall|k: u64| #[trigger]
                        known.in_flight.contains_key(k) implies known.flight_ok(k) by {
                        assert(ready.flight_ok(k));
                    }
                }
                ready.lemma_record(ready.jobs, known, id, job, slot);
                if not_before is None {
                    known.lemma_push_job_inv(id, now);
                    recorded.lemma_push_job_ignores_slots(coalesce, id, now);
                    SchedulerView { coalesce, ..recorded.push_job_candidate(id, now) }
                } else {
                    known
                }
            },
        };
        assert(slotted.inv());
        slotted.lemma_compact_delayed_inv();
        slotted.compact_delayed().lemma_compact_candidates_inv();
        assert(slotted == self.queued(meta, mode, not_before, now));
    }

    /// The invariant survives putting a new job into its lane.
    proof fn lemma_enter_lane_inv(
        self,
        recorded: SchedulerView,
        coalesce: Map<CoalesceKey, JobId>,
        key: OutboundLaneKey,
        id: JobId,
        job: Job,
        slot: Option<CoalesceKey>,
        old: Option<JobId>,
        now: Instant,
    )
        requires
            self.inv(),
            self.next_job_id < u64::MAX,
            id.value == self.next_job_id,
            job.meta.lane == Some(key),
            job.sequence < self.next_sequence,
            forall|k: u64| #[trigger]
                self.jobs.contains_key(k) ==> self.jobs[k].sequence != job.sequence,
            job.coalesce_key == slot,
            slot matches Some(k) ==> {
                &&& !self.coalesce.contains_key(k)
                &&& coalesce == self.coalesce.insert(k, id)
                &&& k.scope == job.meta.scope
                &&& k.lane == job.meta.lane
                &&& k.class == job.meta.class
            },
            slot is None ==> coalesce == self.coalesce,
            job.lane_order matches Some(order) ==> {
                &&& self.lanes.contains_key(key.value)
                &&& self.lanes[key.value].next_order != 0 ==> order
                    < self.lanes[key.value].next_order
            },
            model::too_small(self.global_limits, job.meta.weight@) is None,
            model::too_small_in_chat(
                    self.chat_limits,
                    job.meta.scope,
                    job.meta.weight@,
                ) is None,
            recorded == (SchedulerView {
                jobs: self.jobs.insert(id.value, job),
                next_job_id: (self.next_job_id + 1) as u64,
                delayed: match job.not_before {
                    Some(until) => self.delayed.insert(
                        DelayedJob { not_before: until, sequence: job.sequence, job: id },
                    ),
                    None => self.delayed,
                },
                ..self
            }),
        ensures
            (SchedulerView {
                coalesce,
                ..recorded.enter_lane(key, id, job.lane_order, old, now)
            }).inv(),
            recorded.enter_lane(key, id, job.lane_order, old, now).coalesce == self.coalesce,
    {
        let k0 = key.value;
        let inherited = job.lane_order;
        let order = recorded.lane_order_for(k0, inherited);
        let placed = recorded.insert_lane_pending(k0, id, inherited);
        let base = if inherited is None {
            self.ready_lane(k0)
        } else {
            self
        };
        self.lemma_ready_lane(k0);
        if self.lanes.contains_key(k0) {
            assert(self.lane_ok(k0));
        }
        let held = self.lane_or_empty(k0).pending;
        assert forall|i: int| 0 <= i < held.len() implies (#[trigger] held[i]).1.value
            != id.value by {
            assert(held[i].1.value < self.next_job_id);
        }
        if inherited is None && self.lane_wraps(k0) {
            lemma_renumber_commutes(self.jobs, held, id.value, job);
        }
        assert(placed.jobs == base.jobs.insert(id.value, job));
        let noted = Job { lane_order: Some(order), ..job };
        let known = SchedulerView {
            jobs: placed.jobs.insert(id.value, Job { lane_order: Some(order), ..placed.jobs[id.value] }),
            ..placed
        };
        let slotted = SchedulerView { coalesce, ..known };
        assert(slotted.jobs =~= base.jobs.insert(id.value, noted));
        assert(slotted.lanes_inv()) by {
            self.lemma_place_in_lane(base, slotted, key, id, order, noted);
        }
        self.lemma_record(base.jobs, slotted, id, noted, slot);
        let l = known.lanes[k0];
        let cleared = if old is Some && l.pending[0].1 == old->0 {
            SchedulerView {
                lanes: known.lanes.insert(
                    k0,
                    LaneView { in_candidate_heap: false, candidate_effective: 0, ..l },
                ),
                ..known
            }
        } else {
            known
        };
        let marked = SchedulerView { coalesce, ..cleared };
        if old is Some && l.pending[0].1 == old->0 {
            slotted.lemma_retouch_lane(
                k0,
                LaneView { in_candidate_heap: false, candidate_effective: 0, ..l },
            );
        }
        assert(marked.inv());
        marked.lemma_push_lane_inv(key, now);
        cleared.lemma_push_lane_ignores_slots(coalesce, key, now);
    }
}

} // verus!
