//! The invariant across wake-ups, grants, completions and new limits.

use super::entries::{
    Admission, AgingEvent, BlockedJob, Candidate, CandidateKey, CandidateRef, CoalesceKey,
    DelayedJob, InFlight, Job,
};
use super::lane::LaneView;
use super::model::{PopStep, ReservationView, SchedulerView};
use super::{entries, lane, model, picking, soundness};
use crate::time::Instant;
use crate::types::{
    JobId, OutboundCompletion, OutboundLaneKey, OutboundLimits, OutboundScope, WindowLimit,
};
use crate::window::WindowView;
use crate::{heap, window};
use vstd::multiset::Multiset;
use vstd::prelude::*;

verus! {

broadcast use vstd::multiset::group_multiset_axioms;

/// Keeping some entries of a lane keeps their order and drops the others.
pub proof fn lemma_filter_lane(
    pending: Seq<(u64, JobId)>,
    keep: spec_fn((u64, JobId)) -> bool,
)
    requires
        lane::in_lane_order(pending),
    ensures
        lane::in_lane_order(pending.filter(keep)),
        forall|x: (u64, JobId)| #[trigger]
            pending.filter(keep).contains(x) <==> pending.contains(x) && keep(x),
    decreases pending.len(),
{
    reveal(Seq::filter);
    let kept = pending.filter(keep);
    if pending.len() > 0 {
        let front = pending.drop_last();
        let last = pending.last();
        assert(lane::in_lane_order(front));
        lemma_filter_lane(front, keep);
        let rest = front.filter(keep);
        assert forall|x: (u64, JobId)| #[trigger] kept.contains(x) <==> pending.contains(x)
            && keep(x) by {
            if kept.contains(x) {
                let i = choose|i: int| 0 <= i < kept.len() && kept[i] == x;
                if i < rest.len() {
                    assert(rest[i] == x);
                    assert(rest.contains(x));
                    let j = choose|j: int| 0 <= j < front.len() && front[j] == x;
                    assert(pending[j] == x);
                } else {
                    assert(x == last);
                    assert(pending[pending.len() - 1] == x);
                }
            }
            if pending.contains(x) && keep(x) {
                let j = choose|j: int| 0 <= j < pending.len() && pending[j] == x;
                if j < front.len() {
                    assert(front[j] == x);
                    assert(rest.contains(x));
                    let i = choose|i: int| 0 <= i < rest.len() && rest[i] == x;
                    assert(kept[i] == x);
                } else {
                    assert(kept[rest.len() as int] == x);
                }
            }
        }
        assert forall|i: int, j: int| 0 <= i < j < kept.len() implies lane::entry_lt(
            #[trigger] kept[i],
            #[trigger] kept[j],
        ) by {
            if j < rest.len() {
                assert(lane::entry_lt(rest[i], rest[j]));
            } else {
                assert(rest.contains(rest[i]));
                let a = choose|a: int| 0 <= a < front.len() && front[a] == rest[i];
                assert(lane::entry_lt(pending[a], pending[pending.len() - 1]));
            }
        }
    }
}

pub proof fn lemma_windows_keep_limits(windows: Seq<WindowView>, limits: Seq<WindowLimit>)
    requires
        soundness::windows_match(windows, limits),
    ensures
        forall|now: Instant| soundness::windows_match(#[trigger] window::prune_all(windows, now), limits),
        forall|now: Instant, weight: u32|
            soundness::windows_match(#[trigger] window::consume_all(windows, now, weight), limits),
{
    assert forall|now: Instant| soundness::windows_match(
        #[trigger] window::prune_all(windows, now),
        limits,
    ) by {
        let after = window::prune_all(windows, now);
        assert forall|i: int| 0 <= i < after.len() implies (#[trigger] after[i]).capacity
            == limits[i].capacity && after[i].window == limits[i].window by {
            assert(windows[i].capacity == limits[i].capacity);
        }
    }
    assert forall|now: Instant, weight: u32| soundness::windows_match(
        #[trigger] window::consume_all(windows, now, weight),
        limits,
    ) by {
        let after = window::consume_all(windows, now, weight);
        assert forall|i: int| 0 <= i < after.len() implies (#[trigger] after[i]).capacity
            == limits[i].capacity && after[i].window == limits[i].window by {
            assert(windows[i].capacity == limits[i].capacity);
        }
    }
}

/// The due aging moments and the others come from the queue.
pub proof fn lemma_events_split(events: Multiset<AgingEvent>, now: Instant)
    ensures
        forall|i: int|
            0 <= i < model::due_events(events, now).len() ==> events.contains(
                #[trigger] model::due_events(events, now)[i],
            ),
        forall|e: AgingEvent| #[trigger]
            model::later_events(events, now).contains(e) ==> events.contains(e),
        forall|e: AgingEvent| #[trigger]
            model::later_events(events, now).contains(e) ==> e.at.nanos > now.nanos,
    decreases events.len(),
{
    let later = model::later_events(events, now);
    let due = model::due_events(events, now);
    if events.len() == 0 {
        assert(later == events);
        assert forall|e: AgingEvent| !events.contains(e) by {
            assert(events.count(e) <= events.len());
        }
    } else {
        heap::lemma_first_exists(events);
        let first = heap::first_of(events);
        if first.at.nanos > now.nanos {
            assert(later == events);
            assert forall|e: AgingEvent| #[trigger] events.contains(e) implies e.at.nanos
                > now.nanos by {
                use_rank(e, first);
            }
        } else {
            let others = events.remove(first);
            model::lemma_remove_shrinks(events, first);
            lemma_events_split(others, now);
            assert(later == model::later_events(others, now));
            let rest = model::due_events(others, now);
            assert(due == seq![first] + rest);
            assert forall|i: int| 0 <= i < due.len() implies events.contains(
                #[trigger] due[i],
            ) by {
                if i > 0 {
                    assert(due[i] == rest[i - 1]);
                    assert(others.contains(rest[i - 1]));
                }
            }
            assert forall|e: AgingEvent| #[trigger] later.contains(e) implies events.contains(
                e,
            ) by {
                assert(model::later_events(others, now).contains(e));
                assert(others.contains(e));
            }
            assert forall|e: AgingEvent| #[trigger] later.contains(e) implies e.at.nanos
                > now.nanos by {
                assert(model::later_events(others, now).contains(e));
            }
        }
    }
}

proof fn use_rank(e: AgingEvent, first: AgingEvent)
    requires
        !heap::rank_lt(heap::Ranked::rank(e), heap::Ranked::rank(first)),
    ensures
        first.at.nanos <= e.at.nanos,
{
}

impl SchedulerView {
    /// Whether every reference that is in order stays in order.
    pub open spec fn keeps_refs(self, after: SchedulerView) -> bool {
        forall|r: CandidateRef| self.ref_ok(r) ==> #[trigger] after.ref_ok(r)
    }

    // ---------- frames of the basic steps ----------

    /// Making candidates changes candidate marks and lanes only.
    pub proof fn lemma_push_frame(self, reference: CandidateRef, now: Instant)
        ensures
            ({
                let after = self.push_reference(reference, now);
                &&& after.jobs.dom() == self.jobs.dom()
                &&& forall|k: u64| #[trigger]
                    self.jobs.contains_key(k) ==> after.jobs[k].meta == self.jobs[k].meta
                        && after.jobs[k].not_before == self.jobs[k].not_before
                        && after.jobs[k].ready_at == self.jobs[k].ready_at
                        && after.jobs[k].sequence == self.jobs[k].sequence
                &&& after.next_job_id == self.next_job_id
                &&& after.blocked == self.blocked
                &&& after.delayed == self.delayed
                &&& after.reservations == self.reservations
                &&& after.in_flight == self.in_flight
                &&& after.aging == self.aging
                &&& after.penalties == self.penalties
                &&& after.global_windows == self.global_windows
                &&& after.chat_window_sets == self.chat_window_sets
                &&& after.global_limits == self.global_limits
                &&& after.chat_limits == self.chat_limits
                &&& after.coalesce == self.coalesce
                &&& self.keeps_refs(after)
            }),
    {
        let after = self.push_reference(reference, now);
        assert(after.jobs.dom() =~= self.jobs.dom());
        assert forall|r: CandidateRef| self.ref_ok(r) implies #[trigger] after.ref_ok(r) by {
            if let CandidateRef::Job(id) = r {
                assert(after.jobs.dom().contains(id.value) <==> self.jobs.dom().contains(
                    id.value,
                ));
            }
        }
    }

    // ---------- wake-ups ----------

    pub proof fn lemma_compact_lanes_inv(self)
        requires
            self.inv(),
        ensures
            self.compact_lanes().inv(),
    {
        let after = self.compact_lanes();
        let live = |entry: (u64, JobId)| self.jobs.contains_key(entry.1.value);
        assert forall|key: u64| #[trigger] after.lanes.contains_key(key) implies after.lane_ok(
            key,
        ) by {
            assert(self.lanes.contains_key(key));
            assert(self.lane_ok(key));
            let held = self.lanes[key].pending;
            let kept = after.lanes[key].pending;
            if kept != held {
                lemma_filter_lane(held, live);
                assert(kept == held.filter(live));
                assert forall|i: int| 0 <= i < kept.len() implies held.contains(
                    #[trigger] kept[i],
                ) by {
                    assert(kept.contains(kept[i]));
                }
                assert forall|i: int| 0 <= i < kept.len() implies {
                    let entry = #[trigger] kept[i];
                    &&& entry.1.value < after.next_job_id
                    &&& after.lanes[key].next_order != 0 ==> entry.0
                        < after.lanes[key].next_order
                    &&& after.jobs.contains_key(entry.1.value) ==> {
                        &&& after.jobs[entry.1.value].meta.lane == Some(
                            OutboundLaneKey { value: key },
                        )
                        &&& after.jobs[entry.1.value].lane_order == Some(entry.0)
                    }
                } by {
                    let j = choose|j: int| 0 <= j < held.len() && held[j] == kept[i];
                    assert(held[j].1.value < self.next_job_id);
                }
                assert(soundness::no_repeats(kept)) by {
                    assert forall|i: int, j: int| 0 <= i < j < kept.len() implies (
                    #[trigger] kept[i]).1 != (#[trigger] kept[j]).1 by {
                        assert(lane::entry_lt(kept[i], kept[j]));
                        let a = choose|a: int| 0 <= a < held.len() && held[a] == kept[i];
                        let b = choose|b: int| 0 <= b < held.len() && held[b] == kept[j];
                        assert(a != b);
                        if a < b {
                            assert(held[a].1 != held[b].1);
                        } else {
                            assert(held[b].1 != held[a].1);
                        }
                    }
                }
            }
        }
        assert forall|id: u64| #[trigger] after.jobs.contains_key(id) implies after.member_ok(
            id,
        ) by {
            assert(self.member_ok(id));
            if let Some(key) = self.jobs[id].meta.lane {
                let held = self.lanes[key.value].pending;
                assert(self.lane_ok(key.value));
                lemma_filter_lane(held, live);
                let entry = (self.jobs[id].lane_order->0, JobId { value: id });
                assert(held.contains(entry) && live(entry));
                assert(held.filter(live).contains(entry));
                assert(after.lanes.contains_key(key.value));
            }
        }
        assert forall|id: u64| #[trigger] after.in_flight.contains_key(id) implies after.flight_ok(
            id,
        ) by {
            assert(self.flight_ok(id));
            if let Some(key) = self.in_flight[id].lane {
                assert(after.lanes.contains_key(key.value));
            }
        }
        assert(self.keeps_refs(after));
    }

    proof fn lemma_aging_step_inv(self, reference: CandidateRef, now: Instant)
        requires
            self.inv(),
            self.ref_ok(reference),
        ensures
            self.aging_step(reference, now).inv(),
            self.keeps_refs(self.aging_step(reference, now)),
    {
        let after = self.aging_step(reference, now);
        match reference {
            CandidateRef::Job(id) => {
                if self.jobs.contains_key(id.value) && self.jobs[id.value].in_candidate_heap {
                    let job = self.jobs[id.value];
                    let level = entries::effective(job, self.aging, now);
                    if level > job.candidate_effective {
                        let noted = Job { candidate_effective: level, ..job };
                        self.lemma_retouch(id.value, noted);
                        let with_job = SchedulerView {
                            jobs: self.jobs.insert(id.value, noted),
                            ..self
                        };
                        with_job.lemma_push_key_inv(reference, job, now);
                    }
                }
            },
            CandidateRef::Lane(key) => {
                if self.lanes.contains_key(key.value) && self.lanes[key.value].in_candidate_heap
                    && self.lanes[key.value].pending.len() > 0 && self.jobs.contains_key(
                    self.lanes[key.value].pending[0].1.value,
                ) && !entries::delayed_at(
                    self.jobs[self.lanes[key.value].pending[0].1.value],
                    now,
                ) {
                    let l = self.lanes[key.value];
                    let job = self.jobs[l.pending[0].1.value];
                    let level = entries::effective(job, self.aging, now);
                    if level <= l.candidate_effective {
                        self.lemma_schedule_aging_inv(
                            reference,
                            level,
                            job.meta.priority.value,
                            job.ready_at,
                        );
                    } else {
                        let noted = LaneView { candidate_effective: level, ..l };
                        self.lemma_retouch_lane(key.value, noted);
                        let with_lane = SchedulerView {
                            lanes: self.lanes.insert(key.value, noted),
                            ..self
                        };
                        with_lane.lemma_push_key_inv(reference, job, now);
                    }
                }
            },
        }
        assert(after.jobs.dom() =~= self.jobs.dom());
        assert forall|r: CandidateRef| self.ref_ok(r) implies #[trigger] after.ref_ok(r) by {}
    }

    pub proof fn lemma_aging_steps_inv(self, due: Seq<AgingEvent>, now: Instant)
        requires
            self.inv(),
            forall|i: int| 0 <= i < due.len() ==> self.ref_ok((#[trigger] due[i]).reference),
        ensures
            self.aging_steps(due, now).inv(),
            self.keeps_refs(self.aging_steps(due, now)),
        decreases due.len(),
    {
        if due.len() > 0 {
            let front = due.drop_last();
            assert forall|i: int| 0 <= i < front.len() implies self.ref_ok(
                (#[trigger] front[i]).reference,
            ) by {
                assert(front[i] == due[i]);
            }
            self.lemma_aging_steps_inv(front, now);
            let before = self.aging_steps(front, now);
            assert(self.ref_ok(due[due.len() - 1].reference));
            before.lemma_aging_step_inv(due.last().reference, now);
        }
    }

    pub proof fn lemma_promote_aging_inv(self, now: Instant)
        requires
            self.inv(),
        ensures
            self.promote_aging(now).inv(),
    {
        lemma_events_split(self.aging_events, now);
        let start = SchedulerView {
            aging_events: model::later_events(self.aging_events, now),
            ..self
        };
        self.lemma_fewer_entries(start);
        let due = model::due_events(self.aging_events, now);
        assert forall|i: int| 0 <= i < due.len() implies start.ref_ok(
            (#[trigger] due[i]).reference,
        ) by {
            assert(self.aging_events.contains(due[i]));
            assert(self.ref_ok(due[i].reference));
        }
        start.lemma_aging_steps_inv(due, now);
    }

    pub proof fn lemma_delayed_step_inv(self, entry: DelayedJob, now: Instant)
        requires
            self.inv(),
            self.delayed.contains(entry),
        ensures
            (SchedulerView { delayed: self.delayed.remove(entry), ..self }).delayed_step(
                entry,
                now,
            ).inv(),
    {
        let rest = SchedulerView { delayed: self.delayed.remove(entry), ..self };
        let id = entry.job.value;
        if !self.jobs.contains_key(id) {
            self.lemma_fewer_entries(rest.delayed_step(entry, now));
        } else {
            let job = self.jobs[id];
            let ready_job = Job { ready_at: now, not_before: None, ..job };
            let ready = SchedulerView { jobs: rest.jobs.insert(id, ready_job), ..rest };
            assert(ready.jobs.dom() =~= self.jobs.dom());
            assert(ready.inv()) by {
                assert(ready.ids_inv());
                assert(self.keeps_refs(ready));
                assert(ready.refs_inv());
                self.lemma_thinner_lanes(ready);
                assert(ready.slots_inv()) by {
                    assert forall|k: u64| #[trigger] ready.jobs.contains_key(k) implies (
                    ready.jobs[k].coalesce_key matches Some(slot) ==> {
                        &&& ready.coalesce.contains_key(slot)
                        &&& ready.coalesce[slot] == JobId { value: k }
                        &&& slot.scope == ready.jobs[k].meta.scope
                        &&& slot.lane == ready.jobs[k].meta.lane
                        &&& slot.class == ready.jobs[k].meta.class
                    }) by {
                        assert(self.jobs.contains_key(k));
                    }
                }
                assert(ready.sequences_inv()) by {
                    assert forall|a: u64, b: u64|
                        #![trigger ready.jobs.contains_key(a), ready.jobs.contains_key(b)]
                        ready.jobs.contains_key(a) && ready.jobs.contains_key(b) && a != b implies
                        ready.jobs[a].sequence != ready.jobs[b].sequence by {
                        assert(self.jobs.contains_key(a) && self.jobs.contains_key(b));
                    }
                    assert forall|a: u64| #[trigger] ready.jobs.contains_key(a) implies
                        ready.jobs[a].sequence < ready.next_sequence by {
                        assert(self.jobs.contains_key(a));
                    }
                }
                assert(ready.delayed_inv()) by {
                    assert forall|e: DelayedJob| #[trigger] ready.delayed.contains(e) implies {
                        &&& e.job.value < ready.next_job_id
                        &&& ready.jobs.contains_key(e.job.value)
                            && ready.jobs[e.job.value].not_before is Some
                            ==> ready.jobs[e.job.value].not_before == Some(e.not_before)
                    } by {
                        assert(self.delayed.contains(e));
                    }
                    assert forall|k: u64| #[trigger] ready.jobs.contains_key(k)
                        && ready.jobs[k].not_before is Some implies soundness::has_entry(
                        ready.delayed,
                        k,
                    ) by {
                        assert(k != id);
                        assert(self.jobs.contains_key(k));
                        assert(soundness::has_entry(self.delayed, k));
                        let e = choose|e: DelayedJob| #[trigger]
                            self.delayed.contains(e) && e.job.value == k;
                        assert(ready.delayed.contains(e));
                    }
                }
                assert(ready.weights_inv()) by {
                    assert forall|k: u64| #[trigger] ready.jobs.contains_key(k) implies {
                        &&& model::too_small(
                            ready.global_limits,
                            ready.jobs[k].meta.weight@,
                        ) is None
                        &&& model::too_small_in_chat(
                    ready.chat_limits,
                    ready.jobs[k].meta.scope,
                    ready.jobs[k].meta.weight@,
                ) is None
                    } by {
                        assert(self.jobs.contains_key(k));
                    }
                }
            }
            match job.meta.lane {
                Some(key) => ready.lemma_push_lane_inv(key, now),
                None => ready.lemma_push_job_inv(entry.job, now),
            }
        }
    }

    pub proof fn lemma_promote_delayed_inv(self, now: Instant)
        requires
            self.inv(),
        ensures
            self.promote_delayed(now).inv(),
        decreases self.delayed.len(),
    {
        if self.delayed.len() > 0 && heap::first_of(self.delayed).not_before.nanos <= now.nanos {
            heap::lemma_first_exists(self.delayed);
            let entry = heap::first_of(self.delayed);
            let rest = SchedulerView { delayed: self.delayed.remove(entry), ..self };
            model::lemma_remove_shrinks(self.delayed, entry);
            rest.lemma_steps_keep_queues(entry, now);
            self.lemma_delayed_step_inv(entry, now);
            rest.delayed_step(entry, now).lemma_promote_delayed_inv(now);
        }
    }

    proof fn lemma_blocked_step_inv(self, reference: CandidateRef, now: Instant)
        requires
            self.inv(),
            self.ref_ok(reference),
        ensures
            self.blocked_step(reference, now).inv(),
    {
        match reference {
            CandidateRef::Job(id) => self.lemma_push_job_inv(id, now),
            CandidateRef::Lane(key) => self.lemma_push_lane_inv(key, now),
        }
    }

    pub proof fn lemma_wake_blocked_inv(self, bound: Instant, now: Instant)
        requires
            self.inv(),
        ensures
            self.wake_blocked(bound, now).inv(),
        decreases self.blocked.len(),
    {
        if self.blocked.len() > 0 && heap::first_of(self.blocked).until.nanos <= bound.nanos {
            heap::lemma_first_exists(self.blocked);
            let entry = heap::first_of(self.blocked);
            let rest = SchedulerView { blocked: self.blocked.remove(entry), ..self };
            model::lemma_remove_shrinks(self.blocked, entry);
            rest.lemma_blocked_step_keeps_queues(entry.reference, now);
            self.lemma_fewer_entries(rest);
            assert(self.ref_ok(entry.reference));
            assert(rest.ref_ok(entry.reference));
            rest.lemma_blocked_step_inv(entry.reference, now);
            rest.blocked_step(entry.reference, now).lemma_wake_blocked_inv(bound, now);
        }
    }

    pub proof fn lemma_wake_at_inv(self, at: int, now: Instant)
        requires
            self.inv(),
            0 <= at < self.reservations.len(),
        ensures
            self.wake_at(at, now).inv(),
    {
        let r = self.reservations[at];
        let queue = model::live_queue(r.queue, self.jobs, self.lanes);
        lemma_live_queue_is_suffix(r.queue, self.jobs, self.lanes);
        let cut = r.queue.len() - queue.len();
        assert forall|j: int| 0 <= j < queue.len() implies self.ref_ok(
            #[trigger] queue[j],
        ) by {
            assert(queue[j] == self.reservations[at].queue[j + cut]);
        }
        if queue.len() == 0 {
            let after = SchedulerView {
                reservations: self.reservations.remove(at),
                ..self
            };
            assert forall|i: int, j: int|
                0 <= i < after.reservations.len() && 0 <= j
                    < after.reservations[i].queue.len() implies self.ref_ok(
                #[trigger] after.reservations[i].queue[j],
            ) by {
                let k = if i < at {
                    i
                } else {
                    i + 1
                };
                assert(after.reservations[i].queue[j] == self.reservations[k].queue[j]);
            }
            self.lemma_fewer_entries(after);
        } else {
            let after = SchedulerView {
                reservations: self.reservations.update(
                    at,
                    ReservationView { queue: queue.drop_first(), ..r },
                ),
                ..self
            };
            assert forall|i: int, j: int|
                0 <= i < after.reservations.len() && 0 <= j
                    < after.reservations[i].queue.len() implies self.ref_ok(
                #[trigger] after.reservations[i].queue[j],
            ) by {
                if i == at {
                    assert(after.reservations[i].queue[j] == queue[j + 1]);
                } else {
                    assert(after.reservations[i].queue[j] == self.reservations[i].queue[j]);
                }
            }
            self.lemma_fewer_entries(after);
            assert(self.ref_ok(queue[0]));
            assert(after.ref_ok(queue[0]));
            after.lemma_push_reference_inv(queue[0], now);
        }
    }

    proof fn lemma_reservation_step_inv(self, scope: OutboundScope, now: Instant)
        requires
            self.inv(),
        ensures
            self.reservation_step(scope, now).inv(),
    {
        let at = model::find(self.reservations, scope);
        if at < self.reservations.len() {
            self.lemma_wake_at_inv(at as int, now);
        }
    }

    pub proof fn lemma_reservation_steps_inv(self, windows: Seq<OutboundScope>, now: Instant)
        requires
            self.inv(),
        ensures
            self.reservation_steps(windows, now).inv(),
        decreases windows.len(),
    {
        if windows.len() > 0 {
            self.lemma_reservation_steps_inv(windows.drop_last(), now);
            self.reservation_steps(windows.drop_last(), now).lemma_reservation_step_inv(
                windows.last(),
                now,
            );
        }
    }

    pub proof fn lemma_promote_inv(self, now: Instant)
        requires
            self.inv(),
        ensures
            self.promote(now).inv(),
    {
        self.lemma_promote_aging_inv(now);
        let a = self.promote_aging(now);
        a.lemma_promote_delayed_inv(now);
        let b = a.promote_delayed(now);
        b.lemma_wake_blocked_inv(now, now);
        let c = b.wake_blocked(now, now);
        c.lemma_reservation_steps_inv(model::expired_windows(c.reservations, now), now);
        c.promote_reservations(now).lemma_compact_lanes_inv();
    }

    // ---------- picking a candidate ----------

    /// A candidate that can be granted: its job waits, is not delayed, and is
    /// the first entry of its lane, which is free.
    pub open spec fn grantable(self, candidate: Candidate, now: Instant) -> bool {
        let id = candidate.job.value;
        &&& self.jobs.contains_key(id)
        &&& !entries::delayed_at(self.jobs[id], now)
        &&& match self.jobs[id].meta.lane {
            None => self.jobs[id].not_before is None,
            Some(key) => {
                &&& self.lanes.contains_key(key.value)
                &&& self.lanes[key.value].in_flight is None
                &&& self.lanes[key.value].pending.len() > 0
                &&& self.lanes[key.value].pending[0].1 == candidate.job
            },
        }
    }

    pub proof fn lemma_pop_step_inv(self, now: Instant)
        requires
            self.inv(),
        ensures
            self.pop_step(now).0.inv(),
            self.pop_step(now).1 matches PopStep::Found(candidate) ==> self.pop_step(
                now,
            ).0.grantable(candidate, now),
    {
        if self.candidates.len() > 0 {
            heap::lemma_first_exists(self.candidates);
            let key = heap::first_of(self.candidates);
            let rest = SchedulerView { candidates: self.candidates.remove(key), ..self };
            self.lemma_fewer_entries(rest);
            assert(self.ref_ok(key.reference));
            match key.reference {
                CandidateRef::Job(id) => {
                    let after = rest.pop_job(key, id).0;
                    if !rest.jobs.contains_key(id.value) || key.effective
                        < rest.jobs[id.value].candidate_effective {
                        rest.lemma_fewer_entries(after);
                    } else {
                        rest.lemma_retouch(
                            id.value,
                            Job { in_candidate_heap: false, ..rest.jobs[id.value] },
                        );
                    }
                },
                CandidateRef::Lane(lane_key) => {
                    rest.lemma_pop_lane_inv(key, lane_key, now);
                },
            }
        }
    }

    proof fn lemma_pop_lane_inv(
        self,
        key: CandidateKey,
        lane_key: OutboundLaneKey,
        now: Instant,
    )
        requires
            self.inv(),
        ensures
            self.pop_lane(key, lane_key, now).0.inv(),
            self.pop_lane(key, lane_key, now).1 matches PopStep::Found(candidate)
                ==> self.pop_lane(key, lane_key, now).0.grantable(candidate, now),
    {
        let k0 = lane_key.value;
        let after = self.pop_lane(key, lane_key, now).0;
        if !self.lanes.contains_key(k0) || key.effective < self.lanes[k0].candidate_effective {
            self.lemma_fewer_entries(after);
        } else {
            let taken = LaneView { in_candidate_heap: false, ..self.lanes[k0] };
            if taken.in_flight is Some {
                self.lemma_retouch_lane(k0, taken);
            } else {
                let drained = taken.drained(self.jobs);
                lane::lemma_drop_dead_is_suffix(self.lanes[k0].pending, self.jobs);
                if drained.pending.len() == 0 {
                    self.lemma_drop_lane(k0);
                } else {
                    self.lemma_retouch_lane(k0, drained);
                    let mid = SchedulerView { lanes: self.lanes.insert(k0, drained), ..self };
                    assert(mid.lanes.contains_key(k0));
                    assert(mid.lane_ok(k0));
                    let head = drained.pending[0].1;
                    assert(OutboundLaneKey { value: k0 } == lane_key);
                    mid.lemma_push_lane_inv(lane_key, now);
                }
            }
        }
    }

    pub proof fn lemma_pop_candidate_inv(self, now: Instant)
        requires
            self.inv(),
        ensures
            self.pop_candidate(now).0.inv(),
            self.pop_candidate(now).1 matches Some(candidate) ==> self.pop_candidate(
                now,
            ).0.grantable(candidate, now),
        decreases self.disorder(now), self.candidates.len(),
    {
        self.lemma_pop_step_decreases(now);
        self.lemma_pop_step_inv(now);
        let (after, step) = self.pop_step(now);
        if step is Again {
            after.lemma_pop_candidate_inv(now);
        }
    }

    // ---------- granting ----------

    pub proof fn lemma_after_admission_inv(self, candidate: Candidate, now: Instant)
        requires
            self.inv(),
        ensures
            self.after_admission(candidate, now).inv(),
            self.grantable(candidate, now) ==> self.after_admission(candidate, now).grantable(
                candidate,
                now,
            ),
    {
        let after = self.after_admission(candidate, now);
        lemma_windows_keep_limits(self.global_windows, self.global_limits);
        if let OutboundScope::Chat(chat) = candidate.scope {
            let held = self.chat_windows(chat);
            let limits = window::applicable(self.chat_limits, chat.value);
            assert(soundness::windows_match(held, limits));
            lemma_windows_keep_limits(held, limits);
        }
        assert(after.windows_inv());
        self.lemma_fewer_entries(after);
    }

    pub proof fn lemma_grant_inv(self, candidate: Candidate, now: Instant)
        requires
            self.inv(),
            self.grantable(candidate, now),
        ensures
            self.grant(candidate, now).inv(),
    {
        let after = self.grant(candidate, now);
        let id = candidate.job;
        let job = self.jobs[id.value];
        assert(JobId { value: id.value } == id);
        assert(after.jobs.dom() =~= self.jobs.dom().remove(id.value));
        assert(forall|k: u64| #[trigger]
            after.jobs.contains_key(k) ==> self.jobs.contains_key(k) && after.jobs[k]
                == self.jobs[k]);
        assert(after.ids_inv());
        assert(self.keeps_refs(after));
        assert(after.refs_inv());
        assert(after.lanes_inv()) by {
            assert(self.member_ok(id.value));
            assert forall|k: u64| #[trigger] after.lanes.contains_key(k) implies after.lane_ok(
                k,
            ) by {
                assert(self.lanes.contains_key(k));
                assert(self.lane_ok(k));
                let held = self.lanes[k];
                if job.meta.lane == Some(OutboundLaneKey { value: k }) {
                    let rest = held.pending.drop_first();
                    assert forall|i: int| 0 <= i < rest.len() implies #[trigger] rest[i]
                        == held.pending[i + 1] by {}
                } else {
                    assert(after.lanes[k] == held);
                    if let Some(other) = held.in_flight {
                        assert(other.value != id.value) by {
                            assert(self.in_flight.contains_key(other.value));
                        }
                    }
                }
            }
            assert forall|k: u64| #[trigger] after.jobs.contains_key(k) implies after.member_ok(
                k,
            ) by {
                assert(self.member_ok(k));
                if let Some(key) = self.jobs[k].meta.lane {
                    assert(after.lanes.contains_key(key.value));
                    if job.meta.lane == Some(key) {
                        let held = self.lanes[key.value].pending;
                        let entry = (self.jobs[k].lane_order->0, JobId { value: k });
                        let i = choose|i: int| 0 <= i < held.len() && held[i] == entry;
                        assert(i != 0);
                        assert(held.drop_first()[i - 1] == entry);
                    }
                }
            }
            assert forall|k: u64| #[trigger]
                after.in_flight.contains_key(k) implies after.flight_ok(k) by {
                if k != id.value {
                    assert(self.in_flight.contains_key(k));
                    assert(self.flight_ok(k));
                    if let Some(key) = self.in_flight[k].lane {
                        assert(job.meta.lane != Some(key));
                    }
                }
            }
        }
        assert(after.slots_inv()) by {
            assert forall|slot: CoalesceKey| #[trigger] after.coalesce.contains_key(slot) implies {
                &&& after.jobs.contains_key(after.coalesce[slot].value)
                &&& after.jobs[after.coalesce[slot].value].coalesce_key == Some(slot)
            } by {
                assert(self.coalesce.contains_key(slot));
                if self.coalesce[slot].value == id.value {
                    assert(self.coalesce[slot] == id);
                    assert(job.coalesce_key == Some(slot));
                }
            }
            assert forall|k: u64| #[trigger] after.jobs.contains_key(k) implies (
            after.jobs[k].coalesce_key matches Some(slot) ==> {
                &&& after.coalesce.contains_key(slot)
                &&& after.coalesce[slot] == JobId { value: k }
                &&& slot.scope == after.jobs[k].meta.scope
                &&& slot.lane == after.jobs[k].meta.lane
                &&& slot.class == after.jobs[k].meta.class
            }) by {
                assert(self.jobs.contains_key(k));
                assert(self.jobs.contains_key(id.value));
            }
        }
        assert(after.sequences_inv()) by {
            assert forall|a: u64, b: u64|
                #![trigger after.jobs.contains_key(a), after.jobs.contains_key(b)]
                after.jobs.contains_key(a) && after.jobs.contains_key(b) && a != b implies
                after.jobs[a].sequence != after.jobs[b].sequence by {
                assert(self.jobs.contains_key(a) && self.jobs.contains_key(b));
            }
        }
        assert(after.delayed_inv());
        assert(after.weights_inv());
        lemma_windows_keep_limits(self.global_windows, self.global_limits);
        if let OutboundScope::Chat(chat) = job.meta.scope {
            let limits = window::applicable(self.chat_limits, chat.value);
            assert(soundness::windows_match(self.chat_windows(chat), limits));
            lemma_windows_keep_limits(self.chat_windows(chat), limits);
        }
        assert(after.windows_inv());
    }

    proof fn lemma_rearm_window_inv(self, scope: OutboundScope, now: Instant)
        requires
            self.inv(),
        ensures
            self.rearm_window(scope, now).inv(),
    {
        let after = self.rearm_window(scope, now);
        assert forall|i: int, j: int|
            0 <= i < after.reservations.len() && 0 <= j
                < after.reservations[i].queue.len() implies self.ref_ok(
            #[trigger] after.reservations[i].queue[j],
        ) by {
            assert(after.reservations[i].queue == self.reservations[i].queue);
            assert(self.ref_ok(self.reservations[i].queue[j]));
        }
        self.lemma_fewer_entries(after);
    }

    pub proof fn lemma_rearm_inv(self, scope: OutboundScope, now: Instant)
        requires
            self.inv(),
        ensures
            self.rearm_reservations(scope, now).inv(),
    {
        self.lemma_rearm_window_inv(OutboundScope::Global, now);
        self.rearm_window(OutboundScope::Global, now).lemma_rearm_window_inv(scope, now);
    }

    proof fn lemma_block_inv(
        self,
        candidate: Candidate,
        until: Instant,
        reserve: Option<OutboundScope>,
        now: Instant,
    )
        requires
            self.inv(),
            self.grantable(candidate, now),
        ensures
            self.block(candidate, until, reserve).inv(),
    {
        let reference = self.reference_of(candidate.job);
        assert(self.ref_ok(reference));
        let held = match reserve {
            Some(scope) => self.hold(scope, until, reference),
            None => self,
        };
        assert forall|i: int, j: int|
            0 <= i < held.reservations.len() && 0 <= j
                < held.reservations[i].queue.len() implies self.ref_ok(
            #[trigger] held.reservations[i].queue[j],
        ) by {
            assert(i < self.reservations.len());
            assert(held.reservations[i].queue == self.reservations[i].queue);
            assert(self.ref_ok(self.reservations[i].queue[j]));
        }
        self.lemma_fewer_entries(held);
        let after = self.block(candidate, until, reserve);
        after.lemma_same_lanes(held);
        assert(held.keeps_refs(after));
        assert(self.keeps_refs(after));
        assert forall|entry: BlockedJob| #[trigger] after.blocked.contains(entry) implies
            after.ref_ok(entry.reference) by {
            if !held.blocked.contains(entry) {
                assert(entry.reference == reference);
            }
        }
        assert(after.refs_inv()) by {
            assert forall|i: int, j: int|
                0 <= i < after.reservations.len() && 0 <= j
                    < after.reservations[i].queue.len() implies after.ref_ok(
                #[trigger] after.reservations[i].queue[j],
            ) by {
                assert(held.ref_ok(held.reservations[i].queue[j]));
            }
        }
    }

    proof fn lemma_park_inv(self, candidate: Candidate, now: Instant)
        requires
            self.inv(),
            self.grantable(candidate, now),
            self.held_back(candidate.scope, now),
        ensures
            self.park(candidate, now).inv(),
    {
        let reference = self.reference_of(candidate.job);
        assert(self.ref_ok(reference));
        let after = self.park(candidate, now);
        let at = model::find(self.reservations, self.parking_window(candidate.scope, now)) as int;
        assert forall|i: int, j: int|
            0 <= i < after.reservations.len() && 0 <= j
                < after.reservations[i].queue.len() implies self.ref_ok(
            #[trigger] after.reservations[i].queue[j],
        ) by {
            if i == at {
                let queue = self.reservations[at].queue;
                let place = model::parking_place(queue, self.jobs, reference);
                picking::lemma_parking_place_bounds(queue, self.jobs, reference);
                if j == place {
                    assert(after.reservations[i].queue[j] == reference);
                } else if j < place {
                    assert(after.reservations[i].queue[j] == queue[j]);
                } else {
                    assert(after.reservations[i].queue[j] == queue[j - 1]);
                }
            } else {
                assert(after.reservations[i].queue[j] == self.reservations[i].queue[j]);
            }
        }
        self.lemma_fewer_entries(after);
    }

    pub proof fn lemma_dispose_inv(self, candidate: Candidate, now: Instant)
        requires
            self.inv(),
            self.grantable(candidate, now),
        ensures
            self.dispose(candidate, now).inv(),
    {
        self.lemma_after_admission_inv(candidate, now);
        let checked = self.after_admission(candidate, now);
        match self.admission(candidate, now) {
            Admission::Pass => {
                checked.lemma_grant_inv(candidate, now);
                checked.grant(candidate, now).lemma_rearm_inv(candidate.scope, now);
            },
            Admission::Blocked { until, reserve } => {
                checked.lemma_block_inv(candidate, until, reserve, now);
            },
            Admission::Reserved => {
                checked.lemma_park_inv(candidate, now);
            },
        }
    }

    pub proof fn lemma_pick_inv(self, now: Instant)
        requires
            self.inv(),
        ensures
            self.pick(now).0.inv(),
            self.pick(now).1 matches Some(candidate) ==> self.pick(now).0.grantable(
                candidate,
                now,
            ),
        decreases model::lingering(self.reservations, now),
    {
        self.lemma_woken_lingers_no_more(now);
        self.lemma_pop_candidate_inv(now);
        let (popped, found) = self.pop_candidate(now);
        match found {
            None => {
                let at = popped.first_lingering(now);
                if at < popped.reservations.len() {
                    popped.lemma_wake_at_inv(at as int, now);
                    popped.wake_at(at as int, now).lemma_pick_inv(now);
                }
            },
            Some(c) => {
                let at = popped.first_overtaken(c, now);
                if at < popped.reservations.len() {
                    popped.lemma_overtaking_is_unlaned(c, now);
                    popped.lemma_wake_at_inv(at as int, now);
                    popped.lemma_wake_at_waits(at as int, now);
                    let woken = popped.wake_at(at as int, now);
                    assert(woken.ref_ok(CandidateRef::Job(c.job))) by {
                        assert(popped.jobs.contains_key(c.job.value));
                        assert(woken.jobs.contains_key(c.job.value));
                    }
                    woken.lemma_push_reference_inv(CandidateRef::Job(c.job), now);
                    woken.push_job_candidate(c.job, now).lemma_pick_inv(now);
                }
            },
        }
    }

    /// Only an unlaned candidate overtakes somebody.
    pub proof fn lemma_overtaking_is_unlaned(self, c: Candidate, now: Instant)
        requires
            self.first_overtaken(c, now) < self.reservations.len(),
        ensures
            self.jobs[c.job.value].meta.lane is None,
            model::lingers(self.reservations[self.first_overtaken(c, now) as int], now),
            !self.held_back(c.scope, now),
    {
        let jobs = self.jobs;
        let job = jobs[c.job.value];
        picking::lemma_first_where(
            self.reservations,
            |r: ReservationView| model::overtakes(r, jobs, job, now),
        );
        let at = self.first_overtaken(c, now) as int;
        picking::lemma_overtaking_has_no_lane(self.reservations[at].queue, jobs, job);
    }

    pub proof fn lemma_wake_next_inv(self, scope: OutboundScope, now: Instant)
        requires
            self.inv(),
        ensures
            self.wake_next(scope, now).inv(),
    {
        let at = model::find(self.reservations, scope);
        if at < self.reservations.len() {
            self.lemma_wake_at_inv(at as int, now);
        }
    }

    pub proof fn lemma_settle_inv(self, candidate: Candidate, now: Instant)
        requires
            self.inv(),
            self.grantable(candidate, now),
        ensures
            self.settle(candidate, now).inv(),
    {
        self.lemma_dispose_inv(candidate, now);
        let after = self.dispose(candidate, now);
        after.lemma_wake_next_inv(OutboundScope::Global, now);
        after.wake_next(OutboundScope::Global, now).lemma_wake_next_inv(candidate.scope, now);
    }

    pub proof fn lemma_grant_loop_inv(self, now: Instant)
        requires
            self.inv(),
        ensures
            self.grant_loop(now).0.inv(),
        decreases
            self.jobs.dom().len(),
            model::lingering(self.reservations, now),
            self.disorder(now),
            self.candidates.len(),
    {
        self.lemma_pick_inv(now);
        let (popped, found) = self.pick(now);
        if let Some(candidate) = found {
            self.lemma_settle_decreases(now);
            popped.lemma_settle_inv(candidate, now);
            popped.settle(candidate, now).lemma_grant_loop_inv(now);
        }
    }

    pub proof fn lemma_grant_ready_inv(self, now: Instant)
        requires
            self.inv(),
        ensures
            self.grant_ready(now).inv(),
    {
        self.lemma_promote_inv(now);
        self.promote(now).lemma_grant_loop_inv(now);
        let end = self.promote(now).grant_loop(now).0;
        let a = end.prune_penalties(now);
        end.lemma_fewer_entries(a);
        let b = a.prune_chats(now);
        assert(b.windows_inv()) by {
            assert forall|chat: u64| #[trigger]
                b.chat_window_sets.contains_key(chat) implies soundness::windows_match(
                b.chat_window_sets[chat],
                window::applicable(b.chat_limits, chat),
            ) by {
                assert(a.chat_window_sets.contains_key(chat));
                lemma_windows_keep_limits(
                    a.chat_window_sets[chat],
                    window::applicable(a.chat_limits, chat),
                );
                assert(b.chat_window_sets[chat] == window::prune_all(
                    a.chat_window_sets[chat],
                    now,
                ));
            }
        }
        a.lemma_fewer_entries(b);
    }

    // ---------- completion ----------

    pub proof fn lemma_penalize_inv(self, scope: OutboundScope, until: Instant)
        requires
            self.inv(),
        ensures
            self.penalize(scope, until).inv(),
    {
        self.lemma_fewer_entries(self.penalize(scope, until));
    }

    /// Starting a job of an ordered-start lane does what its completion does,
    /// but for the job itself, which stays in flight.
    pub proof fn lemma_start_releases(self, id: JobId, now: Instant)
        ensures
            self.start(id, now) == self || {
                &&& self.in_flight.contains_key(id.value)
                &&& self.start(id, now) == (SchedulerView {
                    in_flight: self.in_flight.insert(id.value, InFlight { lane: None }),
                    ..self.complete(id, OutboundCompletion::Success, now)
                })
            },
    {
        let done = self.complete(id, OutboundCompletion::Success, now);
        assert(self.start(id, now) == self || self.start(id, now) =~= (SchedulerView {
            in_flight: self.in_flight.insert(id.value, InFlight { lane: None }),
            ..done
        }));
    }

    pub proof fn lemma_start_inv(self, id: JobId, now: Instant)
        requires
            self.inv(),
        ensures
            self.start(id, now).inv(),
    {
        self.lemma_start_releases(id, now);
        let after = self.start(id, now);
        if after != self {
            let done = self.complete(id, OutboundCompletion::Success, now);
            self.lemma_complete_inv(id, OutboundCompletion::Success, now);
            assert(done.in_flight =~= self.in_flight.remove(id.value));
            assert(done.jobs == self.jobs);
            assert(done.keeps_refs(after));
            assert(after.lanes_inv()) by {
                assert forall|k: u64| #[trigger] after.lanes.contains_key(k) implies after.lane_ok(
                    k,
                ) by {
                    assert(done.lane_ok(k));
                }
                assert forall|k: u64| #[trigger] after.jobs.contains_key(
                    k,
                ) implies after.member_ok(k) by {
                    assert(done.member_ok(k));
                }
                assert forall|k: u64| #[trigger] after.in_flight.contains_key(
                    k,
                ) implies after.flight_ok(k) by {
                    if k != id.value {
                        assert(done.flight_ok(k));
                    }
                }
            }
        }
    }

    pub proof fn lemma_complete_inv(self, id: JobId, completion: OutboundCompletion, now: Instant)
        requires
            self.inv(),
        ensures
            self.complete(id, completion, now).inv(),
    {
        if self.in_flight.contains_key(id.value) {
            let finished = SchedulerView { in_flight: self.in_flight.remove(id.value), ..self };
            assert(JobId { value: id.value } == id);
            assert(self.flight_ok(id.value));
            let released = match self.in_flight[id.value].lane {
                Some(key) => {
                    let k0 = key.value;
                    assert(self.lane_ok(k0));
                    let freed = LaneView { in_flight: None, ..self.lanes[k0] };
                    let mid = SchedulerView { lanes: finished.lanes.insert(k0, freed), ..finished };
                    assert(mid.lanes_inv()) by {
                        assert forall|k: u64| #[trigger]
                            mid.lanes.contains_key(k) implies mid.lane_ok(k) by {
                            assert(self.lanes.contains_key(k));
                            assert(self.lane_ok(k));
                            if k != k0 {
                                if let Some(other) = self.lanes[k].in_flight {
                                    assert(other.value != id.value);
                                }
                            }
                        }
                        assert forall|k: u64| #[trigger]
                            mid.jobs.contains_key(k) implies mid.member_ok(k) by {
                            assert(self.member_ok(k));
                        }
                        assert forall|k: u64| #[trigger]
                            mid.in_flight.contains_key(k) implies mid.flight_ok(k) by {
                            assert(self.flight_ok(k));
                            if let Some(other) = self.in_flight[k].lane {
                                assert(other.value != k0);
                            }
                        }
                    }
                    assert(self.keeps_refs(mid));
                    assert(mid.inv());
                    if freed.pending.len() > 0 {
                        mid.lemma_push_lane_inv(key, now);
                    } else {
                        lane::lemma_drop_dead_is_suffix(freed.pending, mid.jobs);
                        mid.lemma_drop_lane(k0);
                        assert(mid.lanes.remove(k0) =~= finished.lanes.remove(k0));
                    }
                    finished.release_lane(key, now)
                },
                None => {
                    assert(finished.lanes_inv()) by {
                        assert forall|k: u64| #[trigger]
                            finished.lanes.contains_key(k) implies finished.lane_ok(k) by {
                            assert(self.lane_ok(k));
                            if let Some(other) = self.lanes[k].in_flight {
                                assert(other.value != id.value);
                            }
                        }
                        assert forall|k: u64| #[trigger]
                            finished.jobs.contains_key(k) implies finished.member_ok(k) by {
                            assert(self.member_ok(k));
                        }
                        assert forall|k: u64| #[trigger]
                            finished.in_flight.contains_key(k) implies finished.flight_ok(k) by {
                            assert(self.flight_ok(k));
                        }
                    }
                    assert(self.keeps_refs(finished));
                    finished
                },
            };
            assert(released.inv());
            if let OutboundCompletion::RetryAfter { scope, duration } = completion {
                released.lemma_penalize_inv(scope, now.plus(duration));
            }
        }
    }

    // ---------- deadlines ----------

    pub proof fn lemma_trim_delayed_inv(self)
        requires
            self.inv(),
        ensures
            self.trim_delayed().inv(),
        decreases self.delayed.len(),
    {
        if self.delayed.len() > 0 && !self.jobs.contains_key(
            heap::first_of(self.delayed).job.value,
        ) {
            heap::lemma_first_exists(self.delayed);
            let entry = heap::first_of(self.delayed);
            model::lemma_remove_shrinks(self.delayed, entry);
            let rest = SchedulerView {
                delayed: self.delayed.remove(entry),
                stale_delayed: lane::less(self.stale_delayed, 1),
                ..self
            };
            self.lemma_fewer_entries(rest);
            rest.lemma_trim_delayed_inv();
        }
    }

    pub proof fn lemma_trim_blocked_inv(self)
        requires
            self.inv(),
        ensures
            self.trim_blocked().inv(),
        decreases self.blocked.len(),
    {
        if self.blocked.len() > 0 && !model::reference_alive(
            heap::first_of(self.blocked).reference,
            self.jobs,
            self.lanes,
        ) {
            heap::lemma_first_exists(self.blocked);
            let entry = heap::first_of(self.blocked);
            model::lemma_remove_shrinks(self.blocked, entry);
            let rest = SchedulerView { blocked: self.blocked.remove(entry), ..self };
            self.lemma_fewer_entries(rest);
            rest.lemma_trim_blocked_inv();
        }
    }

    pub proof fn lemma_trim_aging_inv(self)
        requires
            self.inv(),
        ensures
            self.trim_aging().inv(),
        decreases self.aging_events.len(),
    {
        if self.aging_events.len() > 0 && !self.is_candidate(
            heap::first_of(self.aging_events).reference,
        ) {
            heap::lemma_first_exists(self.aging_events);
            let event = heap::first_of(self.aging_events);
            model::lemma_remove_shrinks(self.aging_events, event);
            let rest = SchedulerView { aging_events: self.aging_events.remove(event), ..self };
            self.lemma_fewer_entries(rest);
            rest.lemma_trim_aging_inv();
        }
    }

    pub proof fn lemma_trimmed_inv(self)
        requires
            self.inv(),
        ensures
            self.trimmed().inv(),
    {
        self.lemma_trim_delayed_inv();
        self.trim_delayed().lemma_trim_blocked_inv();
        self.trim_delayed().trim_blocked().lemma_trim_aging_inv();
    }

    // ---------- new limits ----------

    proof fn lemma_push_references_inv(self, references: Seq<CandidateRef>, now: Instant)
        requires
            self.inv(),
            forall|i: int| 0 <= i < references.len() ==> self.ref_ok(#[trigger] references[i]),
        ensures
            self.push_references(references, now).inv(),
            self.keeps_refs(self.push_references(references, now)),
        decreases references.len(),
    {
        if references.len() > 0 {
            let front = references.drop_last();
            assert forall|i: int| 0 <= i < front.len() implies self.ref_ok(
                #[trigger] front[i],
            ) by {
                assert(front[i] == references[i]);
            }
            self.lemma_push_references_inv(front, now);
            let before = self.push_references(front, now);
            let last = references.last();
            assert(self.ref_ok(references[references.len() - 1]));
            assert(before.ref_ok(last));
            before.lemma_push_reference_inv(last, now);
            before.lemma_push_frame(last, now);
        }
    }

    proof fn lemma_wake_parked_inv(self, holds: Seq<ReservationView>, now: Instant)
        requires
            self.inv(),
            forall|i: int, j: int|
                0 <= i < holds.len() && 0 <= j < holds[i].queue.len() ==> self.ref_ok(
                    #[trigger] holds[i].queue[j],
                ),
        ensures
            self.wake_parked(holds, now).inv(),
            self.keeps_refs(self.wake_parked(holds, now)),
        decreases holds.len(),
    {
        if holds.len() > 0 {
            let front = holds.drop_last();
            assert forall|i: int, j: int|
                0 <= i < front.len() && 0 <= j < front[i].queue.len() implies self.ref_ok(
                #[trigger] front[i].queue[j],
            ) by {
                assert(front[i].queue[j] == holds[i].queue[j]);
            }
            self.lemma_wake_parked_inv(front, now);
            let before = self.wake_parked(front, now);
            let queue = holds.last().queue;
            assert forall|j: int| 0 <= j < queue.len() implies before.ref_ok(
                #[trigger] queue[j],
            ) by {
                assert(self.ref_ok(holds[holds.len() - 1].queue[j]));
            }
            before.lemma_push_references_inv(queue, now);
        }
    }

    pub proof fn lemma_relimited_inv(self, limits: OutboundLimits)
        requires
            self.inv(),
            self.limits_refusal(limits) is None,
        ensures
            self.relimited(limits).inv(),
    {
        let relimited = self.relimited(limits);
        relimited.lemma_same_lanes(self);
        assert(self.keeps_refs(relimited));
        assert(relimited.weights_inv()) by {
            assert forall|k: u64| #[trigger] relimited.jobs.contains_key(k) implies {
                &&& model::too_small(limits.global@, relimited.jobs[k].meta.weight@) is None
                &&& model::too_small_in_chat(
                    limits.chat@,
                    relimited.jobs[k].meta.scope,
                    relimited.jobs[k].meta.weight@,
                ) is None
            } by {
                assert(self.jobs.contains_key(k));
                self.lemma_no_unfit(limits, k);
            }
        }
        assert(relimited.windows_inv());
    }

    pub proof fn lemma_set_limits_inv(self, limits: OutboundLimits, now: Instant)
        requires
            self.inv(),
        ensures
            self.set_limits(limits, now).inv(),
    {
        if self.limits_refusal(limits) is None {
            let relimited = self.relimited(limits);
            self.lemma_relimited_inv(limits);
            let bound = Instant { nanos: u64::MAX };
            relimited.lemma_wake_blocked_inv(bound, now);
            let woken = relimited.wake_blocked(bound, now);
            let start = SchedulerView { reservations: Seq::empty(), ..woken };
            woken.lemma_fewer_entries(start);
            assert(woken.keeps_refs(start));
            assert forall|i: int, j: int|
                0 <= i < woken.reservations.len() && 0 <= j
                    < woken.reservations[i].queue.len() implies start.ref_ok(
                #[trigger] woken.reservations[i].queue[j],
            ) by {
                assert(woken.ref_ok(woken.reservations[i].queue[j]));
            }
            start.lemma_wake_parked_inv(woken.reservations, now);
        }
    }

    /// Limits that are not refused fit every waiting job.
    proof fn lemma_no_unfit(self, limits: OutboundLimits, k: u64)
        requires
            self.limits_refusal(limits) is None,
            self.jobs.contains_key(k),
        ensures
            SchedulerView::too_small_for(self.jobs[k], limits) is None,
        decreases k,
    {
        if SchedulerView::too_small_for(self.jobs[k], limits) is Some {
            assert(!self.is_first_unfit(k, limits));
            let j = choose|j: u64| #[trigger]
                self.jobs.contains_key(j) && SchedulerView::too_small_for(
                    self.jobs[j],
                    limits,
                ) is Some && j < k;
            self.lemma_no_unfit(limits, j);
        }
    }
}

pub proof fn lemma_live_queue_is_suffix(
    queue: Seq<CandidateRef>,
    jobs: Map<u64, Job>,
    lanes: Map<u64, LaneView>,
)
    ensures
        model::live_queue(queue, jobs, lanes).len() <= queue.len(),
        model::live_queue(queue, jobs, lanes) == queue.skip(
            queue.len() - model::live_queue(queue, jobs, lanes).len(),
        ),
    decreases queue.len(),
{
    if queue.len() > 0 && !model::reference_alive(queue[0], jobs, lanes) {
        lemma_live_queue_is_suffix(queue.drop_first(), jobs, lanes);
        let rest = model::live_queue(queue, jobs, lanes);
        assert(rest =~= queue.skip(queue.len() - rest.len()));
    } else {
        assert(queue.skip(0) =~= queue);
    }
}

} // verus!
