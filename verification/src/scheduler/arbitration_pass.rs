//! A grant pass looks at the best candidate first.

use super::entries::{AgingEvent, Candidate, CandidateKey, CandidateRef, DelayedJob, Job};
use super::model::{PopStep, ReservationView, SchedulerView};
use super::{arbitration, coverage, entries, lane, model, soundness_grant, wakeups};
use crate::heap;
use crate::time::Instant;
use crate::types::{AgingPolicy, OutboundScope, HIGHEST_LEVEL};
use vstd::multiset::Multiset;
use vstd::prelude::*;

verus! {

broadcast use vstd::multiset::group_multiset_axioms;

// A rise that has come shows in the effective priority.
proof fn lemma_risen(job: Job, aging: AgingPolicy, now: Instant)
    requires
        wakeups::spans_every_level(aging),
        job.meta.priority.value <= job.candidate_effective,
        job.candidate_effective < HIGHEST_LEVEL,
        arbitration::rise(job, aging) <= now.nanos,
    ensures
        entries::effective(job, aging, now) > job.candidate_effective,
{
    let q = entries::quantum_nanos(aging) as int;
    let n = job.candidate_effective + 1 - job.meta.priority.value;
    let waited = now.nanos - job.ready_at.nanos;
    assert(n * q >= 1) by (nonlinear_arith)
        requires
            n >= 1,
            q >= 1,
    ;
    assert(waited / q >= n) by (nonlinear_arith)
        requires
            waited >= n * q,
            n >= 1,
            q >= 1,
    ;
}

// Every aging moment has come or has not.
proof fn lemma_events_parted(events: Multiset<AgingEvent>, now: Instant, e: AgingEvent)
    requires
        events.contains(e),
    ensures
        model::later_events(events, now).contains(e) || model::due_events(events, now).contains(
            e,
        ),
        forall|i: int|
            0 <= i < model::due_events(events, now).len() ==> (#[trigger] model::due_events(
                events,
                now,
            )[i]).at.nanos <= now.nanos,
    decreases events.len(),
{
    assert(events.count(e) <= events.len());
    heap::lemma_first_exists(events);
    let first = heap::first_of(events);
    if first.at.nanos <= now.nanos {
        let others = events.remove(first);
        model::lemma_remove_shrinks(events, first);
        let rest = model::due_events(others, now);
        let due = model::due_events(events, now);
        assert(due == seq![first] + rest);
        if others.len() > 0 {
            let other = others.choose();
            assert(others.contains(other));
            lemma_events_parted(others, now, other);
        } else {
            assert(rest.len() == 0);
        }
        assert forall|i: int| 0 <= i < due.len() implies (#[trigger] due[i]).at.nanos
            <= now.nanos by {
            if i > 0 {
                assert(due[i] == rest[i - 1]);
            }
        }
        if e == first {
            assert(due[0] == e);
        } else {
            assert(others.contains(e));
            lemma_events_parted(others, now, e);
            if rest.contains(e) {
                let i = choose|i: int| 0 <= i < rest.len() && rest[i] == e;
                assert(due[i + 1] == e);
            }
        }
    }
}

impl SchedulerView {
    /// Whether the next rise of the job is among the moments from `i` on.
    spec fn rise_due(self, id: u64, due: Seq<AgingEvent>, i: int) -> bool {
        exists|j: int|
            i <= j < due.len() && (#[trigger] due[j]).reference == coverage::job_ref(id)
                && due[j].at.nanos == arbitration::rise(self.jobs[id], self.aging)
    }

    /// Whether the candidate entries rank the unlaned jobs, while the moments
    /// from `i` on have come and have not been dealt with.
    spec fn ranked_while(self, due: Seq<AgingEvent>, i: int, now: Instant) -> bool {
        &&& forall|k: CandidateKey| #[trigger] self.candidates.contains(k) ==> self.key_ranked(k)
        &&& forall|id: u64| #[trigger]
            self.jobs.contains_key(id) && arbitration::at_large(self.jobs[id])
                ==> self.jobs[id].candidate_effective <= entries::effective(
                self.jobs[id],
                self.aging,
                now,
            )
        &&& forall|id: u64| #[trigger]
            self.jobs.contains_key(id) && arbitration::at_large(self.jobs[id])
                && self.jobs[id].in_candidate_heap ==> self.rise_noted(id) || {
                &&& self.jobs[id].meta.priority.value <= self.jobs[id].candidate_effective
                &&& self.rise_due(id, due, i)
            }
    }

    proof fn lemma_aging_step_ranked(self, due: Seq<AgingEvent>, i: int, now: Instant)
        requires
            0 <= i < due.len(),
            due[i].at.nanos <= now.nanos,
            self.ranked_while(due, i, now),
            wakeups::spans_every_level(self.aging),
            self.ref_ok(due[i].reference),
        ensures
            self.aging_step(due[i].reference, now).ranked_while(due, i + 1, now),
    {
        let reference = due[i].reference;
        let after = self.aging_step(reference, now);
        match reference {
            CandidateRef::Job(id) => {
                assert(coverage::job_ref(id.value) == reference);
                let job = self.jobs[id.value];
                let level = entries::effective(job, self.aging, now);
                if self.jobs.contains_key(id.value) && job.in_candidate_heap && level
                    > job.candidate_effective {
                    wakeups::lemma_rise_ahead(job, self.aging, now);
                    let noted = after.jobs[id.value];
                    assert(entries::effective(noted, self.aging, now) == level);
                    assert(arbitration::rise(noted, self.aging) == job.ready_at.nanos + (level + 1
                        - job.meta.priority.value) * entries::quantum_nanos(self.aging));
                    assert(after.rise_noted(id.value));
                    assert forall|k: CandidateKey| #[trigger] after.candidates.contains(
                        k,
                    ) implies after.key_ranked(k) by {
                        if self.candidates.contains(k) {
                            assert(self.key_ranked(k));
                        } else {
                            assert(k.reference == reference);
                        }
                    }
                } else {
                    assert(after == self);
                    if self.jobs.contains_key(id.value) && job.in_candidate_heap {
                        if !self.rise_noted(id.value) {
                            let j = choose|j: int|
                                i <= j < due.len() && (#[trigger] due[j]).reference == reference
                                    && due[j].at.nanos == arbitration::rise(job, self.aging);
                            if j == i {
                                if job.candidate_effective < HIGHEST_LEVEL {
                                    lemma_risen(job, self.aging, now);
                                }
                                assert(self.rise_noted(id.value));
                            }
                        }
                    }
                }
                assert forall|k: u64| #[trigger] after.jobs.contains_key(k)
                    && arbitration::at_large(after.jobs[k])
                    && after.jobs[k].in_candidate_heap implies after.rise_noted(k) || {
                    &&& after.jobs[k].meta.priority.value <= after.jobs[k].candidate_effective
                    &&& after.rise_due(k, due, i + 1)
                } by {
                    if k != id.value {
                        if self.rise_noted(k) {
                            assert(after.rise_noted(k));
                        } else {
                            let j = choose|j: int|
                                i <= j < due.len() && (#[trigger] due[j]).reference
                                    == coverage::job_ref(k) && due[j].at.nanos
                                    == arbitration::rise(self.jobs[k], self.aging);
                            assert(j != i);
                            assert(due[j].reference == coverage::job_ref(k));
                            assert(after.rise_due(k, due, i + 1));
                        }
                    } else if !after.rise_noted(k) {
                        let j = choose|j: int|
                            i <= j < due.len() && (#[trigger] due[j]).reference == reference
                                && due[j].at.nanos == arbitration::rise(job, self.aging);
                        assert(j != i);
                        assert(due[j].reference == reference);
                        assert(after.rise_due(k, due, i + 1));
                    }
                }
            },
            CandidateRef::Lane(key) => {
                assert(after.jobs == self.jobs);
                assert forall|k: CandidateKey| #[trigger] after.candidates.contains(
                    k,
                ) implies after.key_ranked(k) by {
                    if self.candidates.contains(k) {
                        assert(self.key_ranked(k));
                    } else {
                        assert(k.reference == reference);
                    }
                }
                assert forall|k: u64| #[trigger] after.jobs.contains_key(k)
                    && arbitration::at_large(after.jobs[k])
                    && after.jobs[k].in_candidate_heap implies after.rise_noted(k) || {
                    &&& after.jobs[k].meta.priority.value <= after.jobs[k].candidate_effective
                    &&& after.rise_due(k, due, i + 1)
                } by {
                    if self.rise_noted(k) {
                        assert(after.rise_noted(k));
                    } else {
                        let j = choose|j: int|
                            i <= j < due.len() && (#[trigger] due[j]).reference
                                == coverage::job_ref(k) && due[j].at.nanos == arbitration::rise(
                                self.jobs[k],
                                self.aging,
                            );
                        assert(j != i);
                        assert(due[j].reference == coverage::job_ref(k));
                        assert(after.rise_due(k, due, i + 1));
                    }
                }
            },
        }
    }

    proof fn lemma_aging_steps_ranked(self, due: Seq<AgingEvent>, i: int, now: Instant)
        requires
            self.inv(),
            0 <= i <= due.len(),
            forall|j: int| 0 <= j < due.len() ==> (#[trigger] due[j]).at.nanos <= now.nanos,
            forall|j: int| 0 <= j < due.len() ==> self.ref_ok((#[trigger] due[j]).reference),
            self.ranked_while(due, 0, now),
            wakeups::spans_every_level(self.aging),
        ensures
            self.aging_steps(due.take(i), now).ranked_while(due, i, now),
            self.aging_steps(due.take(i), now).aging == self.aging,
        decreases i,
    {
        let front = due.take(i);
        if i == 0 {
            assert(self.aging_steps(front, now) == self);
        } else {
            assert(front.drop_last() =~= due.take(i - 1));
            self.lemma_aging_steps_ranked(due, i - 1, now);
            let mid = self.aging_steps(due.take(i - 1), now);
            assert forall|j: int| 0 <= j < due.take(i - 1).len() implies self.ref_ok(
                (#[trigger] due.take(i - 1)[j]).reference,
            ) by {
                assert(due.take(i - 1)[j] == due[j]);
            }
            self.lemma_aging_steps_inv(due.take(i - 1), now);
            assert(self.ref_ok(due[i - 1].reference));
            assert(mid.ref_ok(due[i - 1].reference));
            mid.lemma_aging_step_ranked(due, i - 1, now);
            assert(front.last() == due[i - 1]);
        }
    }

    proof fn lemma_aging_step_once(self, reference: CandidateRef, now: Instant)
        requires
            self.delayed_once(),
            self.ref_ok(reference),
        ensures
            self.aging_step(reference, now).delayed_once(),
    {
        self.lemma_once_frame(self.aging_step(reference, now));
    }

    proof fn lemma_aging_steps_once(self, due: Seq<AgingEvent>, now: Instant)
        requires
            self.inv(),
            self.delayed_once(),
            forall|i: int| 0 <= i < due.len() ==> self.ref_ok((#[trigger] due[i]).reference),
        ensures
            self.aging_steps(due, now).delayed_once(),
        decreases due.len(),
    {
        if due.len() > 0 {
            let front = due.drop_last();
            assert forall|i: int| 0 <= i < front.len() implies self.ref_ok(
                (#[trigger] front[i]).reference,
            ) by {
                assert(front[i] == due[i]);
            }
            self.lemma_aging_steps_once(front, now);
            self.lemma_aging_steps_inv(front, now);
            assert(self.ref_ok(due[due.len() - 1].reference));
            self.aging_steps(front, now).lemma_aging_step_once(due.last().reference, now);
        }
    }

    proof fn lemma_promote_aging_ranked(self, now: Instant)
        requires
            self.inv(),
            self.ranked_by(now),
            self.delayed_once(),
            wakeups::spans_every_level(self.aging),
        ensures
            self.promote_aging(now).ranked_by(now),
            self.promote_aging(now).delayed_once(),
            self.promote_aging(now).aging == self.aging,
    {
        soundness_grant::lemma_events_split(self.aging_events, now);
        let start = SchedulerView {
            aging_events: model::later_events(self.aging_events, now),
            ..self
        };
        let due = model::due_events(self.aging_events, now);
        self.lemma_fewer_entries(start);
        self.lemma_once_frame(start);
        assert forall|i: int| 0 <= i < due.len() implies start.ref_ok(
            (#[trigger] due[i]).reference,
        ) by {
            assert(self.aging_events.contains(due[i]));
            assert(self.ref_ok(due[i].reference));
        }
        assert forall|i: int| 0 <= i < due.len() implies (#[trigger] due[i]).at.nanos
            <= now.nanos by {
            assert(self.aging_events.contains(due[i]));
            lemma_events_parted(self.aging_events, now, due[i]);
        }
        assert(start.ranked_while(due, 0, now)) by {
            assert forall|k: CandidateKey| #[trigger] start.candidates.contains(
                k,
            ) implies start.key_ranked(k) by {
                assert(self.key_ranked(k));
            }
            assert forall|k: u64| #[trigger] start.jobs.contains_key(k) && arbitration::at_large(
                start.jobs[k],
            ) && start.jobs[k].in_candidate_heap implies start.rise_noted(k) || {
                &&& start.jobs[k].meta.priority.value <= start.jobs[k].candidate_effective
                &&& start.rise_due(k, due, 0)
            } by {
                assert(self.rise_noted(k));
                let job = self.jobs[k];
                let at = arbitration::rise(job, self.aging);
                if job.candidate_effective < HIGHEST_LEVEL && at <= u64::MAX {
                    let e = AgingEvent {
                        at: Instant { nanos: at as u64 },
                        reference: coverage::job_ref(k),
                    };
                    lemma_rise_not_negative(job, self.aging);
                    lemma_events_parted(self.aging_events, now, e);
                    if due.contains(e) {
                        let j = choose|j: int| 0 <= j < due.len() && due[j] == e;
                        assert(due[j].reference == coverage::job_ref(k));
                        assert(start.rise_due(k, due, 0));
                    }
                }
            }
        }
        start.lemma_aging_steps_ranked(due, due.len() as int, now);
        assert(due.take(due.len() as int) =~= due);
        start.lemma_aging_steps_once(due, now);
        let after = self.promote_aging(now);
        assert(after.ranked_while(due, due.len() as int, now));
        assert forall|k: u64| #[trigger] after.jobs.contains_key(k) && arbitration::at_large(
            after.jobs[k],
        ) && after.jobs[k].in_candidate_heap implies after.rise_noted(k) by {}
    }

    pub proof fn lemma_push_once(self, reference: CandidateRef, now: Instant)
        requires
            self.delayed_once(),
            self.ref_ok(reference),
        ensures
            self.push_reference(reference, now).delayed_once(),
    {
        self.lemma_once_frame(self.push_reference(reference, now));
    }

    proof fn lemma_delayed_step_ranked(self, entry: DelayedJob, now: Instant)
        requires
            self.inv(),
            self.delayed.contains(entry),
            self.ranked_by(now),
            self.delayed_once(),
            wakeups::spans_every_level(self.aging),
        ensures
            ({
                let after = (SchedulerView {
                    delayed: self.delayed.remove(entry),
                    ..self
                }).delayed_step(entry, now);
                after.ranked_by(now) && after.delayed_once() && after.aging == self.aging
            }),
    {
        let rest = SchedulerView { delayed: self.delayed.remove(entry), ..self };
        let id = entry.job.value;
        if !self.jobs.contains_key(id) {
            let after = rest.delayed_step(entry, now);
            self.lemma_ranked_frame(after, now);
            self.lemma_once_frame(after);
        } else {
            let job = self.jobs[id];
            let ready = SchedulerView {
                jobs: rest.jobs.insert(id, Job { ready_at: now, not_before: None, ..job }),
                ..rest
            };
            assert(self.delay_unmarked(id));
            assert(ready.jobs.dom() =~= self.jobs.dom());
            assert(ready.ranked_by(now)) by {
                assert forall|k: CandidateKey| #[trigger] ready.candidates.contains(
                    k,
                ) implies ready.key_ranked(k) by {
                    assert(self.key_ranked(k));
                }
                assert forall|k: u64| #[trigger] ready.jobs.contains_key(k)
                    && arbitration::at_large(ready.jobs[k])
                    && ready.jobs[k].in_candidate_heap implies ready.rise_noted(k) by {
                    assert(k != id);
                    assert(self.rise_noted(k));
                }
            }
            assert(ready.delayed_once()) by {
                assert forall|k: u64| (#[trigger] ready.delays_of(k)).len() <= 1 by {
                    let mine = ready.delays_of(k);
                    let all = self.delays_of(k);
                    assert(mine.subset_of(all));
                    assert(all.sub(mine).len() == all.len() - mine.len());
                }
                assert forall|e: DelayedJob| #[trigger] ready.delayed.contains(e)
                    && ready.jobs.contains_key(e.job.value) implies
                    ready.jobs[e.job.value].not_before is Some by {
                    assert(self.delayed.contains(e));
                    if e.job.value == id {
                        let all = self.delays_of(id);
                        assert(all.contains(entry));
                        let left = ready.delays_of(id);
                        assert(left.contains(e));
                        assert(left =~= all.remove(entry));
                        model::lemma_remove_shrinks(all, entry);
                        assert(left.count(e) <= left.len());
                    }
                }
                assert forall|k: u64| #[trigger] ready.jobs.contains_key(
                    k,
                ) implies ready.delay_unmarked(k) by {
                    assert(self.delay_unmarked(k));
                }
            }
            match job.meta.lane {
                Some(key) => {
                    ready.lemma_push_lane_ranked(key, now);
                    ready.lemma_once_frame(ready.push_lane_head_candidate(key, now));
                },
                None => {
                    ready.lemma_push_job_ranked(entry.job, now);
                    ready.lemma_once_frame(ready.push_job_candidate(entry.job, now));
                },
            }
        }
    }

    proof fn lemma_promote_delayed_ranked(self, now: Instant)
        requires
            self.inv(),
            self.ranked_by(now),
            self.delayed_once(),
            wakeups::spans_every_level(self.aging),
        ensures
            self.promote_delayed(now).ranked_by(now),
            self.promote_delayed(now).delayed_once(),
            self.promote_delayed(now).aging == self.aging,
        decreases self.delayed.len(),
    {
        if self.delayed.len() > 0 && heap::first_of(self.delayed).not_before.nanos <= now.nanos {
            heap::lemma_first_exists(self.delayed);
            let entry = heap::first_of(self.delayed);
            let rest = SchedulerView { delayed: self.delayed.remove(entry), ..self };
            model::lemma_remove_shrinks(self.delayed, entry);
            rest.lemma_steps_keep_queues(entry, now);
            self.lemma_delayed_step_inv(entry, now);
            self.lemma_delayed_step_ranked(entry, now);
            rest.delayed_step(entry, now).lemma_promote_delayed_ranked(now);
        }
    }

    pub proof fn lemma_wake_blocked_ranked(self, bound: Instant, now: Instant)
        requires
            self.inv(),
            self.ranked_by(now),
            self.delayed_once(),
            wakeups::spans_every_level(self.aging),
        ensures
            self.wake_blocked(bound, now).ranked_by(now),
            self.wake_blocked(bound, now).delayed_once(),
            self.wake_blocked(bound, now).aging == self.aging,
        decreases self.blocked.len(),
    {
        if self.blocked.len() > 0 && heap::first_of(self.blocked).until.nanos <= bound.nanos {
            heap::lemma_first_exists(self.blocked);
            let entry = heap::first_of(self.blocked);
            let rest = SchedulerView { blocked: self.blocked.remove(entry), ..self };
            model::lemma_remove_shrinks(self.blocked, entry);
            rest.lemma_blocked_step_keeps_queues(entry.reference, now);
            self.lemma_fewer_entries(rest);
            self.lemma_ranked_frame(rest, now);
            self.lemma_once_frame(rest);
            assert(self.ref_ok(entry.reference));
            assert(rest.ref_ok(entry.reference));
            rest.lemma_push_ranked(entry.reference, now);
            rest.lemma_push_once(entry.reference, now);
            rest.lemma_push_reference_inv(entry.reference, now);
            rest.blocked_step(entry.reference, now).lemma_wake_blocked_ranked(bound, now);
        }
    }

    pub proof fn lemma_wake_at_ranked(self, at: int, now: Instant)
        requires
            self.inv(),
            self.ranked_by(now),
            self.delayed_once(),
            wakeups::spans_every_level(self.aging),
            0 <= at < self.reservations.len(),
        ensures
            self.wake_at(at, now).ranked_by(now),
            self.wake_at(at, now).delayed_once(),
            self.wake_at(at, now).aging == self.aging,
    {
        let after = self.wake_at(at, now);
        let r = self.reservations[at];
        let queue = model::live_queue(r.queue, self.jobs, self.lanes);
        soundness_grant::lemma_live_queue_is_suffix(r.queue, self.jobs, self.lanes);
        if queue.len() == 0 {
            self.lemma_ranked_frame(after, now);
            self.lemma_once_frame(after);
        } else {
            let rest = SchedulerView {
                reservations: self.reservations.update(
                    at,
                    ReservationView { queue: queue.drop_first(), ..r },
                ),
                ..self
            };
            self.lemma_ranked_frame(rest, now);
            self.lemma_once_frame(rest);
            assert(queue[0] == r.queue[r.queue.len() - queue.len()]);
            assert(self.ref_ok(self.reservations[at].queue[r.queue.len() - queue.len()]));
            assert(rest.ref_ok(queue[0]));
            rest.lemma_push_ranked(queue[0], now);
            rest.lemma_push_once(queue[0], now);
        }
    }

    proof fn lemma_reservation_steps_ranked(self, windows: Seq<OutboundScope>, now: Instant)
        requires
            self.inv(),
            self.ranked_by(now),
            self.delayed_once(),
            wakeups::spans_every_level(self.aging),
        ensures
            self.reservation_steps(windows, now).ranked_by(now),
            self.reservation_steps(windows, now).delayed_once(),
            self.reservation_steps(windows, now).aging == self.aging,
        decreases windows.len(),
    {
        if windows.len() > 0 {
            self.lemma_reservation_steps_ranked(windows.drop_last(), now);
            self.lemma_reservation_steps_inv(windows.drop_last(), now);
            let mid = self.reservation_steps(windows.drop_last(), now);
            let at = model::find(mid.reservations, windows.last());
            if at < mid.reservations.len() {
                mid.lemma_wake_at_ranked(at as int, now);
            }
        }
    }

    pub proof fn lemma_promote_ranked(self, now: Instant)
        requires
            self.inv(),
            self.ranked_by(now),
            self.delayed_once(),
            wakeups::spans_every_level(self.aging),
        ensures
            self.promote(now).ranked_by(now),
            self.promote(now).delayed_once(),
    {
        self.lemma_promote_aging_ranked(now);
        self.lemma_promote_aging_inv(now);
        let a = self.promote_aging(now);
        a.lemma_promote_delayed_ranked(now);
        a.lemma_promote_delayed_inv(now);
        let b = a.promote_delayed(now);
        b.lemma_wake_blocked_ranked(now, now);
        b.lemma_wake_blocked_inv(now, now);
        let c = b.wake_blocked(now, now);
        c.lemma_reservation_steps_ranked(model::expired_windows(c.reservations, now), now);
        let d = c.promote_reservations(now);
        d.lemma_ranked_frame(d.compact_lanes(), now);
        d.lemma_once_frame(d.compact_lanes());
    }

    // ---------- picking and granting ----------

    proof fn lemma_pop_step_ranked(self, now: Instant)
        requires
            self.ranked_by(now),
            self.delayed_once(),
            self.inv(),
        ensures
            self.pop_step(now).0.ranked_by(now),
            self.pop_step(now).0.delayed_once(),
    {
        let after = self.pop_step(now).0;
        if self.candidates.len() > 0 {
            heap::lemma_first_exists(self.candidates);
            let key = heap::first_of(self.candidates);
            assert(self.ref_ok(key.reference));
            assert forall|k: CandidateKey| #[trigger] after.candidates.contains(k) implies
                self.candidates.contains(k) || k.reference is Lane by {}
            self.lemma_ranked_frame(after, now);
            self.lemma_once_frame(after);
        }
    }

    pub proof fn lemma_pop_candidate_ranked(self, now: Instant)
        requires
            self.ranked_by(now),
            self.delayed_once(),
            self.inv(),
        ensures
            self.pop_candidate(now).0.ranked_by(now),
            self.pop_candidate(now).0.delayed_once(),
        decreases self.disorder(now), self.candidates.len(),
    {
        self.lemma_pop_step_decreases(now);
        self.lemma_pop_step_inv(now);
        self.lemma_pop_step_ranked(now);
        let (after, step) = self.pop_step(now);
        if step is Again {
            after.lemma_pop_candidate_ranked(now);
        }
    }

    pub proof fn lemma_dispose_ranked(self, c: Candidate, now: Instant)
        requires
            self.ranked_by(now),
            self.delayed_once(),
        ensures
            self.dispose(c, now).ranked_by(now),
            self.dispose(c, now).delayed_once(),
    {
        let after = self.dispose(c, now);
        self.lemma_ranked_frame(after, now);
        self.lemma_once_frame(after);
    }

    pub proof fn lemma_pick_ranked(self, now: Instant)
        requires
            self.inv(),
            self.ranked_by(now),
            self.delayed_once(),
            wakeups::spans_every_level(self.aging),
        ensures
            self.pick(now).0.ranked_by(now),
            self.pick(now).0.delayed_once(),
            self.pick(now).0.aging == self.aging,
        decreases model::lingering(self.reservations, now),
    {
        self.lemma_woken_lingers_no_more(now);
        self.lemma_pop_candidate_inv(now);
        self.lemma_pop_candidate_waits(now);
        self.lemma_pop_candidate_ranked(now);
        let (popped, found) = self.pop_candidate(now);
        match found {
            None => {
                let at = popped.first_lingering(now);
                if at < popped.reservations.len() {
                    popped.lemma_wake_at_inv(at as int, now);
                    popped.lemma_wake_at_ranked(at as int, now);
                    popped.wake_at(at as int, now).lemma_pick_ranked(now);
                }
            },
            Some(c) => {
                let at = popped.first_overtaken(c, now);
                if at < popped.reservations.len() {
                    popped.lemma_overtaking_is_unlaned(c, now);
                    popped.lemma_wake_at_inv(at as int, now);
                    popped.lemma_wake_at_waits(at as int, now);
                    popped.lemma_wake_at_ranked(at as int, now);
                    let woken = popped.wake_at(at as int, now);
                    let own = CandidateRef::Job(c.job);
                    assert(popped.jobs.contains_key(c.job.value));
                    assert(woken.jobs.contains_key(c.job.value));
                    assert(woken.ref_ok(own));
                    woken.lemma_push_ranked(own, now);
                    woken.lemma_push_once(own, now);
                    woken.lemma_push_reference_inv(own, now);
                    woken.push_job_candidate(c.job, now).lemma_pick_ranked(now);
                }
            },
        }
    }

    pub proof fn lemma_settle_ranked(self, c: Candidate, now: Instant)
        requires
            self.inv(),
            self.grantable(c, now),
            self.ranked_by(now),
            self.delayed_once(),
            wakeups::spans_every_level(self.aging),
        ensures
            self.settle(c, now).ranked_by(now),
            self.settle(c, now).delayed_once(),
            self.settle(c, now).aging == self.aging,
    {
        self.lemma_dispose_ranked(c, now);
        self.lemma_dispose_inv(c, now);
        self.lemma_dispose_frame(c, now);
        let after = self.dispose(c, now);
        let first = model::find(after.reservations, OutboundScope::Global);
        if first < after.reservations.len() {
            after.lemma_wake_at_ranked(first as int, now);
        }
        after.lemma_wake_next_inv(OutboundScope::Global, now);
        let global = after.wake_next(OutboundScope::Global, now);
        let second = model::find(global.reservations, c.scope);
        if second < global.reservations.len() {
            global.lemma_wake_at_ranked(second as int, now);
        }
    }

    proof fn lemma_loop_step_ranked(self, now: Instant)
        requires
            self.inv(),
            self.ranked_by(now),
            self.delayed_once(),
            wakeups::spans_every_level(self.aging),
        ensures
            self.pick(now).0.ranked_by(now),
            self.pick(now).0.delayed_once(),
            self.pick(now).1 matches Some(c) ==> {
                let after = self.pick(now).0.settle(c, now);
                &&& after.inv()
                &&& after.ranked_by(now)
                &&& after.delayed_once()
                &&& after.aging == self.aging
            },
    {
        self.lemma_pick_inv(now);
        self.lemma_picked_describes(now);
        self.lemma_pick_ranked(now);
        let (popped, found) = self.pick(now);
        if let Some(c) = found {
            popped.lemma_settle_inv(c, now);
            popped.lemma_settle_ranked(c, now);
        }
    }

    pub proof fn lemma_grant_loop_ranked(self, now: Instant)
        requires
            self.inv(),
            self.ranked_by(now),
            self.delayed_once(),
            wakeups::spans_every_level(self.aging),
        ensures
            self.grant_loop(now).0.ranked_by(now),
            self.grant_loop(now).0.delayed_once(),
        decreases
            self.jobs.dom().len(),
            model::lingering(self.reservations, now),
            self.disorder(now),
            self.candidates.len(),
    {
        self.lemma_loop_step_ranked(now);
        if let Some(c) = self.pick(now).1 {
            self.lemma_settle_decreases(now);
            self.pick(now).0.settle(c, now).lemma_grant_loop_ranked(now);
        }
    }

    pub proof fn lemma_grant_ready_ranked(self, now: Instant)
        requires
            self.inv(),
            self.ranked_by(now),
            self.delayed_once(),
            wakeups::spans_every_level(self.aging),
        ensures
            self.grant_ready(now).ranked_by(now),
            self.grant_ready(now).delayed_once(),
    {
        self.lemma_promote_inv(now);
        self.lemma_promote_waits(now);
        self.lemma_promote_ranked(now);
        let mid = self.promote(now);
        mid.lemma_grant_loop_ranked(now);
        let end = mid.grant_loop(now).0;
        end.lemma_ranked_frame(self.grant_ready(now), now);
        end.lemma_once_frame(self.grant_ready(now));
    }

    // A marked job is ranked as it is once no rise is due.
    proof fn lemma_rank_is_fresh(self, id: u64, now: Instant)
        requires
            self.ranked_by(now),
            self.rises_ahead(now),
            wakeups::spans_every_level(self.aging),
            self.jobs.contains_key(id),
            arbitration::at_large(self.jobs[id]),
            self.jobs[id].in_candidate_heap,
        ensures
            self.jobs[id].candidate_effective == entries::effective(
                self.jobs[id],
                self.aging,
                now,
            ),
    {
        let job = self.jobs[id];
        assert(self.rise_noted(id));
        if job.candidate_effective < HIGHEST_LEVEL {
            lemma_rise_not_negative(job, self.aging);
            lemma_not_risen(job, self.aging, now);
        } else {
            super::laws::law_effective_priority_only_rises(job, self.aging, now, now);
        }
    }

    /// The candidate that is picked ranks before every marked unlaned job.
    pub proof fn lemma_pick_is_best(self, now: Instant)
        requires
            self.inv(),
            self.covered(),
            self.ranked_by(now),
            self.delayed_once(),
            self.rises_ahead(now),
            wakeups::spans_every_level(self.aging),
        ensures
            self.pop_candidate(now).1 matches Some(c) ==> forall|k: u64| #[trigger]
                self.jobs.contains_key(k) && arbitration::at_large(self.jobs[k])
                    && self.jobs[k].in_candidate_heap && k != c.job.value ==> {
                    let picked = entries::effective(self.jobs[c.job.value], self.aging, now);
                    let other = entries::effective(self.jobs[k], self.aging, now);
                    picked > other || picked == other && self.jobs[c.job.value].sequence
                        < self.jobs[k].sequence
                },
        decreases self.disorder(now), self.candidates.len(),
    {
        self.lemma_pop_step_decreases(now);
        self.lemma_pop_step_inv(now);
        self.lemma_pop_step_waits(now);
        self.lemma_pop_step_covered(now);
        self.lemma_pop_step_ranked(now);
        self.lemma_pop_step_ahead(now);
        self.lemma_popped_describes(now);
        let (after, step) = self.pop_step(now);
        if step is Again {
            after.lemma_pick_is_best(now);
            if let Some(c) = after.pop_candidate(now).1 {
                heap::lemma_first_exists(self.candidates);
                let key = heap::first_of(self.candidates);
                assert(after.jobs == self.jobs);
                assert forall|k: u64| #[trigger] self.jobs.contains_key(k)
                    && arbitration::at_large(self.jobs[k]) && self.jobs[k].in_candidate_heap && k
                    != c.job.value implies {
                    let picked = entries::effective(self.jobs[c.job.value], self.aging, now);
                    let other = entries::effective(self.jobs[k], self.aging, now);
                    picked > other || picked == other && self.jobs[c.job.value].sequence
                        < self.jobs[k].sequence
                } by {
                    assert(after.jobs.contains_key(k));
                }
            }
        } else if let PopStep::Found(c) = step {
            heap::lemma_first_exists(self.candidates);
            let key = heap::first_of(self.candidates);
            let id = c.job.value;
            let job = self.jobs[id];
            assert(self.jobs.contains_key(id));
            assert(self.ref_ok(key.reference));
            assert(key.sequence == job.sequence && key.effective <= entries::effective(
                job,
                self.aging,
                now,
            )) by {
                assert(self.key_ranked(key));
            }
            assert forall|k: u64| #[trigger] self.jobs.contains_key(k) && arbitration::at_large(
                self.jobs[k],
            ) && self.jobs[k].in_candidate_heap && k != id implies {
                let picked = entries::effective(self.jobs[id], self.aging, now);
                let other = entries::effective(self.jobs[k], self.aging, now);
                picked > other || picked == other && self.jobs[id].sequence
                    < self.jobs[k].sequence
            } by {
                self.lemma_rank_is_fresh(k, now);
                assert(!Set::<CandidateRef>::empty().contains(coverage::job_ref(k)));
                assert(self.job_kept(k));
                let mine = self.key_of(k);
                assert(self.candidates.contains(mine));
                assert(!heap::rank_lt(heap::Ranked::rank(mine), heap::Ranked::rank(key)));
                assert(self.jobs[k].sequence != job.sequence);
            }
        }
    }
}

proof fn lemma_rise_not_negative(job: Job, aging: AgingPolicy)
    requires
        job.meta.priority.value <= job.candidate_effective,
    ensures
        arbitration::rise(job, aging) >= 0,
{
    let q = entries::quantum_nanos(aging) as int;
    let n = job.candidate_effective + 1 - job.meta.priority.value;
    assert(n * q >= 0) by (nonlinear_arith)
        requires
            n >= 1,
            q >= 1,
    ;
}

// A rise that has not come does not show in the effective priority.
proof fn lemma_not_risen(job: Job, aging: AgingPolicy, now: Instant)
    requires
        wakeups::spans_every_level(aging),
        job.meta.priority.value <= job.candidate_effective,
        job.candidate_effective < HIGHEST_LEVEL,
        arbitration::rise(job, aging) > now.nanos,
    ensures
        entries::effective(job, aging, now) <= job.candidate_effective,
{
    let q = entries::quantum_nanos(aging) as int;
    let n = job.candidate_effective + 1 - job.meta.priority.value;
    let waited = if now.nanos > job.ready_at.nanos {
        now.nanos - job.ready_at.nanos
    } else {
        0
    };
    assert(n * q >= 1) by (nonlinear_arith)
        requires
            n >= 1,
            q >= 1,
    ;
    assert(waited / q < n) by (nonlinear_arith)
        requires
            waited < n * q,
            waited >= 0,
            n >= 1,
            q >= 1,
    ;
}

} // verus!
