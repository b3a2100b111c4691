//! What a grant pass changes and what it leaves alone.

use super::entries::{AgingEvent, Candidate, CandidateRef, Job};
use super::model::{PopStep, SchedulerView};
use super::{entries, lane, model};
use crate::heap;
use crate::time::Instant;
use crate::types::OutboundScope;
use vstd::prelude::*;

verus! {

broadcast use vstd::multiset::group_multiset_axioms;

/// Whether two records are of the same request at the same place.
pub open spec fn same_request(a: Job, b: Job) -> bool {
    &&& a.meta == b.meta
    &&& a.sequence == b.sequence
    &&& a.lane_order == b.lane_order
    &&& a.coalesce_key == b.coalesce_key
}

impl SchedulerView {
    /// Whether `after` has the same waiting requests, a delay ended only if
    /// its deadline had come by `now`, and nothing was granted, completed or
    /// penalized.
    pub open spec fn waits_on(self, after: SchedulerView, now: Instant) -> bool {
        &&& after.jobs.dom() == self.jobs.dom()
        &&& forall|k: u64| #[trigger]
            after.jobs.contains_key(k) ==> {
                &&& same_request(after.jobs[k], self.jobs[k])
                &&& after.jobs[k].not_before == self.jobs[k].not_before
                    || after.jobs[k].not_before is None && !entries::delayed_at(self.jobs[k], now)
            }
        &&& after.in_flight == self.in_flight
        &&& after.coalesce == self.coalesce
        &&& after.penalties == self.penalties
        &&& after.next_job_id == self.next_job_id
        &&& after.next_sequence == self.next_sequence
        &&& after.aging == self.aging
        &&& after.global_windows == self.global_windows
        &&& after.chat_window_sets == self.chat_window_sets
        &&& after.global_limits == self.global_limits
        &&& after.chat_limits == self.chat_limits
    }

    pub proof fn lemma_waits_on_trans(self, mid: SchedulerView, after: SchedulerView, now: Instant)
        requires
            self.waits_on(mid, now),
            mid.waits_on(after, now),
        ensures
            self.waits_on(after, now),
    {
        assert forall|k: u64| #[trigger] after.jobs.contains_key(k) implies {
            &&& same_request(after.jobs[k], self.jobs[k])
            &&& after.jobs[k].not_before == self.jobs[k].not_before
                || after.jobs[k].not_before is None && !entries::delayed_at(self.jobs[k], now)
        } by {
            assert(mid.jobs.dom().contains(k));
            assert(mid.jobs.contains_key(k));
        }
    }

    pub proof fn lemma_push_waits(self, reference: CandidateRef, now: Instant, at: Instant)
        ensures
            self.waits_on(self.push_reference(reference, now), at),
    {
        let after = self.push_reference(reference, now);
        assert(after.jobs.dom() =~= self.jobs.dom());
    }

    proof fn lemma_aging_steps_wait(self, due: Seq<AgingEvent>, now: Instant)
        ensures
            self.waits_on(self.aging_steps(due, now), now),
        decreases due.len(),
    {
        if due.len() > 0 {
            let mid = self.aging_steps(due.drop_last(), now);
            self.lemma_aging_steps_wait(due.drop_last(), now);
            let after = mid.aging_step(due.last().reference, now);
            assert(after.jobs.dom() =~= mid.jobs.dom());
            assert(mid.waits_on(after, now));
            self.lemma_waits_on_trans(mid, after, now);
        }
    }

    proof fn lemma_promote_delayed_waits(self, now: Instant)
        requires
            self.inv(),
        ensures
            self.waits_on(self.promote_delayed(now), now),
        decreases self.delayed.len(),
    {
        if self.delayed.len() > 0 && heap::first_of(self.delayed).not_before.nanos <= now.nanos {
            heap::lemma_first_exists(self.delayed);
            let entry = heap::first_of(self.delayed);
            let rest = SchedulerView { delayed: self.delayed.remove(entry), ..self };
            model::lemma_remove_shrinks(self.delayed, entry);
            rest.lemma_steps_keep_queues(entry, now);
            self.lemma_delayed_step_inv(entry, now);
            let mid = rest.delayed_step(entry, now);
            if self.jobs.contains_key(entry.job.value) {
                let job = self.jobs[entry.job.value];
                let ready = SchedulerView {
                    jobs: rest.jobs.insert(
                        entry.job.value,
                        Job { ready_at: now, not_before: None, ..job },
                    ),
                    ..rest
                };
                assert(ready.jobs.dom() =~= self.jobs.dom());
                assert(self.delayed.contains(entry));
                assert(self.waits_on(ready, now));
                match job.meta.lane {
                    Some(key) => ready.lemma_push_waits(CandidateRef::Lane(key), now, now),
                    None => ready.lemma_push_waits(CandidateRef::Job(entry.job), now, now),
                }
                self.lemma_waits_on_trans(ready, mid, now);
            }
            assert(self.waits_on(mid, now));
            mid.lemma_promote_delayed_waits(now);
            self.lemma_waits_on_trans(mid, self.promote_delayed(now), now);
        }
    }

    pub proof fn lemma_wake_blocked_waits(self, bound: Instant, now: Instant)
        ensures
            self.waits_on(self.wake_blocked(bound, now), now),
        decreases self.blocked.len(),
    {
        if self.blocked.len() > 0 && heap::first_of(self.blocked).until.nanos <= bound.nanos {
            heap::lemma_first_exists(self.blocked);
            let entry = heap::first_of(self.blocked);
            let rest = SchedulerView { blocked: self.blocked.remove(entry), ..self };
            model::lemma_remove_shrinks(self.blocked, entry);
            rest.lemma_blocked_step_keeps_queues(entry.reference, now);
            let mid = rest.blocked_step(entry.reference, now);
            rest.lemma_push_waits(entry.reference, now, now);
            assert(rest.waits_on(rest, now));
            assert(rest.waits_on(mid, now));
            assert(self.waits_on(rest, now));
            self.lemma_waits_on_trans(rest, mid, now);
            mid.lemma_wake_blocked_waits(bound, now);
            self.lemma_waits_on_trans(mid, self.wake_blocked(bound, now), now);
        }
    }

    proof fn lemma_reservation_steps_wait(self, windows: Seq<OutboundScope>, now: Instant)
        ensures
            self.waits_on(self.reservation_steps(windows, now), now),
        decreases windows.len(),
    {
        if windows.len() > 0 {
            self.lemma_reservation_steps_wait(windows.drop_last(), now);
            let mid = self.reservation_steps(windows.drop_last(), now);
            let after = mid.reservation_step(windows.last(), now);
            let at = model::find(mid.reservations, windows.last());
            mid.lemma_wake_at_waits(at as int, now);
            assert(mid.waits_on(after, now));
            self.lemma_waits_on_trans(mid, after, now);
        }
    }

    pub proof fn lemma_promote_waits(self, now: Instant)
        requires
            self.inv(),
        ensures
            self.waits_on(self.promote(now), now),
    {
        let start = SchedulerView {
            aging_events: model::later_events(self.aging_events, now),
            ..self
        };
        assert(self.waits_on(start, now));
        start.lemma_aging_steps_wait(model::due_events(self.aging_events, now), now);
        let a = self.promote_aging(now);
        self.lemma_waits_on_trans(start, a, now);
        self.lemma_promote_aging_inv(now);
        a.lemma_promote_delayed_waits(now);
        let b = a.promote_delayed(now);
        self.lemma_waits_on_trans(a, b, now);
        b.lemma_wake_blocked_waits(now, now);
        let c = b.wake_blocked(now, now);
        self.lemma_waits_on_trans(b, c, now);
        c.lemma_reservation_steps_wait(model::expired_windows(c.reservations, now), now);
        let d = c.promote_reservations(now);
        self.lemma_waits_on_trans(c, d, now);
        assert(d.waits_on(d.compact_lanes(), now));
        self.lemma_waits_on_trans(d, d.compact_lanes(), now);
    }

    pub proof fn lemma_pop_step_waits(self, now: Instant)
        ensures
            self.waits_on(self.pop_step(now).0, now),
    {
        if self.candidates.len() > 0 {
            let key = heap::first_of(self.candidates);
            let rest = SchedulerView { candidates: self.candidates.remove(key), ..self };
            let after = self.pop_step(now).0;
            match key.reference {
                CandidateRef::Job(id) => {
                    assert(after.jobs.dom() =~= self.jobs.dom());
                },
                CandidateRef::Lane(lane_key) => {
                    assert(after.jobs.dom() =~= self.jobs.dom());
                },
            }
        }
    }

    pub proof fn lemma_pop_candidate_waits(self, now: Instant)
        ensures
            self.waits_on(self.pop_candidate(now).0, now),
        decreases self.disorder(now), self.candidates.len(),
    {
        self.lemma_pop_step_decreases(now);
        self.lemma_pop_step_waits(now);
        let (after, step) = self.pop_step(now);
        if step is Again {
            after.lemma_pop_candidate_waits(now);
            self.lemma_waits_on_trans(after, self.pop_candidate(now).0, now);
        }
    }

    /// Popping describes the job it found.
    pub proof fn lemma_popped_describes(self, now: Instant)
        requires
            self.inv(),
        ensures
            self.pop_candidate(now).1 matches Some(c) ==> {
                &&& self.jobs.contains_key(c.job.value)
                &&& c.scope == self.jobs[c.job.value].meta.scope
                &&& c.weight == self.jobs[c.job.value].meta.weight
                &&& c.sequence == self.jobs[c.job.value].sequence
            },
        decreases self.disorder(now), self.candidates.len(),
    {
        self.lemma_pop_step_decreases(now);
        self.lemma_pop_step_waits(now);
        self.lemma_pop_step_inv(now);
        let (after, step) = self.pop_step(now);
        match step {
            PopStep::Again => {
                after.lemma_popped_describes(now);
                if let Some(c) = after.pop_candidate(now).1 {
                    assert(self.jobs.dom().contains(c.job.value));
                }
            },
            PopStep::Found(c) => {
                assert(self.jobs.dom().contains(c.job.value));
            },
            PopStep::Empty => {},
        }
    }

    /// Dealing with a candidate that does not pass leaves the waiting
    /// requests alone.
    pub proof fn lemma_dispose_waits(self, candidate: Candidate, now: Instant)
        ensures
            ({
                let after = self.dispose(candidate, now);
                &&& after.penalties == self.penalties
                &&& after.next_job_id == self.next_job_id
                &&& after.next_sequence == self.next_sequence
                &&& after.aging == self.aging
                &&& after.global_limits == self.global_limits
                &&& after.chat_limits == self.chat_limits
                &&& self.admission(candidate, now) is Pass ==> after.in_flight
                    == self.in_flight.insert(
                    candidate.job.value,
                    entries::InFlight { lane: self.jobs[candidate.job.value].meta.lane },
                )
                &&& self.admission(candidate, now) !is Pass ==> after.in_flight == self.in_flight
            }),
    {
    }
}

} // verus!
