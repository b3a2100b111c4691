//! What the passing of time wakes up.

use super::entries::{
    effective_priority, is_delayed_at, AgingEvent, CandidateRef, DelayedJob, Job,
};
use super::lane::LaneView;
use super::model::{ReservationView, SchedulerView};
use super::state::{reference_alive, SchedulerState};
use super::{lane, model, state};
use crate::heap;
use crate::time::Instant;
use crate::types::OutboundScope;
use vstd::prelude::*;

verus! {

broadcast use super::state::group_views;

impl SchedulerState {
    fn aging_due(&self, now: Instant) -> (r: bool)
        requires
            self.wf(),
        ensures
            r == (self@.aging_events.len() > 0 && heap::first_of(self@.aging_events).at.nanos
                <= now.nanos),
    {
        match self.aging_events.peek() {
            Some(event) => event.at.nanos <= now.nanos,
            None => false,
        }
    }

    fn delayed_due(&self, now: Instant) -> (r: bool)
        requires
            self.wf(),
        ensures
            r == (self@.delayed.len() > 0 && heap::first_of(self@.delayed).not_before.nanos
                <= now.nanos),
    {
        match self.delayed.peek() {
            Some(entry) => entry.not_before.nanos <= now.nanos,
            None => false,
        }
    }

    fn blocked_due(&self, bound: Instant) -> (r: bool)
        requires
            self.wf(),
        ensures
            r == (self@.blocked.len() > 0 && heap::first_of(self@.blocked).until.nanos
                <= bound.nanos),
    {
        match self.blocked.peek() {
            Some(entry) => entry.until.nanos <= bound.nanos,
            None => false,
        }
    }

    /// Deals with one aging moment that has come.
    fn aging_step(&mut self, reference: CandidateRef, now: Instant)
        requires
            old(self).wf(),
        ensures
            final(self).wf(),
            final(self)@ == old(self)@.aging_step(reference, now),
    {
        match reference {
            CandidateRef::Job(id) => {
                let job = match self.jobs.get(id.value) {
                    Some(job) => *job,
                    None => {
                        return;
                    },
                };
                if !job.in_candidate_heap {
                    // granted, blocked or parked; it is woken from there
                    return;
                }
                let level: u8 = effective_priority(&job, &self.aging, now);
                if level <= job.candidate_effective {
                    return;
                }
                let mut noted = job;
                noted.candidate_effective = level;
                self.jobs.insert(id.value, noted);
                assert(self@ =~= (SchedulerView {
                    jobs: old(self)@.jobs.insert(id.value, noted),
                    ..old(self)@
                }));
                self.push_key(reference, &job, now);
            },
            CandidateRef::Lane(key) => {
                let (effective, head) = match self.lanes.get(key.value) {
                    Some(l) => {
                        if !l.in_candidate_heap {
                            return;
                        }
                        match l.first() {
                            Some(entry) => (l.candidate_effective, entry.1),
                            None => {
                                return;
                            },
                        }
                    },
                    None => {
                        return;
                    },
                };
                let job = match self.jobs.get(head.value) {
                    Some(job) => *job,
                    None => {
                        return;
                    },
                };
                if is_delayed_at(&job, now) {
                    return;
                }
                let level: u8 = effective_priority(&job, &self.aging, now);
                if level <= effective {
                    // The head changed: wait for the current head's moment.
                    self.schedule_aging(reference, level, job.meta.priority.value, job.ready_at);
                    return;
                }
                if let Some(mut l) = self.lanes.remove(key.value) {
                    l.candidate_effective = level;
                    self.lanes.insert(key.value, l);
                }
                assert(self@ =~= (SchedulerView {
                    lanes: old(self)@.lanes.insert(
                        key.value,
                        LaneView { candidate_effective: level, ..old(self)@.lanes[key.value] },
                    ),
                    ..old(self)@
                }));
                self.push_key(reference, &job, now);
            },
        }
    }

    /// Gives fresher entries to the candidates whose aging moment has come,
    /// so that the candidates stay ordered without looking at every job.
    pub fn promote_aging(&mut self, now: Instant)
        requires
            old(self).wf(),
        ensures
            final(self).wf(),
            final(self)@ == old(self)@.promote_aging(now),
    {
        let ghost s = self@;
        let mut due: Vec<AgingEvent> = Vec::new();
        while self.aging_due(now)
            invariant
                self.wf(),
                s == old(self)@,
                self@ == (SchedulerView { aging_events: self@.aging_events, ..s }),
                due@ + model::due_events(self@.aging_events, now) == model::due_events(
                    s.aging_events,
                    now,
                ),
                model::later_events(self@.aging_events, now) == model::later_events(
                    s.aging_events,
                    now,
                ),
            decreases self@.aging_events.len(),
        {
            let ghost before = self@.aging_events;
            if let Some(event) = self.aging_events.pop() {
                proof {
                    model::lemma_remove_shrinks(before, event);
                    let rest = model::due_events(before.remove(event), now);
                    assert(due@ + (seq![event] + rest) =~= due@.push(event) + rest);
                }
                due.push(event);
            }
        }
        proof {
            assert(model::due_events(self@.aging_events, now) =~= Seq::empty());
            assert(due@ =~= model::due_events(s.aging_events, now));
        }
        let ghost start = self@;
        let mut i: usize = 0;
        assert(due@.take(0) =~= Seq::empty());
        while i < due.len()
            invariant
                i <= due@.len(),
                self.wf(),
                self@ == start.aging_steps(due@.take(i as int), now),
            decreases due@.len() - i,
        {
            let event = due[i];
            proof {
                assert(due@.take(i + 1).drop_last() =~= due@.take(i as int));
                assert(due@.take(i + 1).last() == event);
            }
            self.aging_step(event.reference, now);
            i = i + 1;
        }
        assert(due@.take(i as int) =~= due@);
    }

    /// Deals with one delay deadline that has come.
    fn delayed_step(&mut self, entry: DelayedJob, now: Instant)
        requires
            old(self).wf(),
        ensures
            final(self).wf(),
            final(self)@ == old(self)@.delayed_step(entry, now),
    {
        let mut job = match self.jobs.get(entry.job.value) {
            Some(job) => *job,
            None => {
                // cancelled or superseded while delayed
                self.stale_delayed = self.stale_delayed.saturating_sub(1);
                assert(self@ =~= old(self)@.delayed_step(entry, now));
                return;
            },
        };
        job.ready_at = now;
        job.not_before = None;
        self.jobs.insert(entry.job.value, job);
        assert(self@ =~= (SchedulerView {
            jobs: old(self)@.jobs.insert(
                entry.job.value,
                Job { ready_at: now, not_before: None, ..old(self)@.jobs[entry.job.value] },
            ),
            ..old(self)@
        }));
        match job.meta.lane {
            Some(key) => self.push_lane_head_candidate(key, now),
            None => self.push_job_candidate(entry.job, now),
        }
    }

    /// Readies every job whose delay deadline has come.
    pub fn promote_delayed(&mut self, now: Instant)
        requires
            old(self).wf(),
        ensures
            final(self).wf(),
            final(self)@ == old(self)@.promote_delayed(now),
    {
        while self.delayed_due(now)
            invariant
                self.wf(),
                self@.promote_delayed(now) == old(self)@.promote_delayed(now),
            decreases self@.delayed.len(),
        {
            let ghost before = self@;
            if let Some(entry) = self.delayed.pop() {
                let ghost rest = SchedulerView { delayed: before.delayed.remove(entry), ..before };
                proof {
                    model::lemma_remove_shrinks(before.delayed, entry);
                    rest.lemma_steps_keep_queues(entry, now);
                    assert(self@ =~= rest);
                }
                self.delayed_step(entry, now);
            }
        }
    }

    /// Wakes one candidate that failed admission.
    fn blocked_step(&mut self, reference: CandidateRef, now: Instant)
        requires
            old(self).wf(),
        ensures
            final(self).wf(),
            final(self)@ == old(self)@.blocked_step(reference, now),
    {
        match reference {
            CandidateRef::Job(id) => {
                let ready = match self.jobs.get(id.value) {
                    Some(job) => job.not_before.is_none(),
                    None => false,
                };
                if ready {
                    self.push_job_candidate(id, now);
                }
            },
            CandidateRef::Lane(key) => self.push_lane_head_candidate(key, now),
        }
    }

    /// Wakes every candidate blocked until `bound` or earlier.
    pub fn wake_blocked(&mut self, bound: Instant, now: Instant)
        requires
            old(self).wf(),
        ensures
            final(self).wf(),
            final(self)@ == old(self)@.wake_blocked(bound, now),
    {
        while self.blocked_due(bound)
            invariant
                self.wf(),
                self@.wake_blocked(bound, now) == old(self)@.wake_blocked(bound, now),
            decreases self@.blocked.len(),
        {
            let ghost before = self@;
            if let Some(entry) = self.blocked.pop() {
                let ghost rest = SchedulerView { blocked: before.blocked.remove(entry), ..before };
                proof {
                    model::lemma_remove_shrinks(before.blocked, entry);
                    rest.lemma_blocked_step_keeps_queues(entry.reference, now);
                    assert(self@ =~= rest);
                }
                self.blocked_step(entry.reference, now);
            }
        }
    }

    /// Wakes the candidates whose blocked deadline has passed.
    pub fn promote_blocked(&mut self, now: Instant)
        requires
            old(self).wf(),
        ensures
            final(self).wf(),
            final(self)@ == old(self)@.wake_blocked(now, now),
    {
        self.wake_blocked(now, now);
    }

    /// Deals with one hold that has ended.
    fn reservation_step(&mut self, scope: OutboundScope, now: Instant)
        requires
            old(self).wf(),
        ensures
            final(self).wf(),
            final(self)@ == old(self)@.reservation_step(scope, now),
    {
        let at: usize = self.find_reservation(scope);
        if at < self.reservations.len() {
            self.wake_at(at, now);
        }
    }

    /// Serves the queue of one hold: drops dead parked references and wakes
    /// the foremost live one.
    pub fn wake_at(&mut self, at: usize, now: Instant)
        requires
            old(self).wf(),
            at < old(self)@.reservations.len(),
        ensures
            final(self).wf(),
            final(self)@ == old(self)@.wake_at(at as int, now),
    {
        let ghost s = self@;
        let ghost queue = model::live_queue(s.reservations[at as int].queue, s.jobs, s.lanes);
        let mut r = self.reservations.remove(at);
        let ghost held = r@;
        let mut looking = true;
        while looking && r.queue.len() > 0
            invariant
                self.wf(),
                self@.jobs == s.jobs,
                self@.lanes == s.lanes,
                r@ == (ReservationView { queue: r.queue@, ..held }),
                model::live_queue(r.queue@, s.jobs, s.lanes) == queue,
                !looking ==> r.queue@ == queue,
            decreases
                    (if looking {
                        1int
                    } else {
                        0int
                    }),
                    r.queue@.len(),
        {
            let front = r.queue[0];
            if reference_alive(front, &self.jobs, &self.lanes) {
                looking = false;
            } else {
                let ghost before = r.queue@;
                let _ = r.queue.pop_front();
                assert(r.queue@ =~= before.drop_first());
            }
        }
        assert(r.queue@ =~= queue);
        match r.queue.pop_front() {
            None => {
                assert(self@.reservations =~= s.reservations.remove(at as int));
                assert(self@ =~= s.wake_at(at as int, now));
            },
            Some(reference) => {
                let ghost rest = r@;
                self.reservations.insert(at, r);
                proof {
                    assert(rest.queue =~= queue.drop_first());
                    let updated = s.reservations.update(
                        at as int,
                        ReservationView { queue: queue.drop_first(), ..held },
                    );
                    assert(self@.reservations =~= updated);
                    assert(self@ =~= (SchedulerView { reservations: updated, ..s }));
                }
                self.push_reference(reference, now);
            },
        }
    }

    /// Deals with every hold that has ended: exactly the head of each parked
    /// queue becomes a candidate, so a rate-limited drain stays linear instead
    /// of waking the whole queue every time. While the pass goes on, whoever
    /// is next is woken as long as there may be room.
    pub fn promote_reservations(&mut self, now: Instant)
        requires
            old(self).wf(),
        ensures
            final(self).wf(),
            final(self)@ == old(self)@.promote_reservations(now),
    {
        let ghost s = self@;
        let ghost all = s.reservations;
        let mut expired: Vec<OutboundScope> = Vec::new();
        let mut i: usize = 0;
        assert(all.take(0) =~= Seq::empty());
        while i < self.reservations.len()
            invariant
                i <= self.reservations@.len(),
                *self == *old(self),
                all == self@.reservations,
                expired@ == model::expired_windows(all.take(i as int), now),
            decreases self.reservations@.len() - i,
        {
            proof {
                assert(all.take(i + 1).drop_last() =~= all.take(i as int));
                assert(all.take(i + 1).last() == self.reservations@[i as int]@);
            }
            if self.reservations[i].until.nanos <= now.nanos {
                expired.push(self.reservations[i].window);
            }
            i = i + 1;
        }
        assert(all.take(i as int) =~= all);
        let mut i: usize = 0;
        assert(expired@.take(0) =~= Seq::empty());
        while i < expired.len()
            invariant
                i <= expired@.len(),
                self.wf(),
                self@ == s.reservation_steps(expired@.take(i as int), now),
            decreases expired@.len() - i,
        {
            proof {
                assert(expired@.take(i + 1).drop_last() =~= expired@.take(i as int));
                assert(expired@.take(i + 1).last() == expired@[i as int]);
            }
            self.reservation_step(expired[i], now);
            i = i + 1;
        }
        assert(expired@.take(i as int) =~= expired@);
    }
}

} // verus!
