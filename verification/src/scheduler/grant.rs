//! Picking candidates and granting them.

use super::entries::{
    effective_priority, is_delayed_at, Admission, BlockedJob, Candidate, CandidateKey,
    CandidateRef, InFlight, Job,
};
use super::model::{PopStep, ReservationView, SchedulerView};
use super::state::{reference_weight, Reservation, SchedulerState};
use super::{lane, model, state};
use crate::time::Instant;
use crate::types::{Grant, JobId, OutboundLaneKey, OutboundScope};
use crate::window;
use crate::window::WindowSet;
use std::collections::VecDeque;
use vstd::prelude::*;

verus! {

broadcast use super::state::group_views;

impl SchedulerView {
    /// A candidate carries the weight and the scope of its job.
    pub proof fn lemma_pop_candidate_describes(self, now: Instant)
        ensures
            self.pop_candidate(now).1 matches Some(candidate) ==> {
                let after = self.pop_candidate(now).0;
                &&& after.jobs.contains_key(candidate.job.value)
                &&& after.jobs[candidate.job.value].meta.weight == candidate.weight
                &&& after.jobs[candidate.job.value].meta.scope == candidate.scope
            },
        decreases self.disorder(now), self.candidates.len(),
    {
        self.lemma_pop_step_decreases(now);
        let (after, step) = self.pop_step(now);
        if step is Again {
            after.lemma_pop_candidate_describes(now);
        }
    }
}

impl SchedulerState {
    /// A look at an unlaned job's entry.
    fn pop_job(&mut self, key: CandidateKey, id: JobId) -> (r: PopStep)
        requires
            old(self).wf(),
        ensures
            final(self).wf(),
            (final(self)@, r) == old(self)@.pop_job(key, id),
    {
        let job = match self.jobs.get(id.value) {
            Some(job) => *job,
            None => {
                self.stale_candidates = self.stale_candidates.saturating_add(1);
                assert(self@ =~= old(self)@.pop_job(key, id).0);
                return PopStep::Again;
            },
        };
        if key.effective < job.candidate_effective {
            // a fresher entry exists
            self.stale_candidates = self.stale_candidates.saturating_add(1);
            assert(self@ =~= old(self)@.pop_job(key, id).0);
            return PopStep::Again;
        }
        let mut taken = job;
        taken.in_candidate_heap = false;
        self.jobs.insert(id.value, taken);
        assert(self@ =~= old(self)@.pop_job(key, id).0);
        PopStep::Found(
            Candidate {
                job: id,
                sequence: job.sequence,
                effective: job.candidate_effective,
                weight: job.meta.weight,
                scope: job.meta.scope,
            },
        )
    }

    /// A look at a lane's entry. An entry that does not describe the current
    /// head is replaced by one that does.
    fn pop_lane(&mut self, key: CandidateKey, lane_key: OutboundLaneKey, now: Instant) -> (r:
        PopStep)
        requires
            old(self).wf(),
        ensures
            final(self).wf(),
            (final(self)@, r) == old(self)@.pop_lane(key, lane_key, now),
    {
        let ghost goal = old(self)@.pop_lane(key, lane_key, now);
        let overtaken = match self.lanes.get(lane_key.value) {
            Some(l) => key.effective < l.candidate_effective,
            None => true,
        };
        if overtaken {
            self.stale_candidates = self.stale_candidates.saturating_add(1);
            assert(self@ =~= goal.0);
            return PopStep::Again;
        }
        if let Some(mut l) = self.lanes.remove(lane_key.value) {
            l.in_candidate_heap = false;
            if l.in_flight.is_some() {
                self.lanes.insert(lane_key.value, l);
                assert(self@ =~= goal.0);
                return PopStep::Again;
            }
            l.drain(&self.jobs);
            proof {
                lane::lemma_drop_dead_is_suffix(
                    old(self)@.lanes[lane_key.value].pending,
                    self.jobs@,
                );
            }
            if let Some(entry) = l.first() {
                if let Some(held) = self.jobs.get(entry.1.value) {
                    let job = *held;
                    self.lanes.insert(lane_key.value, l);
                    let ghost after = SchedulerView {
                        lanes: old(self)@.lanes.insert(lane_key.value, l@),
                        ..old(self)@
                    };
                    assert(self@ =~= after);
                    if is_delayed_at(&job, now) {
                        return PopStep::Again;
                    }
                    let level: u8 = effective_priority(&job, &self.aging, now);
                    if level != key.effective || job.sequence != key.sequence {
                        self.push_lane_head_candidate(lane_key, now);
                        return PopStep::Again;
                    }
                    return PopStep::Found(
                        Candidate {
                            job: entry.1,
                            sequence: job.sequence,
                            effective: level,
                            weight: job.meta.weight,
                            scope: job.meta.scope,
                        },
                    );
                }
            }
        }
        assert(self@ =~= goal.0);
        PopStep::Again
    }

    /// One look at the foremost candidate entry.
    fn pop_once(&mut self, now: Instant) -> (r: PopStep)
        requires
            old(self).wf(),
        ensures
            final(self).wf(),
            (final(self)@, r) == old(self)@.pop_step(now),
    {
        match self.candidates.pop() {
            None => PopStep::Empty,
            Some(key) => {
                let ghost rest = SchedulerView {
                    candidates: old(self)@.candidates.remove(key),
                    ..old(self)@
                };
                assert(self@ =~= rest);
                match key.reference {
                    CandidateRef::Job(id) => self.pop_job(key, id),
                    CandidateRef::Lane(lane_key) => self.pop_lane(key, lane_key, now),
                }
            },
        }
    }

    /// Takes out the best live candidate.
    pub fn pop_candidate(&mut self, now: Instant) -> (r: Option<Candidate>)
        requires
            old(self).wf(),
        ensures
            final(self).wf(),
            (final(self)@, r) == old(self)@.pop_candidate(now),
    {
        loop
            invariant
                self.wf(),
                self@.pop_candidate(now) == old(self)@.pop_candidate(now),
            decreases self@.disorder(now), self@.candidates.len(),
        {
            proof {
                self@.lemma_pop_step_decreases(now);
            }
            match self.pop_once(now) {
                PopStep::Empty => {
                    return None;
                },
                PopStep::Found(candidate) => {
                    return Some(candidate);
                },
                PopStep::Again => {},
            }
        }
    }

    fn penalty_end(&self, scope: OutboundScope, now: Instant) -> (r: Instant)
        ensures
            r == self@.penalty_end(scope, now),
    {
        match self.penalties.get(scope) {
            Some(until) => if until.nanos > now.nanos {
                until
            } else {
                now
            },
            None => now,
        }
    }

    /// Admission check: holds, penalties and window capacity. A candidate
    /// that does not fit a window asks for a hold on it, so that lighter
    /// traffic cannot starve it.
    pub fn admission(&mut self, candidate: &Candidate, now: Instant) -> (r: Admission)
        requires
            old(self).wf(),
        ensures
            final(self).wf(),
            final(self)@ == old(self)@.after_admission(*candidate, now),
            r == old(self)@.admission(*candidate, now),
    {
        if self.reservation_active(OutboundScope::Global, now) {
            return Admission::Reserved;
        }
        let ghost s = self@;
        let weight: u32 = candidate.weight.get();
        let mut penalized = self.penalty_active(OutboundScope::Global, now);
        let mut until = self.penalty_end(OutboundScope::Global, now);
        let global_room = self.global_windows.can_consume(now, weight);
        let ghost pruned = SchedulerView {
            global_windows: window::prune_all(s.global_windows, now),
            ..s
        };
        assert(self@ =~= pruned);
        let mut room_at = now;
        if !global_room {
            if let Some(at) = self.global_windows.earliest_for(now, weight) {
                room_at = now.later(at);
            }
        }
        until = until.later(room_at);
        let mut chat_room = true;
        if let OutboundScope::Chat(chat) = candidate.scope {
            if self.reservation_active(candidate.scope, now) {
                return Admission::Reserved;
            }
            penalized = penalized || self.penalty_active(candidate.scope, now);
            until = until.later(self.penalty_end(candidate.scope, now));
            let mut set = match self.chat_window_sets.remove(chat.value) {
                Some(set) => set,
                None => WindowSet::new(&window::applicable_to(&self.chat_limits, chat)),
            };
            assert(set@ == s.chat_windows(chat));
            chat_room = set.can_consume(now, weight);
            let mut room_at = now;
            if !chat_room {
                if let Some(at) = set.earliest_for(now, weight) {
                    room_at = now.later(at);
                }
            }
            until = until.later(room_at);
            self.chat_window_sets.insert(chat.value, set);
            assert(self@ =~= s.after_admission(*candidate, now));
        }
        if !penalized && global_room && chat_room {
            Admission::Pass
        } else {
            let reserve = if !global_room {
                Some(OutboundScope::Global)
            } else if !chat_room {
                Some(candidate.scope)
            } else {
                None
            };
            Admission::Blocked { until, reserve }
        }
    }

    /// Grants a candidate that passed: its job leaves the queue, its lane is
    /// taken, and its weight is debited from every window it consumes.
    pub fn grant(&mut self, candidate: &Candidate, now: Instant)
        requires
            old(self).wf(),
            old(self)@.jobs.contains_key(candidate.job.value),
            window::all_fit(
                old(self)@.global_windows,
                old(self)@.jobs[candidate.job.value].meta.weight@,
            ),
            old(self)@.jobs[candidate.job.value].meta.scope matches OutboundScope::Chat(chat)
                ==> window::all_fit(
                old(self)@.chat_windows(chat),
                old(self)@.jobs[candidate.job.value].meta.weight@,
            ),
        ensures
            final(self).wf(),
            final(self)@ == old(self)@.grant(*candidate, now),
    {
        let ghost s = self@;
        let job = match self.jobs.remove(candidate.job.value) {
            Some(job) => job,
            None => {
                return;
            },
        };
        assert(self.jobs@.dom() =~= s.jobs.dom().remove(candidate.job.value));
        if let Some(key) = job.meta.lane {
            if let Some(mut l) = self.lanes.remove(key.value) {
                l.pop_first();
                l.in_flight = Some(candidate.job);
                self.lanes.insert(key.value, l);
            } else {
                assert(self.lanes@ =~= old(self).lanes@);
            }
        }
        let weight: u32 = job.meta.weight.get();
        self.global_windows.consume(now, weight);
        if let OutboundScope::Chat(chat) = job.meta.scope {
            let mut set = match self.chat_window_sets.remove(chat.value) {
                Some(set) => set,
                None => WindowSet::new(&window::applicable_to(&self.chat_limits, chat)),
            };
            assert(set@ == s.chat_windows(chat));
            set.consume(now, weight);
            self.chat_window_sets.insert(chat.value, set);
        }
        self.in_flight.insert(candidate.job.value, InFlight { lane: job.meta.lane });
        let ghost mid = self@;
        self.remove_coalesce_entry(candidate.job, job.coalesce_key);
        assert(self@ =~= s.grant(*candidate, now));
    }

    /// Extends the hold on a window to the moment its next parked candidate
    /// fits, so the parked queue paces itself through the window.
    fn rearm_window(&mut self, scope: OutboundScope, now: Instant)
        requires
            old(self).wf(),
        ensures
            final(self).wf(),
            final(self)@ == old(self)@.rearm_window(scope, now),
    {
        let at: usize = self.find_reservation(scope);
        if at >= self.reservations.len() {
            return;
        }
        if self.reservations[at].queue.len() == 0 {
            return;
        }
        let front = self.reservations[at].queue[0];
        let weight: u32 = match reference_weight(front, &self.jobs, &self.lanes) {
            Some(weight) => weight,
            None => {
                return;
            },
        };
        let fits = match scope {
            OutboundScope::Global => self.global_windows.earliest_for(now, weight),
            OutboundScope::Chat(chat) => match self.chat_window_sets.get(chat.value) {
                Some(set) => set.earliest_for(now, weight),
                None => None,
            },
        };
        if let Some(until) = fits {
            self.reservations[at].until = until.later(now);
            proof {
                let s = old(self)@;
                let updated = s.reservations.update(
                    at as int,
                    ReservationView { until: until.later(now), ..s.reservations[at as int] },
                );
                assert(self@.reservations =~= updated);
                assert(self@ =~= (SchedulerView { reservations: updated, ..s }));
            }
        }
    }

    /// After a grant consumed its windows, extends the holds on them.
    fn rearm_reservations(&mut self, scope: OutboundScope, now: Instant)
        requires
            old(self).wf(),
        ensures
            final(self).wf(),
            final(self)@ == old(self)@.rearm_reservations(scope, now),
    {
        self.rearm_window(OutboundScope::Global, now);
        if let OutboundScope::Chat(_) = scope {
            self.rearm_window(scope, now);
        }
    }

    /// Holds a window back until `until` for `owner`, unless it is held
    /// longer already.
    fn hold(&mut self, scope: OutboundScope, until: Instant, owner: CandidateRef)
        requires
            old(self).wf(),
        ensures
            final(self).wf(),
            final(self)@ == old(self)@.hold(scope, until, owner),
    {
        let ghost goal = old(self)@.hold(scope, until, owner);
        let at: usize = self.find_reservation(scope);
        if at >= self.reservations.len() {
            self.reservations.push(
                Reservation { window: scope, until, owner, queue: VecDeque::new() },
            );
            assert(self@.reservations =~= goal.reservations);
            assert(self@ =~= goal);
        } else if until.nanos > self.reservations[at].until.nanos {
            self.reservations[at].until = until;
            self.reservations[at].owner = owner;
            assert(self@.reservations =~= goal.reservations);
            assert(self@ =~= goal);
        }
    }

    /// Puts a candidate that did not pass to sleep.
    fn block(&mut self, candidate: &Candidate, until: Instant, reserve: Option<OutboundScope>)
        requires
            old(self).wf(),
        ensures
            final(self).wf(),
            final(self)@ == old(self)@.block(*candidate, until, reserve),
    {
        let reference = self.reference_of(candidate.job);
        if let Some(scope) = reserve {
            self.hold(scope, until, reference);
        }
        let ghost held = self@;
        self.blocked.push(BlockedJob { until, reference });
        assert(self@ =~= (SchedulerView {
            blocked: held.blocked.insert(BlockedJob { until, reference }),
            ..held
        }));
    }

    /// The window whose *active* hold parks a candidate.
    fn reservation_window(&self, scope: OutboundScope, now: Instant) -> (r: OutboundScope)
        ensures
            r == self@.parking_window(scope, now),
    {
        if self.reservation_active(OutboundScope::Global, now) {
            OutboundScope::Global
        } else {
            scope
        }
    }

    /// The sequence of the unlaned job that the reference is to, while it
    /// waits.
    fn age_of(&self, reference: &CandidateRef) -> (r: Option<u64>)
        ensures
            r == model::age_of(*reference, self@.jobs),
    {
        match reference {
            CandidateRef::Job(id) => match self.jobs.get(id.value) {
                Some(job) => Some(job.sequence),
                None => None,
            },
            CandidateRef::Lane(_) => None,
        }
    }

    /// The place at which a reference is parked: an unlaned job in order of
    /// age, and a lane at the end.
    fn parking_place(&self, queue: &VecDeque<CandidateRef>, reference: &CandidateRef) -> (r: usize)
        ensures
            r == model::parking_place(queue@, self@.jobs, *reference),
            r <= queue@.len(),
    {
        let age: u64 = match self.age_of(reference) {
            Some(age) => age,
            None => {
                return queue.len();
            },
        };
        if queue.len() > 0 {
            if let Some(first) = self.age_of(&queue[0]) {
                if age < first {
                    return 0;
                }
            }
        }
        let ghost goal = model::place_before(queue@, self@.jobs, age, queue@.len());
        let mut place: usize = queue.len();
        let mut left: usize = queue.len();
        assert(queue@.take(left as int) =~= queue@);
        while left > 0
            invariant_except_break
                left <= place <= queue@.len(),
                model::place_before(queue@.take(left as int), self@.jobs, age, place as nat)
                    == goal,
            ensures
                place == goal,
                place <= queue@.len(),
            decreases left,
        {
            assert(queue@.take(left as int).drop_last() =~= queue@.take(left - 1));
            left = left - 1;
            if let Some(other) = self.age_of(&queue[left]) {
                if other <= age {
                    break;
                }
                place = left;
            }
        }
        place
    }

    /// Parks a candidate behind the hold on a window it consumes, in order
    /// of age.
    fn park(&mut self, candidate: &Candidate, now: Instant)
        requires
            old(self).wf(),
            old(self)@.held_back(candidate.scope, now),
        ensures
            final(self).wf(),
            final(self)@ == old(self)@.park(*candidate, now),
    {
        let scope = self.reservation_window(candidate.scope, now);
        let reference = self.reference_of(candidate.job);
        let at: usize = self.find_reservation(scope);
        let place: usize = self.parking_place(&self.reservations[at].queue, &reference);
        self.reservations[at].queue.insert(place, reference);
        proof {
            let s = old(self)@;
            let r = s.reservations[at as int];
            let updated = s.reservations.update(
                at as int,
                ReservationView { queue: r.queue.insert(place as int, reference), ..r },
            );
            assert(self@.reservations =~= updated);
            assert(self@ =~= s.park(*candidate, now));
        }
    }

    /// Deals with one candidate that has been taken out: grants it, puts it
    /// to sleep, or parks it. Tells whether it was granted.
    fn dispose(&mut self, candidate: &Candidate, now: Instant) -> (r: bool)
        requires
            old(self).wf(),
            old(self)@.jobs.contains_key(candidate.job.value),
            old(self)@.jobs[candidate.job.value].meta.weight == candidate.weight,
            old(self)@.jobs[candidate.job.value].meta.scope == candidate.scope,
        ensures
            final(self).wf(),
            final(self)@ == old(self)@.dispose(*candidate, now),
            r == (old(self)@.admission(*candidate, now) is Pass),
    {
        match self.admission(candidate, now) {
            Admission::Pass => {
                self.grant(candidate, now);
                self.rearm_reservations(candidate.scope, now);
                true
            },
            Admission::Blocked { until, reserve } => {
                self.block(candidate, until, reserve);
                false
            },
            Admission::Reserved => {
                self.park(candidate, now);
                false
            },
        }
    }

    /// Wakes the next one parked behind a hold on a window that was just
    /// used, if the hold has ended.
    fn wake_next(&mut self, scope: OutboundScope, now: Instant)
        requires
            old(self).wf(),
        ensures
            final(self).wf(),
            final(self)@ == old(self)@.wake_next(scope, now),
    {
        let at: usize = self.find_reservation(scope);
        if at < self.reservations.len() && self.reservations[at].until.nanos <= now.nanos
            && self.reservations[at].queue.len() > 0 {
            self.wake_at(at, now);
        }
    }

    /// Deals with one candidate and, after a grant, wakes whoever is next:
    /// one reference per grant and window. Tells whether it was granted.
    fn settle(&mut self, candidate: &Candidate, now: Instant) -> (r: bool)
        requires
            old(self).wf(),
            old(self)@.jobs.contains_key(candidate.job.value),
            old(self)@.jobs[candidate.job.value].meta.weight == candidate.weight,
            old(self)@.jobs[candidate.job.value].meta.scope == candidate.scope,
        ensures
            final(self).wf(),
            final(self)@ == old(self)@.settle(*candidate, now),
            r == (old(self)@.admission(*candidate, now) is Pass),
    {
        let granted = self.dispose(candidate, now);
        if granted {
            self.wake_next(OutboundScope::Global, now);
            if let OutboundScope::Chat(_) = candidate.scope {
                self.wake_next(candidate.scope, now);
            }
        }
        granted
    }

    /// The first hold that has ended and has somebody parked behind it.
    fn first_lingering(&self, now: Instant) -> (r: usize)
        ensures
            r == self@.first_lingering(now),
            r <= self@.reservations.len(),
    {
        let ghost all = self@.reservations;
        let ghost p = |r: ReservationView| model::lingers(r, now);
        let mut i: usize = 0;
        assert(all.skip(0) =~= all);
        while i < self.reservations.len()
            invariant
                i <= self.reservations@.len(),
                all == self@.reservations,
                p == (|r: ReservationView| model::lingers(r, now)),
                model::first_where(all, p) == i + model::first_where(all.skip(i as int), p),
            decreases self.reservations@.len() - i,
        {
            assert(all.skip(i as int)[0] == self.reservations@[i as int]@);
            assert(all.skip(i as int).drop_first() =~= all.skip(i + 1));
            if self.reservations[i].until.nanos <= now.nanos && self.reservations[i].queue.len()
                > 0 {
                return i;
            }
            i = i + 1;
        }
        i
    }

    /// Whether a job that precedes `job` is parked in the queue.
    fn someone_ahead(&self, queue: &VecDeque<CandidateRef>, job: &Job) -> (r: bool)
        ensures
            r == model::someone_ahead(queue@, self@.jobs, *job),
    {
        let mut j: usize = 0;
        assert(queue@.skip(0) =~= queue@);
        while j < queue.len()
            invariant
                j <= queue@.len(),
                model::someone_ahead(queue@, self@.jobs, *job) == model::someone_ahead(
                    queue@.skip(j as int),
                    self@.jobs,
                    *job,
                ),
            decreases queue@.len() - j,
        {
            assert(queue@.skip(j as int)[0] == queue@[j as int]);
            assert(queue@.skip(j as int).drop_first() =~= queue@.skip(j + 1));
            if let CandidateRef::Job(id) = queue[j] {
                if let Some(other) = self.jobs.get(id.value) {
                    if other.sequence >= job.sequence {
                        return false;
                    }
                    if other.meta.lane.is_none() && job.meta.lane.is_none()
                        && other.meta.priority.value >= job.meta.priority.value
                        && other.ready_at.nanos <= job.ready_at.nanos {
                        return true;
                    }
                }
            }
            j = j + 1;
        }
        false
    }

    /// The first hold behind which somebody is parked whom the candidate
    /// would overtake.
    fn first_overtaken(&self, candidate: &Candidate, now: Instant) -> (r: usize)
        requires
            self@.jobs.contains_key(candidate.job.value),
            self@.jobs[candidate.job.value].meta.scope == candidate.scope,
        ensures
            r == self@.first_overtaken(*candidate, now),
            r <= self@.reservations.len(),
    {
        if self.reservation_active(OutboundScope::Global, now) || self.reservation_active(
            candidate.scope,
            now,
        ) {
            return self.reservations.len();
        }
        let job = match self.jobs.get(candidate.job.value) {
            Some(job) => *job,
            None => {
                return self.reservations.len();
            },
        };
        let ghost all = self@.reservations;
        let ghost jobs = self@.jobs;
        let ghost p = |r: ReservationView| model::overtakes(r, jobs, job, now);
        let mut i: usize = 0;
        assert(all.skip(0) =~= all);
        while i < self.reservations.len()
            invariant
                i <= self.reservations@.len(),
                all == self@.reservations,
                jobs == self@.jobs,
                job == jobs[candidate.job.value],
                job.meta.scope == candidate.scope,
                !self@.held_back(candidate.scope, now),
                p == (|r: ReservationView| model::overtakes(r, jobs, job, now)),
                model::first_where(all, p) == i + model::first_where(all.skip(i as int), p),
            decreases self.reservations@.len() - i,
        {
            assert(all.skip(i as int)[0] == self.reservations@[i as int]@);
            assert(all.skip(i as int).drop_first() =~= all.skip(i + 1));
            let applies = match self.reservations[i].window {
                OutboundScope::Global => true,
                OutboundScope::Chat(_) => self.reservations[i].window == candidate.scope,
            };
            if self.reservations[i].until.nanos <= now.nanos && applies && self.someone_ahead(
                &self.reservations[i].queue,
                &job,
            ) {
                return i;
            }
            i = i + 1;
        }
        i
    }

    /// Takes out the candidate that is dealt with next. Whoever it would
    /// overtake is woken first, and so is whoever is parked behind an ended
    /// hold when nobody else is left.
    pub fn pick(&mut self, now: Instant) -> (r: Option<Candidate>)
        requires
            old(self).wf(),
        ensures
            final(self).wf(),
            (final(self)@, r) == old(self)@.pick(now),
    {
        loop
            invariant
                self.wf(),
                self@.pick(now) == old(self)@.pick(now),
            decreases model::lingering(self@.reservations, now),
        {
            proof {
                self@.lemma_woken_lingers_no_more(now);
                self@.lemma_pop_candidate_describes(now);
            }
            match self.pop_candidate(now) {
                None => {
                    let at: usize = self.first_lingering(now);
                    if at >= self.reservations.len() {
                        return None;
                    }
                    self.wake_at(at, now);
                },
                Some(candidate) => {
                    let at: usize = self.first_overtaken(&candidate, now);
                    if at >= self.reservations.len() {
                        return Some(candidate);
                    }
                    self.wake_at(at, now);
                    self.push_job_candidate(candidate.job, now);
                },
            }
        }
    }

    /// Forgets the penalties that are over.
    pub fn prune_expired_penalties(&mut self, now: Instant)
        requires
            old(self).wf(),
        ensures
            final(self).wf(),
            final(self)@ == old(self)@.prune_penalties(now),
    {
        let ghost s = self@;
        self.penalties.prune(now);
        proof {
            let goal = s.prune_penalties(now);
            assert(self@.penalties =~= goal.penalties);
            assert(self@ =~= goal);
        }
    }

    /// Forgets the windows of chats that count nothing any more.
    pub fn prune_idle_chat_windows(&mut self, now: Instant)
        requires
            old(self).wf(),
        ensures
            final(self).wf(),
            final(self)@ == old(self)@.prune_chats(now),
    {
        let keys = self.chat_window_sets.keys();
        let ghost s = self@;
        let ghost before = s.chat_window_sets;
        let mut i: usize = 0;
        while i < keys.len()
            invariant
                i <= keys@.len(),
                keys@.no_duplicates(),
                s == old(self)@,
                before == s.chat_window_sets,
                forall|k: u64| keys@.contains(k) <==> #[trigger] before.contains_key(k),
                self.wf(),
                self@ == (SchedulerView { chat_window_sets: self@.chat_window_sets, ..s }),
                forall|k: u64| #[trigger]
                    self@.chat_window_sets.contains_key(k) ==> before.contains_key(k),
                forall|j: int|
                    i <= j < keys@.len() ==> self@.chat_window_sets.contains_key(
                        #[trigger] keys@[j],
                    ) && self@.chat_window_sets[keys@[j]] == before[keys@[j]],
                forall|j: int|
                    0 <= j < i ==> {
                        let set = window::prune_all(before[#[trigger] keys@[j]], now);
                        &&& self@.chat_window_sets.contains_key(keys@[j]) <==> !window::all_idle(
                            set,
                        )
                        &&& self@.chat_window_sets.contains_key(keys@[j])
                            ==> self@.chat_window_sets[keys@[j]] == set
                    },
            decreases keys@.len() - i,
        {
            let key: u64 = keys[i];
            assert(keys@.contains(key));
            assert(self@.chat_window_sets.contains_key(keys@[i as int]));
            if let Some(mut set) = self.chat_window_sets.remove(key) {
                if !set.is_idle(now) {
                    self.chat_window_sets.insert(key, set);
                }
            }
            i = i + 1;
        }
        proof {
            let goal = s.prune_chats(now);
            assert forall|k: u64|
                #[trigger] self@.chat_window_sets.dom().contains(k)
                    == goal.chat_window_sets.dom().contains(k) && (
                self@.chat_window_sets.dom().contains(k) ==> self@.chat_window_sets[k]
                    == goal.chat_window_sets[k]) by {
                assert(self@.chat_window_sets.contains_key(k) ==> before.contains_key(k));
                if before.contains_key(k) {
                    assert(keys@.contains(k));
                    let j = choose|j: int| 0 <= j < keys@.len() && keys@[j] == k;
                    assert(window::prune_all(before[keys@[j]], now) == window::prune_all(
                        before[k],
                        now,
                    ));
                }
            }
            assert(self@.chat_window_sets =~= goal.chat_window_sets);
            assert(self@ =~= goal);
        }
    }

    /// Grants every job that can be admitted at `now`.
    ///
    /// Arbitration is event-driven: candidates are taken from the persistent
    /// queue one at a time and either granted, put to sleep until their
    /// deadline, or parked behind a held-back window. Nobody stays parked
    /// behind a hold that has ended.
    #[verifier::rlimit(40)]
    pub fn grant_ready(&mut self, now: Instant) -> (r: Vec<Grant>)
        requires
            old(self).wf(),
        ensures
            final(self).wf(),
            final(self)@ == old(self)@.grant_ready(now),
            r@ == old(self)@.grants(now),
    {
        self.promote_aging(now);
        self.promote_delayed(now);
        self.promote_blocked(now);
        self.promote_reservations(now);
        self.compact_lanes_if_needed();
        let ghost start = self@;
        assert(start == old(self)@.promote(now));

        let mut grants: Vec<Grant> = Vec::new();
        let mut next = self.pick(now);
        let ghost mut before = start;
        while next.is_some()
            invariant
                self.wf(),
                before.jobs.dom().finite(),
                (self@, next) == before.pick(now),
                grants@ + before.grant_loop(now).1 == start.grant_loop(now).1,
                before.grant_loop(now).0 == start.grant_loop(now).0,
            decreases
                before.jobs.dom().len(),
                model::lingering(before.reservations, now),
                before.disorder(now),
                before.candidates.len(),
        {
            if let Some(candidate) = next {
                proof {
                    before.lemma_picked_describes(now);
                    before.lemma_settle_decreases(now);
                }
                let granted = self.settle(&candidate, now);
                let ghost rest = self@.grant_loop(now).1;
                if granted {
                    proof {
                        let one = seq![Grant { job: candidate.job }];
                        assert(grants@ + (one + rest) =~= grants@.push(
                            Grant { job: candidate.job },
                        ) + rest);
                    }
                    grants.push(Grant { job: candidate.job });
                }
                proof {
                    before = self@;
                }
                next = self.pick(now);
            }
        }
        proof {
            assert(before.grant_loop(now).1 =~= Seq::empty());
            assert(grants@ =~= start.grant_loop(now).1);
        }
        self.prune_expired_penalties(now);
        self.prune_idle_chat_windows(now);
        grants
    }
}

} // verus!
