//! Completions, deadlines and new limits.

use super::entries::{CandidateRef, InFlight, Job};
use super::enqueue::{find_too_small, find_too_small_in_chat};
use super::lane::LaneView;
use super::model::SchedulerView;
use super::state::{find_limits_fault, reference_alive, Reservation, SchedulerState};
use super::{lane, model, state};
use crate::heap;
use crate::time::Instant;
use crate::types::{
    JobId, OutboundChatKey, OutboundCompletion, OutboundLaneKey, OutboundLaneMode,
    OutboundLimits, OutboundScope,
    SchedulerConfigError, SchedulerWakeup,
};
use crate::window;
use std::collections::VecDeque;
use vstd::prelude::*;

verus! {

broadcast use super::state::group_views;

fn sooner(found: Option<Instant>, at: Instant) -> (r: Option<Instant>)
    ensures
        r == model::sooner(found, at),
{
    match found {
        Some(current) => if at.nanos < current.nanos {
            Some(at)
        } else {
            found
        },
        None => Some(at),
    }
}

fn too_small_for(job: &Job, limits: &OutboundLimits) -> (r: Option<u32>)
    ensures
        r == SchedulerView::too_small_for(*job, *limits),
{
    let weight: u32 = job.meta.weight.get();
    match find_too_small(&limits.global, weight) {
        Some(capacity) => Some(capacity),
        None => find_too_small_in_chat(&limits.chat, job.meta.scope, weight),
    }
}

impl SchedulerState {
    /// Closes a scope until `until`, extending an existing penalty only when
    /// the new deadline is later.
    pub fn penalize(&mut self, scope: OutboundScope, until: Instant)
        requires
            old(self).wf(),
        ensures
            final(self).wf(),
            final(self)@ == old(self)@.penalize(scope, until),
    {
        self.penalties.extend(scope, until);
        assert(self@ =~= old(self)@.penalize(scope, until));
    }

    /// Releases the lane of a granted job.
    fn release_lane(&mut self, key: OutboundLaneKey, now: Instant)
        requires
            old(self).wf(),
        ensures
            final(self).wf(),
            final(self)@ == old(self)@.release_lane(key, now),
    {
        let ghost s = self@;
        if let Some(mut l) = self.lanes.remove(key.value) {
            l.in_flight = None;
            if l.pending.len() > 0 {
                self.lanes.insert(key.value, l);
                assert(self@ =~= (SchedulerView {
                    lanes: s.lanes.insert(
                        key.value,
                        LaneView { in_flight: None, ..s.lanes[key.value] },
                    ),
                    ..s
                }));
                self.push_lane_head_candidate(key, now);
                return;
            }
        } else {
            assert(self.lanes@ =~= old(self).lanes@);
        }
        assert(self@ =~= s.release_lane(key, now));
    }

    /// Notes that a granted job has started. If its lane lets jobs start in
    /// order, the lane is released at this boundary, once: neither another
    /// start nor the completion releases it again.
    pub fn start(&mut self, id: JobId, now: Instant)
        requires
            old(self).wf(),
        ensures
            final(self).wf(),
            final(self)@ == old(self)@.start(id, now),
    {
        let lane = match self.in_flight.get(id.value) {
            Some(in_flight) => in_flight.lane,
            None => None,
        };
        if let Some(key) = lane {
            if key.mode() == OutboundLaneMode::OrderedStart {
                self.in_flight.insert(id.value, InFlight { lane: None });
                assert(self@ =~= (SchedulerView {
                    in_flight: old(self)@.in_flight.insert(id.value, InFlight { lane: None }),
                    ..old(self)@
                }));
                self.release_lane(key, now);
            }
        }
    }

    /// Finishes a granted job and releases its lane exactly once (a repeated
    /// completion changes nothing). A `RetryAfter` completion penalizes the
    /// reported scope for the reported duration.
    pub fn complete(&mut self, id: JobId, completion: OutboundCompletion, now: Instant)
        requires
            old(self).wf(),
        ensures
            final(self).wf(),
            final(self)@ == old(self)@.complete(id, completion, now),
    {
        let in_flight = match self.in_flight.remove(id.value) {
            Some(in_flight) => in_flight,
            None => {
                assert(self.in_flight@ =~= old(self).in_flight@);
                assert(self@ =~= old(self)@);
                return;
            },
        };
        assert(self@ =~= (SchedulerView {
            in_flight: old(self)@.in_flight.remove(id.value),
            ..old(self)@
        }));
        if let Some(key) = in_flight.lane {
            self.release_lane(key, now);
        }
        if let OutboundCompletion::RetryAfter { scope, duration } = completion {
            let until = now.plus(duration);
            if until.nanos > now.nanos {
                self.penalize(scope, until);
            }
        }
    }

    fn delayed_front_is_dead(&self) -> (r: bool)
        requires
            self.wf(),
        ensures
            r == (self@.delayed.len() > 0 && !self@.jobs.contains_key(
                heap::first_of(self@.delayed).job.value,
            )),
    {
        match self.delayed.peek() {
            Some(entry) => !self.jobs.contains(entry.job.value),
            None => false,
        }
    }

    fn blocked_front_is_dead(&self) -> (r: bool)
        requires
            self.wf(),
        ensures
            r == (self@.blocked.len() > 0 && !model::reference_alive(
                heap::first_of(self@.blocked).reference,
                self@.jobs,
                self@.lanes,
            )),
    {
        match self.blocked.peek() {
            Some(entry) => !reference_alive(entry.reference, &self.jobs, &self.lanes),
            None => false,
        }
    }

    fn is_candidate(&self, reference: CandidateRef) -> (r: bool)
        ensures
            r == self@.is_candidate(reference),
    {
        match reference {
            CandidateRef::Job(id) => match self.jobs.get(id.value) {
                Some(job) => job.in_candidate_heap,
                None => false,
            },
            CandidateRef::Lane(key) => match self.lanes.get(key.value) {
                Some(l) => l.in_candidate_heap,
                None => false,
            },
        }
    }

    fn aging_front_is_dead(&self) -> (r: bool)
        requires
            self.wf(),
        ensures
            r == (self@.aging_events.len() > 0 && !self@.is_candidate(
                heap::first_of(self@.aging_events).reference,
            )),
    {
        match self.aging_events.peek() {
            Some(event) => !self.is_candidate(event.reference),
            None => false,
        }
    }

    /// Drops dead entries from the front of the queues.
    fn trim(&mut self)
        requires
            old(self).wf(),
        ensures
            final(self).wf(),
            final(self)@ == old(self)@.trimmed(),
    {
        while self.delayed_front_is_dead()
            invariant
                self.wf(),
                self@.trim_delayed() == old(self)@.trim_delayed(),
            decreases self@.delayed.len(),
        {
            let ghost before = self@;
            if let Some(entry) = self.delayed.pop() {
                proof {
                    model::lemma_remove_shrinks(before.delayed, entry);
                }
                self.stale_delayed = self.stale_delayed.saturating_sub(1);
                assert(self@ =~= (SchedulerView {
                    delayed: before.delayed.remove(entry),
                    stale_delayed: lane::less(before.stale_delayed, 1),
                    ..before
                }));
            }
        }
        let ghost middle = self@;
        while self.blocked_front_is_dead()
            invariant
                self.wf(),
                self@.trim_blocked() == middle.trim_blocked(),
            decreases self@.blocked.len(),
        {
            let ghost before = self@;
            if let Some(entry) = self.blocked.pop() {
                proof {
                    model::lemma_remove_shrinks(before.blocked, entry);
                }
                assert(self@ =~= (SchedulerView {
                    blocked: before.blocked.remove(entry),
                    ..before
                }));
            }
        }
        let ghost last = self@;
        while self.aging_front_is_dead()
            invariant
                self.wf(),
                self@.trim_aging() == last.trim_aging(),
            decreases self@.aging_events.len(),
        {
            let ghost before = self@;
            if let Some(event) = self.aging_events.pop() {
                proof {
                    model::lemma_remove_shrinks(before.aging_events, event);
                }
                assert(self@ =~= (SchedulerView {
                    aging_events: before.aging_events.remove(event),
                    ..before
                }));
            }
        }
    }

    /// The earliest moment at which something may become grantable: the next
    /// delay deadline, blocked wake-up, aging moment or end of a hold. Dead
    /// entries at the front of the queues are dropped before the deadlines
    /// are read.
    pub fn next_deadline(&mut self, now: Instant) -> (r: SchedulerWakeup)
        requires
            old(self).wf(),
        ensures
            final(self).wf(),
            final(self)@ == old(self)@.trimmed(),
            r == old(self)@.wakeup(now),
    {
        self.trim();
        let mut earliest: Option<Instant> = None;
        if let Some(entry) = self.delayed.peek() {
            earliest = Some(entry.not_before);
        }
        if let Some(entry) = self.blocked.peek() {
            earliest = sooner(earliest, entry.until);
        }
        if let Some(event) = self.aging_events.peek() {
            earliest = sooner(earliest, event.at);
        }
        let ghost queued = earliest;
        let ghost all = self@.reservations;
        let mut i: usize = 0;
        assert(all.take(0) =~= Seq::empty());
        while i < self.reservations.len()
            invariant
                i <= self.reservations@.len(),
                all == self@.reservations,
                earliest == model::earliest_hold(queued, all.take(i as int), now),
            decreases self.reservations@.len() - i,
        {
            proof {
                assert(all.take(i + 1).drop_last() =~= all.take(i as int));
                assert(all.take(i + 1).last() == self.reservations@[i as int]@);
            }
            if self.reservations[i].until.nanos > now.nanos {
                earliest = sooner(earliest, self.reservations[i].until);
            }
            i = i + 1;
        }
        assert(all.take(i as int) =~= all);
        match earliest {
            Some(at) => if at.nanos <= now.nanos {
                SchedulerWakeup::Immediate
            } else {
                SchedulerWakeup::At(at)
            },
            None => SchedulerWakeup::ExternalEvent,
        }
    }

    /// Why new limits are refused: a window is faulty, or a waiting job would
    /// become ungrantable.
    pub fn limits_refusal(&self, limits: &OutboundLimits) -> (r: Option<SchedulerConfigError>)
        ensures
            r == self@.limits_refusal(*limits),
    {
        if let Some(fault) = find_limits_fault(limits) {
            return Some(fault);
        }
        let keys = self.jobs.keys();
        let ghost s = self@;
        let mut oldest: Option<u64> = None;
        let mut i: usize = 0;
        while i < keys.len()
            invariant
                i <= keys@.len(),
                s == self@,
                forall|k: u64| keys@.contains(k) <==> #[trigger] s.jobs.contains_key(k),
                oldest matches Some(id) ==> {
                    &&& s.jobs.contains_key(id)
                    &&& SchedulerView::too_small_for(s.jobs[id], *limits) is Some
                },
                forall|j: int|
                    0 <= j < i && SchedulerView::too_small_for(
                        s.jobs[#[trigger] keys@[j]],
                        *limits,
                    ) is Some ==> oldest is Some && oldest->0 <= keys@[j],
            decreases keys@.len() - i,
        {
            let key: u64 = keys[i];
            assert(keys@.contains(key));
            assert(s.jobs.contains_key(key));
            if let Some(job) = self.jobs.get(key) {
                if too_small_for(job, limits).is_some() {
                    let older = match oldest {
                        Some(id) => key < id,
                        None => true,
                    };
                    if older {
                        oldest = Some(key);
                    }
                }
            }
            i = i + 1;
        }
        proof {
            assert forall|k: u64| #[trigger]
                s.jobs.contains_key(k) && SchedulerView::too_small_for(
                    s.jobs[k],
                    *limits,
                ) is Some implies oldest is Some && oldest->0 <= k by {
                assert(keys@.contains(k));
                let j = choose|j: int| 0 <= j < keys@.len() && keys@[j] == k;
                assert(SchedulerView::too_small_for(s.jobs[keys@[j]], *limits) is Some);
            }
        }
        match oldest {
            Some(id) => {
                proof {
                    assert(s.is_first_unfit(id, *limits));
                    let other = choose|other: u64| s.is_first_unfit(other, *limits);
                    assert(s.is_first_unfit(other, *limits));
                    assert(s.jobs.contains_key(other));
                    assert(other == id);
                }
                match self.jobs.get(id) {
                    Some(job) => match too_small_for(job, limits) {
                        Some(capacity) => Some(
                            SchedulerConfigError::PendingWeightExceedsWindow {
                                scope: job.meta.scope,
                                weight: job.meta.weight.get(),
                                capacity,
                            },
                        ),
                        None => None,
                    },
                    None => None,
                }
            },
            None => {
                proof {
                    assert(forall|id: u64| !s.is_first_unfit(id, *limits)) by {
                        assert forall|id: u64| !s.is_first_unfit(id, *limits) by {
                            if s.is_first_unfit(id, *limits) {
                                assert(s.jobs.contains_key(id));
                            }
                        }
                    }
                }
                None
            },
        }
    }

    /// Puts every window under new limits, keeping the grants it still
    /// remembers.
    fn relimit(&mut self, limits: OutboundLimits)
        requires
            old(self).wf(),
        ensures
            final(self).wf(),
            final(self)@ == old(self)@.relimited(limits),
    {
        let ghost s = self@;
        self.global_windows = self.global_windows.with_limits(&limits.global);
        let keys = self.chat_window_sets.keys();
        let ghost before = s.chat_window_sets;
        let ghost start = self@;
        let mut i: usize = 0;
        while i < keys.len()
            invariant
                i <= keys@.len(),
                keys@.no_duplicates(),
                before == s.chat_window_sets,
                forall|k: u64| keys@.contains(k) <==> #[trigger] before.contains_key(k),
                self.wf(),
                self@ == (SchedulerView { chat_window_sets: self@.chat_window_sets, ..start }),
                forall|k: u64| #[trigger]
                    self@.chat_window_sets.contains_key(k) <==> before.contains_key(k),
                forall|j: int|
                    i <= j < keys@.len() ==> self@.chat_window_sets[#[trigger] keys@[j]]
                        == before[keys@[j]],
                forall|j: int|
                    0 <= j < i ==> self@.chat_window_sets[#[trigger] keys@[j]] == window::relimit(
                        before[keys@[j]],
                        window::applicable(limits.chat@, keys@[j]),
                    ),
            decreases keys@.len() - i,
        {
            let key: u64 = keys[i];
            assert(keys@.contains(key));
            assert(before.contains_key(key));
            assert(self@.chat_window_sets.contains_key(key));
            if let Some(set) = self.chat_window_sets.remove(key) {
                let own = window::applicable_to(&limits.chat, OutboundChatKey { value: key });
                let fresh = set.with_limits(&own);
                self.chat_window_sets.insert(key, fresh);
            }
            i = i + 1;
        }
        self.global_limits = limits.global;
        self.chat_limits = limits.chat;
        proof {
            let goal = s.relimited(limits);
            assert forall|k: u64|
                #[trigger] self@.chat_window_sets.dom().contains(k)
                    == goal.chat_window_sets.dom().contains(k) && (
                self@.chat_window_sets.dom().contains(k) ==> self@.chat_window_sets[k]
                    == goal.chat_window_sets[k]) by {
                assert(self@.chat_window_sets.contains_key(k) <==> before.contains_key(k));
                if before.contains_key(k) {
                    assert(keys@.contains(k));
                    let j = choose|j: int| 0 <= j < keys@.len() && keys@[j] == k;
                    assert(self@.chat_window_sets[keys@[j]] == window::relimit(
                        before[keys@[j]],
                        window::applicable(limits.chat@, keys@[j]),
                    ));
                }
            }
            assert(self@.chat_window_sets =~= goal.chat_window_sets);
            assert(self@ =~= goal);
        }
    }

    fn push_references(&mut self, references: &VecDeque<CandidateRef>, now: Instant)
        requires
            old(self).wf(),
        ensures
            final(self).wf(),
            final(self)@ == old(self)@.push_references(references@, now),
    {
        let ghost s = self@;
        let mut i: usize = 0;
        assert(references@.take(0) =~= Seq::empty());
        while i < references.len()
            invariant
                i <= references@.len(),
                self.wf(),
                self@ == s.push_references(references@.take(i as int), now),
            decreases references@.len() - i,
        {
            proof {
                assert(references@.take(i + 1).drop_last() =~= references@.take(i as int));
                assert(references@.take(i + 1).last() == references@[i as int]);
            }
            self.push_reference(references[i], now);
            i = i + 1;
        }
        assert(references@.take(i as int) =~= references@);
    }

    /// Replaces the rate windows. The grants that the old windows still
    /// remember count on, so that an update never allows a burst; everything
    /// that slept because of the old windows becomes a candidate again.
    /// Refused limits change nothing.
    pub fn set_limits(&mut self, limits: OutboundLimits, now: Instant) -> (r: Result<
        (),
        SchedulerConfigError,
    >)
        requires
            old(self).wf(),
        ensures
            final(self).wf(),
            final(self)@ == old(self)@.set_limits(limits, now),
            match old(self)@.limits_refusal(limits) {
                Some(error) => r == Err::<(), SchedulerConfigError>(error),
                None => r is Ok,
            },
    {
        if let Some(error) = self.limits_refusal(&limits) {
            return Err(error);
        }
        self.relimit(limits);
        self.wake_blocked(Instant { nanos: u64::MAX }, now);
        let ghost woken = self@;
        let mut holds: Vec<Reservation> = Vec::new();
        core::mem::swap(&mut self.reservations, &mut holds);
        let ghost start = SchedulerView { reservations: Seq::empty(), ..woken };
        let ghost all = state::reservation_views(holds@);
        proof {
            assert(self@.reservations =~= Seq::empty());
            assert(self@ =~= start);
            assert(all =~= woken.reservations);
            assert(all.take(0) =~= Seq::empty());
        }
        let mut i: usize = 0;
        while i < holds.len()
            invariant
                i <= holds@.len(),
                all == state::reservation_views(holds@),
                self.wf(),
                self@ == start.wake_parked(all.take(i as int), now),
            decreases holds@.len() - i,
        {
            proof {
                assert(all.take(i + 1).drop_last() =~= all.take(i as int));
                assert(all.take(i + 1).last() == holds@[i as int]@);
            }
            self.push_references(&holds[i].queue, now);
            i = i + 1;
        }
        assert(all.take(i as int) =~= all);
        Ok(())
    }
}

} // verus!
