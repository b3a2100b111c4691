//! Moving jobs between the scheduler's queues.

use super::entries::{
    AgingEvent, BlockedJob, CandidateKey, CandidateRef, CoalesceKey, DelayedJob, Job,
    effective_priority, is_delayed_at,
};
use super::model::SchedulerView;
use super::state::{reference_alive, SchedulerState};
use super::{entries, lane, model, progress};
use crate::heap::Heap;
use crate::time::Instant;
use crate::types::{JobId, OutboundLaneKey, HIGHEST_LEVEL};
use vstd::prelude::*;

verus! {

broadcast use super::state::group_views;

impl SchedulerState {
    /// Notes the moment at which the candidate's effective priority rises
    /// above `keyed`, unless it is already at the highest level.
    pub fn schedule_aging(
        &mut self,
        reference: CandidateRef,
        keyed: u8,
        base: u8,
        ready_at: Instant,
    )
        requires
            old(self).wf(),
        ensures
            final(self).wf(),
            final(self)@ == old(self)@.schedule_aging(reference, keyed, base, ready_at),
    {
        if keyed >= HIGHEST_LEVEL || keyed < base {
            return;
        }
        let levels: u128 = (keyed - base) as u128 + 1;
        let quantum: u64 = if self.aging.quantum.nanos > 0 {
            self.aging.quantum.nanos
        } else {
            1
        };
        proof {
            assert(0 <= levels * quantum <= 256 * 0xffff_ffff_ffff_ffff) by (nonlinear_arith)
                requires
                    0 <= levels <= 256,
                    0 <= quantum <= 0xffff_ffff_ffff_ffff,
            ;
            assert(levels * quantum == (keyed + 1 - base) * entries::quantum_nanos(self.aging));
        }
        let at: u128 = ready_at.nanos as u128 + levels * (quantum as u128);
        if at > u64::MAX as u128 {
            return;
        }
        self.aging_events.push(AgingEvent { at: Instant { nanos: at as u64 }, reference });
        assert(self@ =~= old(self)@.schedule_aging(reference, keyed, base, ready_at));
    }

    /// Adds the entry of `reference` at the effective priority its job has.
    pub fn push_key(&mut self, reference: CandidateRef, job: &Job, now: Instant)
        requires
            old(self).wf(),
        ensures
            final(self).wf(),
            final(self)@ == old(self)@.push_key(reference, *job, now),
    {
        let level: u8 = effective_priority(job, &self.aging, now);
        self.candidates.push(CandidateKey { effective: level, sequence: job.sequence, reference });
        let ghost keyed = SchedulerView {
            candidates: old(self)@.candidates.insert(
                CandidateKey { effective: level, sequence: job.sequence, reference },
            ),
            ..old(self)@
        };
        assert(self@ =~= keyed);
        self.schedule_aging(reference, level, job.meta.priority.value, job.ready_at);
    }

    /// Makes a waiting job a candidate.
    pub fn push_job_candidate(&mut self, id: JobId, now: Instant)
        requires
            old(self).wf(),
        ensures
            final(self).wf(),
            final(self)@ == old(self)@.push_job_candidate(id, now),
    {
        let job = match self.jobs.get(id.value) {
            Some(job) => *job,
            None => {
                return;
            },
        };
        let level: u8 = effective_priority(&job, &self.aging, now);
        let mut noted = job;
        noted.in_candidate_heap = true;
        noted.candidate_effective = level;
        self.jobs.insert(id.value, noted);
        let ghost with_job = SchedulerView {
            jobs: old(self)@.jobs.insert(
                id.value,
                Job { in_candidate_heap: true, candidate_effective: level, ..job },
            ),
            ..old(self)@
        };
        assert(self@ =~= with_job);
        self.push_key(CandidateRef::Job(id), &job, now);
    }

    /// Makes the head of a free lane a candidate, unless it is already one or
    /// still delayed. A lane left without waiting jobs is removed.
    pub fn push_lane_head_candidate(&mut self, key: OutboundLaneKey, now: Instant)
        requires
            old(self).wf(),
        ensures
            final(self).wf(),
            final(self)@ == old(self)@.push_lane_head_candidate(key, now),
    {
        match self.lanes.get(key.value) {
            Some(held) => {
                if held.in_flight.is_some() {
                    return;
                }
            },
            None => {
                return;
            },
        }
        let ghost goal = old(self)@.push_lane_head_candidate(key, now);
        if let Some(mut l) = self.lanes.remove(key.value) {
            l.drain(&self.jobs);
            proof {
                lane::lemma_drop_dead_is_suffix(old(self).lanes@[key.value].pending@, self.jobs@);
            }
            if let Some(entry) = l.first() {
                if let Some(held) = self.jobs.get(entry.1.value) {
                    let job = *held;
                    if is_delayed_at(&job, now) || l.in_candidate_heap {
                        self.lanes.insert(key.value, l);
                        assert(self@ =~= goal);
                        return;
                    }
                    l.in_candidate_heap = true;
                    l.candidate_effective = effective_priority(&job, &self.aging, now);
                    self.lanes.insert(key.value, l);
                    let ghost with_lane = SchedulerView {
                        lanes: old(self)@.lanes.insert(key.value, l@),
                        ..old(self)@
                    };
                    assert(self@ =~= with_lane);
                    self.push_key(CandidateRef::Lane(key), &job, now);
                    return;
                }
            }
        }
        assert(self@ =~= goal);
    }

    /// Makes what a reference stands for a candidate.
    pub fn push_reference(&mut self, reference: CandidateRef, now: Instant)
        requires
            old(self).wf(),
        ensures
            final(self).wf(),
            final(self)@ == old(self)@.push_reference(reference, now),
    {
        match reference {
            CandidateRef::Job(id) => self.push_job_candidate(id, now),
            CandidateRef::Lane(key) => self.push_lane_head_candidate(key, now),
        }
    }

    /// The reference that stands for a waiting job.
    pub fn reference_of(&self, id: JobId) -> (r: CandidateRef)
        ensures
            r == self@.reference_of(id),
    {
        match self.jobs.get(id.value) {
            Some(job) => match job.meta.lane {
                Some(key) => CandidateRef::Lane(key),
                None => CandidateRef::Job(id),
            },
            None => CandidateRef::Job(id),
        }
    }

    /// Frees a latest-wins slot if `id` is its pending job.
    pub fn remove_coalesce_entry(&mut self, id: JobId, slot: Option<CoalesceKey>)
        requires
            old(self).wf(),
        ensures
            final(self).wf(),
            final(self)@ == old(self)@.remove_coalesce_entry(id, slot),
    {
        if let Some(key) = slot {
            if let Some(held) = self.coalesce.get(key) {
                if held == id {
                    self.coalesce.remove(key);
                    assert(self@ =~= old(self)@.remove_coalesce_entry(id, slot));
                }
            }
        }
    }

    /// Forgets a job that has not been granted. All removal is lazy: the
    /// entries in the queues are skipped when they surface, and the
    /// latest-wins slot is freed at once because a stale slot must never be
    /// reused.
    pub fn remove_waiting(&mut self, id: JobId)
        requires
            old(self).wf(),
        ensures
            final(self).wf(),
            final(self)@ == old(self)@.remove_waiting(id),
    {
        let job = match self.jobs.get(id.value) {
            Some(job) => *job,
            None => {
                return;
            },
        };
        let delayed = job.not_before.is_some();
        if delayed {
            self.stale_delayed = self.stale_delayed.saturating_add(1);
        }
        match job.meta.lane {
            Some(key) => {
                if let Some(mut l) = self.lanes.remove(key.value) {
                    l.stale = l.stale.saturating_add(1);
                    self.lanes.insert(key.value, l);
                } else {
                    assert(self.lanes@ =~= old(self).lanes@);
                }
            },
            None => {
                if !delayed {
                    self.stale_candidates = self.stale_candidates.saturating_add(1);
                }
            },
        }
        let _ = self.jobs.remove(id.value);
        proof {
            assert(self.jobs@.dom() =~= old(self).jobs@.dom().remove(id.value));
            let s = old(self)@;
            let gone = SchedulerView {
                jobs: s.jobs.remove(id.value),
                stale_delayed: self.stale_delayed,
                lanes: self@.lanes,
                stale_candidates: self.stale_candidates,
                ..s
            };
            assert(self@ =~= gone);
        }
        self.remove_coalesce_entry(id, job.coalesce_key);
    }

    /// Rebuilds the delayed queue when dead entries dominate it, so that a
    /// hot latest-wins slot cannot grow it without bound.
    pub fn compact_delayed_if_needed(&mut self)
        requires
            old(self).wf(),
        ensures
            final(self).wf(),
            final(self)@ == old(self)@.compact_delayed(),
    {
        if self.stale_delayed <= self.delayed.len() / 2 {
            return;
        }
        let ghost keep = |entry: DelayedJob| self@.jobs.contains_key(entry.job.value);
        let entries = self.delayed.take_all();
        let mut kept: Heap<DelayedJob> = Heap::new();
        let mut i: usize = 0;
        proof {
            broadcast use vstd::multiset::group_multiset_axioms;
            broadcast use vstd::seq_lib::group_to_multiset_ensures;

            assert(entries@.take(0) =~= Seq::empty());
            assert(kept@ =~= entries@.take(0).to_multiset().filter(keep));
        }
        while i < entries.len()
            invariant
                i <= entries@.len(),
                kept.wf(),
                self.jobs@ == old(self).jobs@,
                keep == (|entry: DelayedJob| old(self)@.jobs.contains_key(entry.job.value)),
                kept@ == entries@.take(i as int).to_multiset().filter(keep),
            decreases entries@.len() - i,
        {
            let entry = entries[i];
            if self.jobs.contains(entry.job.value) {
                kept.push(entry);
            }
            proof {
                lemma_filter_prefix(entries@, i as int, keep);
            }
            i = i + 1;
        }
        self.delayed = kept;
        self.stale_delayed = 0;
        proof {
            assert(entries@.take(i as int) =~= entries@);
            let s = old(self)@;
            let same = |entry: DelayedJob| s.jobs.contains_key(entry.job.value);
            progress::lemma_filter_same(s.delayed, keep, same);
            assert(self@ =~= s.compact_delayed());
        }
    }

    /// Rebuilds the candidates when dead entries dominate.
    pub fn compact_candidate_heap_if_needed(&mut self)
        requires
            old(self).wf(),
        ensures
            final(self).wf(),
            final(self)@ == old(self)@.compact_candidates(),
    {
        if self.stale_candidates <= self.candidates.len() / 2 {
            return;
        }
        let ghost s = self@;
        let ghost keep = |key: CandidateKey|
            model::reference_alive(key.reference, s.jobs, s.lanes);
        let entries = self.candidates.take_all();
        let mut kept: Heap<CandidateKey> = Heap::new();
        let mut i: usize = 0;
        proof {
            broadcast use vstd::multiset::group_multiset_axioms;
            broadcast use vstd::seq_lib::group_to_multiset_ensures;

            assert(entries@.take(0) =~= Seq::empty());
            assert(kept@ =~= entries@.take(0).to_multiset().filter(keep));
        }
        while i < entries.len()
            invariant
                i <= entries@.len(),
                kept.wf(),
                s == old(self)@,
                self@.jobs == s.jobs,
                self@.lanes == s.lanes,
                keep == (|key: CandidateKey|
                    model::reference_alive(key.reference, s.jobs, s.lanes)),
                kept@ == entries@.take(i as int).to_multiset().filter(keep),
            decreases entries@.len() - i,
        {
            let key = entries[i];
            if reference_alive(key.reference, &self.jobs, &self.lanes) {
                kept.push(key);
            }
            proof {
                lemma_filter_prefix(entries@, i as int, keep);
            }
            i = i + 1;
        }
        self.candidates = kept;
        self.stale_candidates = 0;
        proof {
            assert(entries@.take(i as int) =~= entries@);
            let same = |key: CandidateKey|
                model::reference_alive(key.reference, s.jobs, s.lanes);
            progress::lemma_filter_same(s.candidates, keep, same);
            assert(self@ =~= s.compact_candidates());
        }
    }

    /// Rebuilds the lanes in which dead entries dominate, so that churn
    /// behind a live lane head cannot grow them without bound.
    pub fn compact_lanes_if_needed(&mut self)
        requires
            old(self).wf(),
        ensures
            final(self).wf(),
            final(self)@ == old(self)@.compact_lanes(),
    {
        let keys = self.lanes.keys();
        let ghost before = self.lanes@;
        let mut i: usize = 0;
        while i < keys.len()
            invariant
                i <= keys@.len(),
                keys@.no_duplicates(),
                before == old(self).lanes@,
                forall|k: u64| keys@.contains(k) <==> #[trigger] before.contains_key(k),
                self.wf(),
                self.jobs@ == old(self).jobs@,
                self@ == (SchedulerView { lanes: self@.lanes, ..old(self)@ }),
                forall|k: u64| #[trigger] self.lanes@.contains_key(k) <==> before.contains_key(k),
                forall|j: int|
                    i <= j < keys@.len() ==> self.lanes@[#[trigger] keys@[j]] == before[keys@[j]],
                forall|j: int|
                    0 <= j < i ==> self.lanes@[#[trigger] keys@[j]]@ == before[keys@[j]]@.compacted(
                        self.jobs@,
                    ),
            decreases keys@.len() - i,
        {
            let key: u64 = keys[i];
            assert(keys@.contains(key));
            assert(before.contains_key(key));
            if let Some(mut l) = self.lanes.remove(key) {
                l.compact(&self.jobs);
                self.lanes.insert(key, l);
            }
            i = i + 1;
        }
        proof {
            let goal = old(self)@.compact_lanes();
            assert forall|k: u64|
                #[trigger] self@.lanes.dom().contains(k) == goal.lanes.dom().contains(k) && (
                self@.lanes.dom().contains(k) ==> self@.lanes[k] == goal.lanes[k]) by {
                assert(self.lanes@.contains_key(k) <==> before.contains_key(k));
                if before.contains_key(k) {
                    assert(keys@.contains(k));
                    let j = choose|j: int| 0 <= j < keys@.len() && keys@[j] == k;
                    assert(self.lanes@[keys@[j]]@ == before[keys@[j]]@.compacted(self.jobs@));
                }
            }
            assert(self@.lanes =~= goal.lanes);
            assert(self@ =~= goal);
        }
    }

    /// Takes a job that has not been granted out of the queue.
    fn discard(&mut self, id: JobId)
        requires
            old(self).wf(),
        ensures
            final(self).wf(),
            final(self)@ == old(self)@.without(id),
    {
        self.remove_waiting(id);
        self.compact_delayed_if_needed();
    }

    /// Ends the holds that `owner` asked for.
    fn release_holds(&mut self, owner: CandidateRef, now: Instant)
        requires
            old(self).wf(),
        ensures
            final(self).wf(),
            final(self)@ == old(self)@.release_holds(owner, now),
    {
        let ghost goal = old(self)@.release_holds(owner, now);
        let mut i: usize = 0;
        while i < self.reservations.len()
            invariant
                i <= self.reservations@.len(),
                self.wf(),
                self.reservations@.len() == old(self).reservations@.len(),
                goal == old(self)@.release_holds(owner, now),
                self@ == (SchedulerView { reservations: self@.reservations, ..old(self)@ }),
                forall|j: int|
                    0 <= j < i ==> (#[trigger] self.reservations@[j])@ == goal.reservations[j],
                forall|j: int|
                    i <= j < self.reservations@.len() ==> (#[trigger] self.reservations@[j])
                        == old(self).reservations@[j],
            decreases self.reservations@.len() - i,
        {
            if self.reservations[i].owner == owner && self.reservations[i].until.nanos
                > now.nanos {
                self.reservations[i].until = now;
            }
            i = i + 1;
        }
        assert(self@.reservations =~= goal.reservations);
        assert(self@ =~= goal);
    }

    /// Has a free lane looked at in the next pass, unless it has a candidate
    /// entry.
    fn rouse_lane(&mut self, key: OutboundLaneKey)
        requires
            old(self).wf(),
        ensures
            final(self).wf(),
            final(self)@ == old(self)@.rouse_lane(key),
    {
        let ghost s = self@;
        let (live, marked) = match self.lanes.get(key.value) {
            Some(l) => {
                if l.in_flight.is_some() {
                    return;
                }
                (l.has_live(&self.jobs), l.in_candidate_heap)
            },
            None => {
                return;
            },
        };
        if live && marked {
            return;
        }
        let reference = CandidateRef::Lane(key);
        self.blocked.push(BlockedJob { until: Instant { nanos: 0 }, reference });
        if !live {
            if let Some(mut l) = self.lanes.remove(key.value) {
                l.in_candidate_heap = false;
                l.candidate_effective = 0;
                self.lanes.insert(key.value, l);
            }
        }
        proof {
            let goal = s.rouse_lane(key);
            assert(self@.lanes =~= goal.lanes);
            assert(self@ =~= goal);
        }
    }

    /// Cancels a job that has not been granted yet: the holds it asked for
    /// end at once, and the next job of its lane comes up in the next pass.
    /// Granted jobs are cancelled through their completion instead.
    pub fn cancel(&mut self, id: JobId)
        requires
            old(self).wf(),
        ensures
            final(self).wf(),
            final(self)@ == old(self)@.cancel(id),
    {
        if !self.jobs.contains(id.value) {
            self.discard(id);
            return;
        }
        let reference = self.reference_of(id);
        self.discard(id);
        self.release_holds(reference, Instant { nanos: 0 });
        if let CandidateRef::Lane(key) = reference {
            self.rouse_lane(key);
        }
    }

    /// Cancels a job and wakes what waited behind it: the holds it asked for
    /// end, and the next job of its lane becomes a candidate.
    pub fn cancel_at(&mut self, id: JobId, now: Instant)
        requires
            old(self).wf(),
        ensures
            final(self).wf(),
            final(self)@ == old(self)@.cancel_at(id, now),
    {
        if !self.jobs.contains(id.value) {
            self.discard(id);
            return;
        }
        let reference = self.reference_of(id);
        self.discard(id);
        self.release_holds(reference, now);
        if let CandidateRef::Lane(key) = reference {
            self.push_lane_head_candidate(key, now);
        }
    }
}

/// Keeping the next item of a sequence, or not.
pub proof fn lemma_filter_prefix<T>(s: Seq<T>, i: int, keep: spec_fn(T) -> bool)
    requires
        0 <= i < s.len(),
    ensures
        s.take(i + 1).to_multiset().filter(keep) == (if keep(s[i]) {
            s.take(i).to_multiset().filter(keep).insert(s[i])
        } else {
            s.take(i).to_multiset().filter(keep)
        }),
{
    broadcast use vstd::seq_lib::group_to_multiset_ensures;

    assert(s.take(i + 1) =~= s.take(i).push(s[i]));
    progress::lemma_filter_insert(s.take(i).to_multiset(), keep, s[i]);
}

} // verus!
