//! The scheduler's state.

use super::coalesce::CoalesceMap;
use super::entries::{
    AgingEvent, BlockedJob, CandidateKey, CandidateRef, DelayedJob, InFlight, Job,
};
use super::lane::{LaneState, LaneView};
use super::model;
use super::model::{ReservationView, SchedulerView};
use super::penalties::Penalties;
use crate::heap::Heap;
use crate::idmap::IdMap;
use crate::time::Instant;
use crate::types::{
    AgingPolicy, JobId, OutboundLaneKey, OutboundLimits, OutboundScope, OutboundSnapshot,
    SchedulerConfigError, WindowLimit, HIGHEST_LEVEL,
};
use crate::window::{WindowSet, WindowView};
use std::collections::VecDeque;
use vstd::prelude::*;

verus! {

/// A window held back for a blocked top-aged candidate.
pub struct Reservation {
    pub window: OutboundScope,
    pub until: Instant,
    pub owner: CandidateRef,
    pub queue: VecDeque<CandidateRef>,
}

impl Reservation {
    pub open spec fn view(&self) -> ReservationView {
        ReservationView {
            window: self.window,
            until: self.until,
            owner: self.owner,
            queue: self.queue@,
        }
    }
}

/// What each lane holds.
pub open spec fn lane_views(lanes: Map<u64, LaneState>) -> Map<u64, LaneView> {
    Map::new(|key: u64| lanes.contains_key(key), |key: u64| lanes[key]@)
}

/// What each chat's windows hold.
pub open spec fn set_views(sets: Map<u64, WindowSet>) -> Map<u64, Seq<WindowView>> {
    Map::new(|key: u64| sets.contains_key(key), |key: u64| sets[key]@)
}

/// What each reservation holds.
pub open spec fn reservation_views(reservations: Seq<Reservation>) -> Seq<ReservationView> {
    Seq::new(reservations.len(), |i: int| reservations[i]@)
}

pub broadcast proof fn lemma_lane_views_insert(
    lanes: Map<u64, LaneState>,
    key: u64,
    l: LaneState,
)
    ensures
        #[trigger] lane_views(lanes.insert(key, l)) == lane_views(lanes).insert(key, l@),
{
    assert(lane_views(lanes.insert(key, l)) =~= lane_views(lanes).insert(key, l@));
}

pub broadcast proof fn lemma_lane_views_remove(lanes: Map<u64, LaneState>, key: u64)
    ensures
        #[trigger] lane_views(lanes.remove(key)) == lane_views(lanes).remove(key),
{
    assert(lane_views(lanes.remove(key)) =~= lane_views(lanes).remove(key));
}

pub broadcast proof fn lemma_set_views_insert(sets: Map<u64, WindowSet>, key: u64, set: WindowSet)
    ensures
        #[trigger] set_views(sets.insert(key, set)) == set_views(sets).insert(key, set@),
{
    assert(set_views(sets.insert(key, set)) =~= set_views(sets).insert(key, set@));
}

pub broadcast proof fn lemma_set_views_remove(sets: Map<u64, WindowSet>, key: u64)
    ensures
        #[trigger] set_views(sets.remove(key)) == set_views(sets).remove(key),
{
    assert(set_views(sets.remove(key)) =~= set_views(sets).remove(key));
}

/// Setting an entry that was taken out first is setting it.
pub broadcast proof fn lemma_reinsert<V>(m: Map<u64, V>, key: u64, v: V)
    ensures
        #[trigger] m.remove(key).insert(key, v) == m.insert(key, v),
{
    assert(m.remove(key).insert(key, v) =~= m.insert(key, v));
}

pub broadcast group group_views {
    lemma_lane_views_insert,
    lemma_lane_views_remove,
    lemma_set_views_insert,
    lemma_set_views_remove,
    lemma_reinsert,
}

/// The deterministic outbound scheduling state machine.
pub struct SchedulerState {
    pub jobs: IdMap<Job>,
    pub candidates: Heap<CandidateKey>,
    pub blocked: Heap<BlockedJob>,
    pub aging_events: Heap<AgingEvent>,
    pub reservations: Vec<Reservation>,
    pub delayed: Heap<DelayedJob>,
    pub lanes: IdMap<LaneState>,
    pub coalesce: CoalesceMap,
    pub global_windows: WindowSet,
    pub chat_window_sets: IdMap<WindowSet>,
    pub penalties: Penalties,
    pub in_flight: IdMap<InFlight>,
    pub stale_candidates: usize,
    pub stale_delayed: usize,
    pub next_sequence: u64,
    pub next_job_id: u64,
    pub aging: AgingPolicy,
    pub chat_limits: Vec<WindowLimit>,
    pub global_limits: Vec<WindowLimit>,
}

/// Whether every lane is in order.
pub open spec fn lanes_wf(lanes: Map<u64, LaneState>) -> bool {
    forall|key: u64| #[trigger] lanes.contains_key(key) ==> lanes[key].wf()
}

/// Whether every chat's windows agree with their sums.
pub open spec fn sets_wf(sets: Map<u64, WindowSet>) -> bool {
    forall|key: u64| #[trigger] sets.contains_key(key) ==> sets[key].wf()
}

/// The first fault among the windows.
fn find_window_fault(limits: &Vec<WindowLimit>) -> (r: Option<SchedulerConfigError>)
    ensures
        r == model::window_fault(limits@),
{
    let mut i: usize = 0;
    assert(limits@.skip(0) =~= limits@);
    while i < limits.len()
        invariant
            i <= limits@.len(),
            model::window_fault(limits@.skip(i as int)) == model::window_fault(limits@),
        decreases limits@.len() - i,
    {
        proof {
            let rest = limits@.skip(i as int);
            assert(rest[0] == limits@[i as int]);
            assert(rest.drop_first() =~= limits@.skip(i + 1));
        }
        if limits[i].capacity == 0 {
            return Some(SchedulerConfigError::ZeroWindowCapacity);
        }
        if limits[i].window.nanos == 0 {
            return Some(SchedulerConfigError::ZeroWindowDuration);
        }
        i = i + 1;
    }
    assert(limits@.skip(i as int).len() == 0);
    None
}

/// The fault of the limits, if they have one.
pub fn find_limits_fault(limits: &OutboundLimits) -> (r: Option<SchedulerConfigError>)
    ensures
        r == model::limits_fault(*limits),
{
    match find_window_fault(&limits.global) {
        Some(fault) => Some(fault),
        None => find_window_fault(&limits.chat),
    }
}

impl SchedulerState {
    /// The queues are in order and the sums of the windows are right.
    pub open spec fn wf(&self) -> bool {
        &&& self.candidates.wf()
        &&& self.blocked.wf()
        &&& self.aging_events.wf()
        &&& self.delayed.wf()
        &&& self.coalesce.wf()
        &&& self.global_windows.wf()
        &&& lanes_wf(self.lanes@)
        &&& sets_wf(self.chat_window_sets@)
        &&& self.jobs@.dom().finite()
    }

    pub open spec fn view(&self) -> SchedulerView {
        SchedulerView {
            jobs: self.jobs@,
            candidates: self.candidates@,
            blocked: self.blocked@,
            aging_events: self.aging_events@,
            reservations: reservation_views(self.reservations@),
            delayed: self.delayed@,
            lanes: lane_views(self.lanes@),
            coalesce: self.coalesce@,
            global_windows: self.global_windows@,
            chat_window_sets: set_views(self.chat_window_sets@),
            penalties: self.penalties@,
            in_flight: self.in_flight@,
            stale_candidates: self.stale_candidates,
            stale_delayed: self.stale_delayed,
            next_sequence: self.next_sequence,
            next_job_id: self.next_job_id,
            aging: self.aging,
            chat_limits: self.chat_limits@,
            global_limits: self.global_limits@,
        }
    }

    /// A scheduler with the given limits, unless the configuration is faulty.
    /// Anti-starvation is a guarantee only if aging can lift the lowest
    /// priority all the way to the highest.
    pub fn new(limits: OutboundLimits, aging: AgingPolicy) -> (r: Result<
        Self,
        SchedulerConfigError,
    >)
        ensures
            match (r, model::config_fault(limits, aging)) {
                (Ok(s), None) => s.wf() && s@ == SchedulerView::fresh(limits, aging),
                (Err(error), Some(fault)) => error == fault,
                _ => false,
            },
    {
        if let Some(fault) = find_limits_fault(&limits) {
            return Err(fault);
        }
        if aging.quantum.nanos == 0 {
            return Err(SchedulerConfigError::ZeroAgingQuantum);
        }
        if aging.max_boost < HIGHEST_LEVEL {
            return Err(
                SchedulerConfigError::AgingCannotReachHighest { max_boost: aging.max_boost },
            );
        }
        let global_windows = WindowSet::new(&limits.global);
        let r = SchedulerState {
            jobs: IdMap::new(),
            candidates: Heap::new(),
            blocked: Heap::new(),
            aging_events: Heap::new(),
            reservations: Vec::new(),
            delayed: Heap::new(),
            lanes: IdMap::new(),
            coalesce: CoalesceMap::new(),
            global_windows,
            chat_window_sets: IdMap::new(),
            penalties: Penalties::new(),
            in_flight: IdMap::new(),
            stale_candidates: 0,
            stale_delayed: 0,
            next_sequence: 0,
            next_job_id: 0,
            aging,
            chat_limits: limits.chat,
            global_limits: limits.global,
        };
        assert(r@ =~= SchedulerView::fresh(limits, aging));
        Ok(r)
    }

    /// The limits of the global windows.
    pub fn global_limits(&self) -> (r: &Vec<WindowLimit>)
        ensures
            r@ == self@.global_limits,
    {
        &self.global_limits
    }

    /// The limits of the windows of every chat.
    pub fn chat_limits(&self) -> (r: &Vec<WindowLimit>)
        ensures
            r@ == self@.chat_limits,
    {
        &self.chat_limits
    }

    /// The number of jobs that wait for their moment.
    fn count_delayed(&self) -> (r: usize)
        ensures
            r == self@.delayed_jobs().len(),
    {
        let keys = self.jobs.keys();
        let mut count: usize = 0;
        let mut i: usize = 0;
        let ghost mut found: Set<u64> = Set::empty();
        while i < keys.len()
            invariant
                i <= keys@.len(),
                count <= i,
                keys@.no_duplicates(),
                forall|k: u64| keys@.contains(k) <==> #[trigger] self.jobs@.contains_key(k),
                found.finite(),
                found.len() == count,
                forall|k: u64| #[trigger]
                    found.contains(k) <==> self@.delayed_jobs().contains(k) && exists|j: int|
                        0 <= j < i && #[trigger] keys@[j] == k,
            decreases keys@.len() - i,
        {
            let key: u64 = keys[i];
            assert(keys@.contains(key));
            assert(self.jobs@.contains_key(key));
            if let Some(job) = self.jobs.get(key) {
                if job.not_before.is_some() {
                    proof {
                        assert(!found.contains(key));
                        found = found.insert(key);
                    }
                    count = count + 1;
                }
            }
            i = i + 1;
        }
        proof {
            assert forall|k: u64| #[trigger]
                self@.delayed_jobs().contains(k) implies found.contains(k) by {
                assert(self.jobs@.contains_key(k));
                let j = keys@.index_of(k);
                assert(keys@[j] == k);
            }
            assert(found =~= self@.delayed_jobs());
        }
        count
    }

    /// Whether a blocked entry counts: its candidate is there and waits.
    fn waits(&self, e: BlockedJob) -> (r: bool)
        ensures
            r == (e.until.nanos > 0 && model::reference_alive(
                e.reference,
                self@.jobs,
                self@.lanes,
            ) && match e.reference {
                CandidateRef::Job(job) => !self@.jobs[job.value].in_candidate_heap,
                CandidateRef::Lane(key) => !self@.lanes[key.value].in_candidate_heap
                    && self@.lanes[key.value].in_flight is None,
            }),
    {
        if e.until.nanos == 0 || !reference_alive(e.reference, &self.jobs, &self.lanes) {
            return false;
        }
        match e.reference {
            CandidateRef::Job(job) => match self.jobs.get(job.value) {
                Some(j) => !j.in_candidate_heap,
                None => false,
            },
            CandidateRef::Lane(key) => match self.lanes.get(key.value) {
                Some(l) => !l.in_candidate_heap && l.in_flight.is_none(),
                None => false,
            },
        }
    }

    /// The number of candidates that failed admission and wait for a
    /// deadline.
    fn count_blocked(&self) -> (r: usize)
        ensures
            r == self@.blocked_candidates(),
    {
        broadcast use vstd::seq_lib::group_to_multiset_ensures;

        let items = self.blocked.items();
        let mut jobs: IdMap<bool> = IdMap::new();
        let mut lanes: IdMap<bool> = IdMap::new();
        let mut i: usize = 0;
        while i < items.len()
            invariant
                i <= items@.len(),
                items@.to_multiset() == self@.blocked,
                jobs@.dom().finite(),
                lanes@.dom().finite(),
                jobs@.dom().len() + lanes@.dom().len() <= i,
                forall|k: u64| #[trigger]
                    jobs@.contains_key(k) ==> self@.blocked_jobs().contains(k),
                forall|k: u64| #[trigger]
                    lanes@.contains_key(k) ==> self@.blocked_lanes().contains(k),
                forall|j: int, reference: CandidateRef|
                    0 <= j < i && (#[trigger] items@[j]).until.nanos > 0 && items@[j].reference
                        == reference && #[trigger] self@.waits_for_deadline(reference)
                        ==> match reference {
                        CandidateRef::Job(job) => jobs@.contains_key(job.value),
                        CandidateRef::Lane(key) => lanes@.contains_key(key.value),
                    },
            decreases items@.len() - i,
        {
            let e = items[i];
            assert(self@.blocked.contains(e)) by {
                broadcast use vstd::seq_lib::group_to_multiset_ensures;

                assert(items@.contains(e));
                assert(items@.to_multiset().count(e) > 0);
            }
            if self.waits(e) {
                assert(self@.waits_for_deadline(e.reference));
                match e.reference {
                    CandidateRef::Job(job) => jobs.insert(job.value, true),
                    CandidateRef::Lane(key) => lanes.insert(key.value, true),
                }
            }
            i = i + 1;
        }
        proof {
            assert forall|k: u64| #[trigger]
                self@.blocked_jobs().contains(k) implies jobs@.contains_key(k) by {
                let reference = CandidateRef::Job(JobId { value: k });
                let e = choose|e: BlockedJob| #[trigger]
                    self@.blocked.contains(e) && e.reference == reference && e.until.nanos > 0;
                assert(items@.contains(e));
                let j = items@.index_of(e);
                assert(items@[j] == e);
            }
            assert forall|k: u64| #[trigger]
                self@.blocked_lanes().contains(k) implies lanes@.contains_key(k) by {
                let reference = CandidateRef::Lane(OutboundLaneKey { value: k });
                let e = choose|e: BlockedJob| #[trigger]
                    self@.blocked.contains(e) && e.reference == reference && e.until.nanos > 0;
                assert(items@.contains(e));
                let j = items@.index_of(e);
                assert(items@[j] == e);
            }
            assert(jobs@.dom() =~= self@.blocked_jobs());
            assert(lanes@.dom() =~= self@.blocked_lanes());
        }
        jobs.len() + lanes.len()
    }

    /// A point-in-time view of the queue state.
    pub fn snapshot(&self) -> (r: OutboundSnapshot)
        ensures
            r.pending == self@.jobs.dom().len(),
            r.in_flight == self@.in_flight.dom().len(),
            r.blocked == self@.blocked_candidates(),
            r.delayed == self@.delayed_jobs().len(),
            r.candidates == self@.candidates.len(),
            r.reservations == self@.reservations.len(),
    {
        OutboundSnapshot {
            pending: self.jobs.len(),
            in_flight: self.in_flight.len(),
            blocked: self.count_blocked(),
            delayed: self.count_delayed(),
            candidates: self.candidates.len(),
            reservations: self.reservations.len(),
        }
    }

    /// The position of the reservation of a window, or the number of
    /// reservations.
    pub fn find_reservation(&self, scope: OutboundScope) -> (r: usize)
        ensures
            r == model::find(self@.reservations, scope),
            r <= self@.reservations.len(),
            r < self@.reservations.len() ==> self@.reservations[r as int].window == scope,
    {
        let mut i: usize = 0;
        let ghost all = self@.reservations;
        assert(all.skip(0) =~= all);
        while i < self.reservations.len()
            invariant
                i <= self.reservations@.len(),
                all == self@.reservations,
                i + model::find(all.skip(i as int), scope) == model::find(all, scope),
            decreases self.reservations@.len() - i,
        {
            proof {
                let rest = all.skip(i as int);
                assert(rest[0] == all[i as int]);
                assert(rest.drop_first() =~= all.skip(i + 1));
            }
            if self.reservations[i].window == scope {
                return i;
            }
            i = i + 1;
        }
        assert(all.skip(i as int).len() == 0);
        i
    }

    /// Whether a window is held back.
    pub fn reservation_active(&self, scope: OutboundScope, now: Instant) -> (r: bool)
        ensures
            r == self@.reservation_active(scope, now),
    {
        let at: usize = self.find_reservation(scope);
        at < self.reservations.len() && self.reservations[at].until.nanos > now.nanos
    }

    /// Whether a scope is penalized.
    pub fn penalty_active(&self, scope: OutboundScope, now: Instant) -> (r: bool)
        ensures
            r == self@.penalty_active(scope, now),
    {
        match self.penalties.get(scope) {
            Some(until) => until.nanos > now.nanos,
            None => false,
        }
    }
}

/// Whether a reference still points at a waiting job.
pub fn reference_alive(
    reference: CandidateRef,
    jobs: &IdMap<Job>,
    lanes: &IdMap<LaneState>,
) -> (r: bool)
    ensures
        r == model::reference_alive(reference, jobs@, lane_views(lanes@)),
{
    match reference {
        CandidateRef::Job(job) => jobs.contains(job.value),
        CandidateRef::Lane(key) => match lanes.get(key.value) {
            Some(l) => l.has_live(jobs),
            None => false,
        },
    }
}

/// The weight of the job a reference points at.
pub fn reference_weight(
    reference: CandidateRef,
    jobs: &IdMap<Job>,
    lanes: &IdMap<LaneState>,
) -> (r: Option<u32>)
    ensures
        r == model::reference_weight(reference, jobs@, lane_views(lanes@)),
{
    match reference {
        CandidateRef::Job(job) => match jobs.get(job.value) {
            Some(held) => Some(held.meta.weight.get()),
            None => None,
        },
        CandidateRef::Lane(key) => match lanes.get(key.value) {
            Some(l) => match l.first() {
                Some(entry) => match jobs.get(entry.1.value) {
                    Some(held) => Some(held.meta.weight.get()),
                    None => None,
                },
                None => None,
            },
            None => None,
        },
    }
}

} // verus!
