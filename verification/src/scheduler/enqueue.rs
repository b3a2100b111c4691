//! Taking in new jobs.

use super::entries::{CoalesceKey, DelayedJob, Job};
use super::lane::{LaneState, LaneView};
use super::model::SchedulerView;
use super::state::SchedulerState;
use super::{lane, model};
use crate::time::Instant;
use crate::window;
use crate::types::{
    EnqueueError, EnqueueOutcome, JobId, OutboundEnqueueMode, OutboundLaneKey, OutboundMeta,
    OutboundScope, WindowLimit,
};
use std::collections::VecDeque;
use vstd::prelude::*;

verus! {

broadcast use super::state::group_views;

/// The first window too small for `weight`.
pub fn find_too_small(limits: &Vec<WindowLimit>, weight: u32) -> (r: Option<u32>)
    ensures
        r == model::too_small(limits@, weight),
{
    let mut i: usize = 0;
    assert(limits@.skip(0) =~= limits@);
    while i < limits.len()
        invariant
            i <= limits@.len(),
            model::too_small(limits@.skip(i as int), weight) == model::too_small(
                limits@,
                weight,
            ),
        decreases limits@.len() - i,
    {
        proof {
            let rest = limits@.skip(i as int);
            assert(rest[0] == limits@[i as int]);
            assert(rest.drop_first() =~= limits@.skip(i + 1));
        }
        if weight > limits[i].capacity {
            return Some(limits[i].capacity);
        }
        i = i + 1;
    }
    assert(limits@.skip(i as int).len() == 0);
    None
}

/// The first window of a chat that never has room for `weight`.
pub fn find_too_small_in_chat(
    limits: &Vec<WindowLimit>,
    scope: OutboundScope,
    weight: u32,
) -> (r: Option<u32>)
    ensures
        r == model::too_small_in_chat(limits@, scope, weight),
{
    match scope {
        OutboundScope::Global => None,
        OutboundScope::Chat(chat) => find_too_small(&window::applicable_to(limits, chat), weight),
    }
}

fn slot_of(meta: &OutboundMeta, mode: OutboundEnqueueMode) -> (r: Option<CoalesceKey>)
    ensures
        r == SchedulerView::slot_of(*meta, mode),
{
    match mode {
        OutboundEnqueueMode::Fifo => None,
        OutboundEnqueueMode::ReplacePending { user_key } => Some(
            CoalesceKey { scope: meta.scope, lane: meta.lane, class: meta.class, user_key },
        ),
    }
}

impl SchedulerState {
    /// The waiting job that a request replaces.
    pub fn replaced_by(&self, meta: &OutboundMeta, mode: OutboundEnqueueMode) -> (r: Option<JobId>)
        requires
            self.wf(),
        ensures
            r == self@.replaced_by(*meta, mode),
    {
        match slot_of(meta, mode) {
            Some(key) => match self.coalesce.get(key) {
                Some(old) => if self.jobs.contains(old.value) {
                    Some(old)
                } else {
                    None
                },
                None => None,
            },
            None => None,
        }
    }

    /// Why a request is refused. A job that never fits an applicable window
    /// could never be granted; a weight change on an existing latest-wins
    /// slot is almost always a classification error.
    pub fn refusal(&self, meta: &OutboundMeta, mode: OutboundEnqueueMode) -> (r: Option<
        EnqueueError,
    >)
        requires
            self.wf(),
        ensures
            r == self@.refusal(*meta, mode),
    {
        let weight: u32 = meta.weight.get();
        let small = match find_too_small(&self.global_limits, weight) {
            Some(capacity) => Some(capacity),
            None => find_too_small_in_chat(&self.chat_limits, meta.scope, weight),
        };
        if let Some(capacity) = small {
            return Some(
                EnqueueError::WeightExceedsWindow {
                    scope: meta.scope,
                    weight: meta.weight,
                    capacity,
                },
            );
        }
        if let Some(old) = self.replaced_by(meta, mode) {
            if let Some(job) = self.jobs.get(old.value) {
                if !job.meta.weight.same(meta.weight) {
                    return Some(EnqueueError::IncompatibleCoalesceMetadata);
                }
            }
        }
        None
    }

    /// Numbers the waiting entries of a lane from zero.
    fn renumber(&mut self, l: &mut LaneState)
        requires
            old(self).wf(),
            old(l).wf(),
        ensures
            final(self).wf(),
            final(l).wf(),
            final(l)@ == (LaneView {
                pending: lane::renumbered(old(l)@.pending),
                next_order: old(l)@.pending.len() as u64,
                ..old(l)@
            }),
            final(self)@ == (SchedulerView {
                jobs: model::renumber_jobs(old(self)@.jobs, old(l)@.pending),
                ..old(self)@
            }),
            final(self).lanes@ == old(self).lanes@,
    {
        let mut fresh: VecDeque<(u64, JobId)> = VecDeque::new();
        let ghost pending = l.pending@;
        let mut i: usize = 0;
        assert(pending.take(0) =~= Seq::empty());
        while i < l.pending.len()
            invariant
                i <= pending.len(),
                *l == *old(l),
                pending == l.pending@,
                self.wf(),
                self.lanes@ == old(self).lanes@,
                self@ == (SchedulerView { jobs: self.jobs@, ..old(self)@ }),
                self.jobs@ == model::renumber_jobs(old(self).jobs@, pending.take(i as int)),
                fresh@.len() == i,
                forall|j: int| 0 <= j < i ==> #[trigger] fresh@[j] == (j as u64, pending[j].1),
            decreases pending.len() - i,
        {
            let id = l.pending[i].1;
            proof {
                assert(pending.take(i + 1).drop_last() =~= pending.take(i as int));
                assert(pending.take(i + 1).last() == pending[i as int]);
            }
            fresh.push_back((i as u64, id));
            if let Some(held) = self.jobs.get(id.value) {
                let mut job = *held;
                job.lane_order = Some(i as u64);
                self.jobs.insert(id.value, job);
            }
            i = i + 1;
        }
        assert(pending.take(i as int) =~= pending);
        assert(fresh@ =~= lane::renumbered(pending));
        l.pending = fresh;
        l.next_order = i as u64;
    }

    /// Puts a job into its lane: at an inherited place, or at the end. The
    /// lane's counter starts over after its last number; before it does, the
    /// waiting entries are numbered from zero so that numeric order stays
    /// FIFO order.
    pub fn insert_lane_pending(
        &mut self,
        key: OutboundLaneKey,
        id: JobId,
        inherited: Option<u64>,
    ) -> (r: u64)
        requires
            old(self).wf(),
        ensures
            final(self).wf(),
            final(self)@ == old(self)@.insert_lane_pending(key.value, id, inherited),
            r == old(self)@.lane_order_for(key.value, inherited),
    {
        let ghost goal = old(self)@.insert_lane_pending(key.value, id, inherited);
        let mut l = match self.lanes.remove(key.value) {
            Some(held) => held,
            None => LaneState::new(),
        };
        assert(l@ == old(self)@.lane_or_empty(key.value));
        match inherited {
            Some(order) => {
                l.insert(order, id);
                self.lanes.insert(key.value, l);
                assert(self@ =~= goal);
                order
            },
            None => {
                if l.next_order == 0 && l.pending.len() > 0 {
                    self.renumber(&mut l);
                }
                let order: u64 = l.next_order;
                proof {
                    let ready = old(self)@.ready_lane(key.value);
                    assert(l@ == ready.lanes[key.value]);
                    assert(self@.jobs == ready.jobs);
                }
                l.insert(order, id);
                l.next_order = if order == u64::MAX {
                    0
                } else {
                    order + 1
                };
                self.lanes.insert(key.value, l);
                assert(self@ =~= goal);
                order
            },
        }
    }

    /// Puts a new job into its lane and makes the lane's head a candidate. If
    /// the replaced job was the head, its candidate entry no longer counts:
    /// the new head may have another priority.
    fn enter_lane(
        &mut self,
        key: OutboundLaneKey,
        id: JobId,
        inherited: Option<u64>,
        replaced: Option<JobId>,
        now: Instant,
    )
        requires
            old(self).wf(),
            old(self)@.jobs.contains_key(id.value),
        ensures
            final(self).wf(),
            final(self)@ == old(self)@.enter_lane(key, id, inherited, replaced, now),
    {
        let ghost placed = old(self)@.insert_lane_pending(key.value, id, inherited);
        let order: u64 = self.insert_lane_pending(key, id, inherited);
        proof {
            if inherited is None && old(self)@.lane_wraps(key.value) {
                lemma_renumber_dom(
                    old(self)@.jobs,
                    old(self)@.lane_or_empty(key.value).pending,
                );
            }
        }
        if let Some(held) = self.jobs.get(id.value) {
            let mut job = *held;
            job.lane_order = Some(order);
            self.jobs.insert(id.value, job);
        }
        let ghost known = SchedulerView {
            jobs: placed.jobs.insert(
                id.value,
                Job { lane_order: Some(order), ..placed.jobs[id.value] },
            ),
            ..placed
        };
        assert(self@ =~= known);
        if let Some(old_id) = replaced {
            let was_head = match self.lanes.get(key.value) {
                Some(l) => match l.first() {
                    Some(entry) => entry.1 == old_id,
                    None => false,
                },
                None => false,
            };
            proof {
                lemma_insert_sorted_nonempty(
                    if inherited is None {
                        old(self)@.ready_lane(key.value).lanes[key.value].pending
                    } else {
                        old(self)@.lane_or_empty(key.value).pending
                    },
                    (order, id),
                );
            }
            if was_head {
                if let Some(mut l) = self.lanes.remove(key.value) {
                    l.in_candidate_heap = false;
                    l.candidate_effective = 0;
                    self.lanes.insert(key.value, l);
                }
                assert(self@ =~= (SchedulerView {
                    lanes: known.lanes.insert(
                        key.value,
                        LaneView {
                            in_candidate_heap: false,
                            candidate_effective: 0,
                            ..known.lanes[key.value]
                        },
                    ),
                    ..known
                }));
            }
        }
        self.push_lane_head_candidate(key, now);
    }

    /// Enqueues a job. In the latest-wins mode a waiting job of the same slot
    /// is superseded: the new job inherits its queue position and scheduling
    /// age, the old id is invalid from then on, and it is reported in the
    /// outcome. A refused request changes nothing.
    pub fn enqueue(
        &mut self,
        meta: OutboundMeta,
        mode: OutboundEnqueueMode,
        not_before: Option<Instant>,
        now: Instant,
    ) -> (r: Result<EnqueueOutcome, EnqueueError>)
        requires
            old(self).wf(),
            old(self)@.next_job_id < u64::MAX,
        ensures
            final(self).wf(),
            final(self)@ == old(self)@.enqueue(meta, mode, not_before, now),
            r == old(self)@.enqueue_result(meta, mode),
    {
        if let Some(error) = self.refusal(&meta, mode) {
            return Err(error);
        }
        let ghost s = self@;
        let slot = slot_of(&meta, mode);
        let replaced = self.replaced_by(&meta, mode);
        let job = match replaced {
            Some(old_id) => {
                let held = match self.jobs.get(old_id.value) {
                    Some(held) => *held,
                    None => {
                        return Err(EnqueueError::IncompatibleCoalesceMetadata);
                    },
                };
                self.remove_waiting(old_id);
                Job {
                    meta,
                    sequence: held.sequence,
                    ready_at: if not_before.is_none() && held.not_before.is_none() {
                        held.ready_at
                    } else {
                        now
                    },
                    not_before,
                    coalesce_key: slot,
                    lane_order: if meta.lane.is_some() {
                        held.lane_order
                    } else {
                        None
                    },
                    in_candidate_heap: false,
                    candidate_effective: 0,
                }
            },
            None => {
                let sequence: u64 = self.take_sequence();
                Job {
                    meta,
                    sequence,
                    ready_at: now,
                    not_before,
                    coalesce_key: slot,
                    lane_order: None,
                    in_candidate_heap: false,
                    candidate_effective: 0,
                }
            },
        };
        let ghost ready = s.before_insert(meta, mode);
        proof {
            assert(self@ == ready);
            assert(job == s.new_job(meta, mode, not_before, now));
            assert(ready.next_job_id == s.next_job_id);
        }
        let id = JobId { value: self.next_job_id };
        self.next_job_id = self.next_job_id + 1;
        self.jobs.insert(id.value, job);
        if let Some(until) = not_before {
            self.delayed.push(DelayedJob { not_before: until, sequence: job.sequence, job: id });
        }
        let ghost recorded = SchedulerView {
            jobs: ready.jobs.insert(id.value, job),
            next_job_id: (ready.next_job_id + 1) as u64,
            delayed: match not_before {
                Some(until) => ready.delayed.insert(
                    DelayedJob { not_before: until, sequence: job.sequence, job: id },
                ),
                None => ready.delayed,
            },
            ..ready
        };
        assert(self@ =~= recorded);
        match meta.lane {
            Some(key) => self.enter_lane(key, id, job.lane_order, replaced, now),
            None => {
                if not_before.is_none() {
                    self.push_job_candidate(id, now);
                }
            },
        }
        let ghost queued = self@;
        if let Some(key) = slot {
            self.coalesce.insert(key, id);
            assert(self@ =~= (SchedulerView {
                coalesce: queued.coalesce.insert(key, id),
                ..queued
            }));
        }
        self.compact_delayed_if_needed();
        self.compact_candidate_heap_if_needed();
        Ok(EnqueueOutcome { job: id, superseded: replaced })
    }

    /// Enqueues a job unless that would grow the backlog beyond `capacity`. A
    /// latest-wins replacement does not grow the backlog and is taken in even
    /// at capacity.
    pub fn enqueue_bounded(
        &mut self,
        meta: OutboundMeta,
        mode: OutboundEnqueueMode,
        capacity: usize,
        not_before: Option<Instant>,
        now: Instant,
    ) -> (r: Result<EnqueueOutcome, EnqueueError>)
        requires
            old(self).wf(),
            old(self)@.next_job_id < u64::MAX,
        ensures
            final(self).wf(),
            ({
                let s = old(self)@;
                let full = s.jobs.dom().len() >= capacity && s.replaced_by(meta, mode) is None;
                if s.refusal(meta, mode) is None && full {
                    r == Err::<EnqueueOutcome, EnqueueError>(EnqueueError::QueueFull)
                        && final(self)@ == s
                } else {
                    r == s.enqueue_result(meta, mode) && final(self)@ == s.enqueue(
                        meta,
                        mode,
                        not_before,
                        now,
                    )
                }
            }),
    {
        if let Some(error) = self.refusal(&meta, mode) {
            return Err(error);
        }
        if self.jobs.len() >= capacity && self.replaced_by(&meta, mode).is_none() {
            return Err(EnqueueError::QueueFull);
        }
        self.enqueue(meta, mode, not_before, now)
    }
}

proof fn lemma_renumber_dom(jobs: Map<u64, Job>, pending: Seq<(u64, JobId)>)
    ensures
        model::renumber_jobs(jobs, pending).dom() == jobs.dom(),
    decreases pending.len(),
{
    if pending.len() > 0 {
        lemma_renumber_dom(jobs, pending.drop_last());
        assert(model::renumber_jobs(jobs, pending).dom() =~= jobs.dom());
    }
}

proof fn lemma_insert_sorted_nonempty(pending: Seq<(u64, JobId)>, entry: (u64, JobId))
    ensures
        lane::insert_sorted(pending, entry).len() > 0,
{
}

} // verus!
