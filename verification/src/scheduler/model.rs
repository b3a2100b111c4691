//! What the scheduler holds, as mathematical values, and what each operation
//! does to it.

use super::entries::{
    AgingEvent, BlockedJob, Candidate, CandidateKey, CandidateRef, CoalesceKey, DelayedJob,
    InFlight, Job,
};
use super::lane::LaneView;
use crate::time::Instant;
use crate::types::{
    AgingPolicy, EnqueueError, EnqueueOutcome, Grant, JobId, OutboundChatKey, OutboundCompletion,
    OutboundEnqueueMode, OutboundLaneKey, OutboundLimits, OutboundMeta, OutboundScope,
    SchedulerConfigError, SchedulerWakeup, WindowLimit, HIGHEST_LEVEL,
};
use crate::window::WindowView;
use super::entries::Admission;
use super::{entries, lane};
use crate::{heap, types, window};
use vstd::multiset::Multiset;
use vstd::prelude::*;

verus! {

/// A window held back for a blocked top-aged candidate, its `owner`. While
/// `until` has not come, every other consumer of the window is parked in
/// `queue`. Once it has, one parked candidate is woken at the start of a
/// grant pass, and the next ones as grants leave room.
#[verifier::ext_equal]
pub struct ReservationView {
    pub window: OutboundScope,
    pub until: Instant,
    pub owner: CandidateRef,
    pub queue: Seq<CandidateRef>,
}

/// Everything the scheduler knows.
#[verifier::ext_equal]
pub struct SchedulerView {
    /// Jobs that have not been granted.
    pub jobs: Map<u64, Job>,
    /// Unlaned ready jobs and free lane heads. An entry is validated when it
    /// surfaces; dead entries are counted and compacted.
    pub candidates: Multiset<CandidateKey>,
    /// Candidates that failed admission.
    pub blocked: Multiset<BlockedJob>,
    /// Moments at which a candidate's effective priority rises.
    pub aging_events: Multiset<AgingEvent>,
    /// Windows held back for a candidate that could not fit.
    pub reservations: Seq<ReservationView>,
    /// Jobs waiting for their delay deadline.
    pub delayed: Multiset<DelayedJob>,
    pub lanes: Map<u64, LaneView>,
    /// The pending job of each latest-wins slot.
    pub coalesce: Map<CoalesceKey, JobId>,
    pub global_windows: Seq<WindowView>,
    pub chat_window_sets: Map<u64, Seq<WindowView>>,
    pub penalties: Map<OutboundScope, Instant>,
    /// Granted jobs that have not been completed.
    pub in_flight: Map<u64, InFlight>,
    /// A running count of candidate entries found or left dead.
    pub stale_candidates: usize,
    /// Entries of `delayed` whose job is gone.
    pub stale_delayed: usize,
    pub next_sequence: u64,
    pub next_job_id: u64,
    pub aging: AgingPolicy,
    pub chat_limits: Seq<WindowLimit>,
    pub global_limits: Seq<WindowLimit>,
}

/// `count` plus one, as far as it can be counted.
pub open spec fn one_more(count: usize) -> usize {
    if count < usize::MAX {
        (count + 1) as usize
    } else {
        count
    }
}

// ---------- limits ----------

/// The first window too small for `weight`.
pub open spec fn too_small(limits: Seq<WindowLimit>, weight: u32) -> Option<u32>
    decreases limits.len(),
{
    if limits.len() == 0 {
        None
    } else if weight > limits[0].capacity {
        Some(limits[0].capacity)
    } else {
        too_small(limits.drop_first(), weight)
    }
}

/// The first window of a chat that never has room for `weight`.
pub open spec fn too_small_in_chat(
    limits: Seq<WindowLimit>,
    scope: OutboundScope,
    weight: u32,
) -> Option<u32> {
    match scope {
        OutboundScope::Global => None,
        OutboundScope::Chat(chat) => too_small(window::applicable(limits, chat.value), weight),
    }
}

/// What is wrong with the first faulty window.
pub open spec fn window_fault(limits: Seq<WindowLimit>) -> Option<SchedulerConfigError>
    decreases limits.len(),
{
    if limits.len() == 0 {
        None
    } else if limits[0].capacity == 0 {
        Some(SchedulerConfigError::ZeroWindowCapacity)
    } else if limits[0].window.nanos == 0 {
        Some(SchedulerConfigError::ZeroWindowDuration)
    } else {
        window_fault(limits.drop_first())
    }
}

/// What is wrong with the limits: global windows first, then chat windows.
pub open spec fn limits_fault(limits: OutboundLimits) -> Option<SchedulerConfigError> {
    match window_fault(limits.global@) {
        Some(fault) => Some(fault),
        None => window_fault(limits.chat@),
    }
}

/// What is wrong with a configuration.
pub open spec fn config_fault(limits: OutboundLimits, aging: AgingPolicy) -> Option<
    SchedulerConfigError,
> {
    match limits_fault(limits) {
        Some(fault) => Some(fault),
        None => if aging.quantum.nanos == 0 {
            Some(SchedulerConfigError::ZeroAgingQuantum)
        } else if aging.max_boost < HIGHEST_LEVEL {
            Some(SchedulerConfigError::AgingCannotReachHighest { max_boost: aging.max_boost })
        } else {
            None
        },
    }
}

// ---------- reservations ----------

/// The position of the reservation of `window`, or the number of
/// reservations if it has none.
pub open spec fn find(reservations: Seq<ReservationView>, window: OutboundScope) -> nat
    decreases reservations.len(),
{
    if reservations.len() == 0 {
        0
    } else if reservations[0].window == window {
        0
    } else {
        1 + find(reservations.drop_first(), window)
    }
}

/// The position of the first reservation that `p` holds of, or the number of
/// reservations.
pub open spec fn first_where(
    reservations: Seq<ReservationView>,
    p: spec_fn(ReservationView) -> bool,
) -> nat
    decreases reservations.len(),
{
    if reservations.len() == 0 {
        0
    } else if p(reservations[0]) {
        0
    } else {
        1 + first_where(reservations.drop_first(), p)
    }
}

/// Whether a hold has ended and somebody is still parked behind it.
pub open spec fn lingers(r: ReservationView, now: Instant) -> bool {
    r.until.nanos <= now.nanos && r.queue.len() > 0
}

/// How many references are parked behind holds that have ended.
pub open spec fn lingering(reservations: Seq<ReservationView>, now: Instant) -> nat
    decreases reservations.len(),
{
    if reservations.len() == 0 {
        0
    } else {
        let rest = lingering(reservations.drop_first(), now);
        if reservations[0].until.nanos <= now.nanos {
            reservations[0].queue.len() + rest
        } else {
            rest
        }
    }
}

/// Whether one unlaned job goes before another one at every moment: it is
/// older, it has waited at least as long, and its priority is not lower.
pub open spec fn precedes(a: Job, b: Job) -> bool {
    &&& a.meta.lane is None
    &&& b.meta.lane is None
    &&& a.meta.priority.value >= b.meta.priority.value
    &&& a.ready_at.nanos <= b.ready_at.nanos
    &&& a.sequence < b.sequence
}

/// The sequence of the unlaned job that the reference is to, while it waits.
pub open spec fn age_of(reference: CandidateRef, jobs: Map<u64, Job>) -> Option<u64> {
    match reference {
        CandidateRef::Job(id) => if jobs.contains_key(id.value) {
            Some(jobs[id.value].sequence)
        } else {
            None
        },
        CandidateRef::Lane(_) => None,
    }
}

/// Whether the reference is to a waiting job that precedes `job`.
pub open spec fn is_ahead(reference: CandidateRef, jobs: Map<u64, Job>, job: Job) -> bool {
    reference matches CandidateRef::Job(id) && jobs.contains_key(id.value) && precedes(
        jobs[id.value],
        job,
    )
}

/// Whether a job that precedes `job` is parked in the queue, which is in
/// order of age: nobody is looked for behind the first younger one.
pub open spec fn someone_ahead(queue: Seq<CandidateRef>, jobs: Map<u64, Job>, job: Job) -> bool
    decreases queue.len(),
{
    if queue.len() == 0 {
        false
    } else {
        match age_of(queue[0], jobs) {
            Some(age) => age < job.sequence && (is_ahead(queue[0], jobs, job) || someone_ahead(
                queue.drop_first(),
                jobs,
                job,
            )),
            None => someone_ahead(queue.drop_first(), jobs, job),
        }
    }
}

/// The place of a job of the given age in a queue: in front of the younger
/// ones at its end, or at its end (`place`) if there are none.
pub open spec fn place_before(
    queue: Seq<CandidateRef>,
    jobs: Map<u64, Job>,
    age: u64,
    place: nat,
) -> nat
    decreases queue.len(),
{
    if queue.len() == 0 {
        place
    } else {
        let rest = queue.drop_last();
        match age_of(queue.last(), jobs) {
            Some(other) => if other <= age {
                place
            } else {
                place_before(rest, jobs, age, rest.len())
            },
            None => place_before(rest, jobs, age, place),
        }
    }
}

/// The place at which a reference is parked: an unlaned job in order of age,
/// and a lane at the end.
pub open spec fn parking_place(
    queue: Seq<CandidateRef>,
    jobs: Map<u64, Job>,
    reference: CandidateRef,
) -> nat {
    match age_of(reference, jobs) {
        None => queue.len(),
        Some(age) => if queue.len() > 0 && age_of(queue[0], jobs) is Some && age < age_of(
            queue[0],
            jobs,
        )->0 {
            0
        } else {
            place_before(queue, jobs, age, queue.len())
        },
    }
}

/// Whether granting a job of `scope` would overtake somebody who is parked
/// behind this hold, though the hold has ended.
pub open spec fn overtakes(
    r: ReservationView,
    jobs: Map<u64, Job>,
    job: Job,
    now: Instant,
) -> bool {
    &&& r.until.nanos <= now.nanos
    &&& r.window is Global || r.window == job.meta.scope
    &&& someone_ahead(r.queue, jobs, job)
}

/// The references of a queue without the leading dead ones.
pub open spec fn live_queue(
    queue: Seq<CandidateRef>,
    jobs: Map<u64, Job>,
    lanes: Map<u64, LaneView>,
) -> Seq<CandidateRef>
    decreases queue.len(),
{
    if queue.len() > 0 && !reference_alive(queue[0], jobs, lanes) {
        live_queue(queue.drop_first(), jobs, lanes)
    } else {
        queue
    }
}

/// The windows whose hold has ended at `now`.
pub open spec fn expired_windows(reservations: Seq<ReservationView>, now: Instant) -> Seq<
    OutboundScope,
>
    decreases reservations.len(),
{
    if reservations.len() == 0 {
        Seq::empty()
    } else {
        let rest = expired_windows(reservations.drop_last(), now);
        if reservations.last().until.nanos <= now.nanos {
            rest.push(reservations.last().window)
        } else {
            rest
        }
    }
}

/// Whether a reference still points at a waiting job.
pub open spec fn reference_alive(
    reference: CandidateRef,
    jobs: Map<u64, Job>,
    lanes: Map<u64, LaneView>,
) -> bool {
    match reference {
        CandidateRef::Job(job) => jobs.contains_key(job.value),
        CandidateRef::Lane(key) => lanes.contains_key(key.value) && lane::has_live(
            lanes[key.value].pending,
            jobs,
        ),
    }
}

/// The weight of the job a reference points at: for a lane, of the first
/// entry.
pub open spec fn reference_weight(
    reference: CandidateRef,
    jobs: Map<u64, Job>,
    lanes: Map<u64, LaneView>,
) -> Option<u32> {
    match reference {
        CandidateRef::Job(job) => if jobs.contains_key(job.value) {
            Some(jobs[job.value].meta.weight@)
        } else {
            None
        },
        CandidateRef::Lane(key) => if lanes.contains_key(key.value)
            && lanes[key.value].pending.len() > 0 && jobs.contains_key(
            lanes[key.value].pending[0].1.value,
        ) {
            Some(jobs[lanes[key.value].pending[0].1.value].meta.weight@)
        } else {
            None
        },
    }
}

// ---------- sequences ----------

/// Whether `s` is the smallest sequence of a waiting job.
pub open spec fn is_least_sequence(jobs: Map<u64, Job>, s: u64) -> bool {
    &&& exists|k: u64| #[trigger] jobs.contains_key(k) && jobs[k].sequence == s
    &&& forall|k: u64| #[trigger] jobs.contains_key(k) ==> s <= jobs[k].sequence
}

/// Whether `s` is the largest sequence of a waiting job.
pub open spec fn is_greatest_sequence(jobs: Map<u64, Job>, s: u64) -> bool {
    &&& exists|k: u64| #[trigger] jobs.contains_key(k) && jobs[k].sequence == s
    &&& forall|k: u64| #[trigger] jobs.contains_key(k) ==> jobs[k].sequence <= s
}

pub open spec fn least_sequence(jobs: Map<u64, Job>) -> u64 {
    choose|s: u64| is_least_sequence(jobs, s)
}

pub open spec fn greatest_sequence(jobs: Map<u64, Job>) -> u64 {
    choose|s: u64| is_greatest_sequence(jobs, s)
}

/// The number of waiting jobs with a smaller sequence.
pub open spec fn sequence_rank(jobs: Map<u64, Job>, s: u64) -> nat {
    jobs.dom().filter(|k: u64| jobs[k].sequence < s).len()
}

/// Every waiting job numbered by the place of its sequence.
pub open spec fn ranked_jobs(jobs: Map<u64, Job>) -> Map<u64, Job> {
    jobs.map_values(|job: Job| Job { sequence: sequence_rank(jobs, job.sequence) as u64, ..job })
}

/// `s` moved down by `by`, at least zero.
pub open spec fn shifted(s: u64, by: u64) -> u64 {
    if s >= by {
        (s - by) as u64
    } else {
        0
    }
}

/// Every item of `m` replaced by what `f` makes of it.
pub open spec fn image<A, B>(m: Multiset<A>, f: spec_fn(A) -> B) -> Multiset<B>
    decreases m.len(),
{
    if m.len() == 0 {
        Multiset::empty()
    } else {
        let x = m.choose();
        image(m.remove(x), f).insert(f(x))
    }
}

/// The place of a delayed entry after its job has been renumbered.
pub open spec fn rekeyed_delayed(entry: DelayedJob, jobs: Map<u64, Job>) -> DelayedJob {
    DelayedJob { sequence: jobs[entry.job.value].sequence, ..entry }
}

/// The job a candidate entry stands for: for a lane, the first waiting one.
pub open spec fn target(
    reference: CandidateRef,
    jobs: Map<u64, Job>,
    lanes: Map<u64, LaneView>,
) -> JobId {
    match reference {
        CandidateRef::Job(job) => job,
        CandidateRef::Lane(key) => lane::drop_dead(lanes[key.value].pending, jobs)[0].1,
    }
}

/// The place of a candidate entry after its job has been renumbered.
pub open spec fn rekeyed_candidate(
    key: CandidateKey,
    jobs: Map<u64, Job>,
    lanes: Map<u64, LaneView>,
) -> CandidateKey {
    CandidateKey { sequence: jobs[target(key.reference, jobs, lanes).value].sequence, ..key }
}

// ---------- lanes ----------

/// The waiting jobs after the entries of a lane have been renumbered.
pub open spec fn renumber_jobs(jobs: Map<u64, Job>, pending: Seq<(u64, JobId)>) -> Map<u64, Job>
    decreases pending.len(),
{
    if pending.len() == 0 {
        jobs
    } else {
        let before = renumber_jobs(jobs, pending.drop_last());
        let id = pending.last().1.value;
        if before.contains_key(id) {
            before.insert(
                id,
                Job { lane_order: Some((pending.len() - 1) as u64), ..before[id] },
            )
        } else {
            before
        }
    }
}

/// The earlier of a deadline found so far and another one.
pub open spec fn sooner(found: Option<Instant>, at: Instant) -> Option<Instant> {
    match found {
        Some(current) => if at.nanos < current.nanos {
            Some(at)
        } else {
            found
        },
        None => Some(at),
    }
}

/// The earliest end of a hold that is still active at `now`, or `found`.
pub open spec fn earliest_hold(
    found: Option<Instant>,
    reservations: Seq<ReservationView>,
    now: Instant,
) -> Option<Instant>
    decreases reservations.len(),
{
    if reservations.len() == 0 {
        found
    } else {
        let before = earliest_hold(found, reservations.drop_last(), now);
        if reservations.last().until.nanos > now.nanos {
            sooner(before, reservations.last().until)
        } else {
            before
        }
    }
}

/// One look at the foremost candidate entry.
pub enum PopStep {
    /// There is no entry.
    Empty,
    /// The entry was dead, overtaken or out of place.
    Again,
    /// The entry stands for this candidate.
    Found(Candidate),
}

impl SchedulerView {
    /// A scheduler nobody has used.
    pub open spec fn fresh(limits: OutboundLimits, aging: AgingPolicy) -> SchedulerView {
        SchedulerView {
            jobs: Map::empty(),
            candidates: Multiset::empty(),
            blocked: Multiset::empty(),
            aging_events: Multiset::empty(),
            reservations: Seq::empty(),
            delayed: Multiset::empty(),
            lanes: Map::empty(),
            coalesce: Map::empty(),
            global_windows: window::fresh_all(limits.global@),
            chat_window_sets: Map::empty(),
            penalties: Map::empty(),
            in_flight: Map::empty(),
            stale_candidates: 0,
            stale_delayed: 0,
            next_sequence: 0,
            next_job_id: 0,
            aging,
            chat_limits: limits.chat@,
            global_limits: limits.global@,
        }
    }

    // ---------- candidates ----------

    /// Notes the moment at which the candidate's effective priority rises
    /// above `keyed`, unless it is already at the highest level. A moment
    /// that cannot be represented never comes.
    pub open spec fn schedule_aging(
        self,
        reference: CandidateRef,
        keyed: u8,
        base: u8,
        ready_at: Instant,
    ) -> SchedulerView {
        let at = ready_at.nanos + (keyed + 1 - base) * entries::quantum_nanos(self.aging);
        if keyed >= HIGHEST_LEVEL || keyed < base || at > u64::MAX {
            self
        } else {
            SchedulerView {
                aging_events: self.aging_events.insert(
                    AgingEvent { at: Instant { nanos: at as u64 }, reference },
                ),
                ..self
            }
        }
    }

    /// Adds the entry of `reference` at the effective priority its job has at
    /// `now`.
    pub open spec fn push_key(self, reference: CandidateRef, job: Job, now: Instant) -> SchedulerView {
        let level = entries::effective(job, self.aging, now);
        SchedulerView {
            candidates: self.candidates.insert(
                CandidateKey { effective: level, sequence: job.sequence, reference },
            ),
            ..self
        }.schedule_aging(reference, level, job.meta.priority.value, job.ready_at)
    }

    /// Makes a waiting job a candidate.
    pub open spec fn push_job_candidate(self, id: JobId, now: Instant) -> SchedulerView {
        if !self.jobs.contains_key(id.value) {
            self
        } else {
            let job = self.jobs[id.value];
            SchedulerView {
                jobs: self.jobs.insert(
                    id.value,
                    Job {
                        in_candidate_heap: true,
                        candidate_effective: entries::effective(job, self.aging, now),
                        ..job
                    },
                ),
                ..self
            }.push_key(CandidateRef::Job(id), job, now)
        }
    }

    /// Makes the head of a free lane a candidate, unless it is already one or
    /// still delayed. A lane left without waiting jobs is removed.
    pub open spec fn push_lane_head_candidate(
        self,
        key: OutboundLaneKey,
        now: Instant,
    ) -> SchedulerView {
        if !self.lanes.contains_key(key.value) || self.lanes[key.value].in_flight is Some {
            self
        } else {
            let drained = self.lanes[key.value].drained(self.jobs);
            if drained.pending.len() == 0 {
                SchedulerView { lanes: self.lanes.remove(key.value), ..self }
            } else {
                let job = self.jobs[drained.pending[0].1.value];
                if entries::delayed_at(job, now) || drained.in_candidate_heap {
                    SchedulerView { lanes: self.lanes.insert(key.value, drained), ..self }
                } else {
                    SchedulerView {
                        lanes: self.lanes.insert(
                            key.value,
                            LaneView {
                                in_candidate_heap: true,
                                candidate_effective: entries::effective(job, self.aging, now),
                                ..drained
                            },
                        ),
                        ..self
                    }.push_key(CandidateRef::Lane(key), job, now)
                }
            }
        }
    }

    pub open spec fn push_reference(self, reference: CandidateRef, now: Instant) -> SchedulerView {
        match reference {
            CandidateRef::Job(id) => self.push_job_candidate(id, now),
            CandidateRef::Lane(key) => self.push_lane_head_candidate(key, now),
        }
    }

    /// The reference that stands for a waiting job.
    pub open spec fn reference_of(self, id: JobId) -> CandidateRef {
        if self.jobs.contains_key(id.value) {
            match self.jobs[id.value].meta.lane {
                Some(key) => CandidateRef::Lane(key),
                None => CandidateRef::Job(id),
            }
        } else {
            CandidateRef::Job(id)
        }
    }

    // ---------- removal ----------

    /// Frees a latest-wins slot if `id` is its pending job.
    pub open spec fn remove_coalesce_entry(
        self,
        id: JobId,
        slot: Option<CoalesceKey>,
    ) -> SchedulerView {
        match slot {
            Some(key) => if self.coalesce.contains_key(key) && self.coalesce[key] == id {
                SchedulerView { coalesce: self.coalesce.remove(key), ..self }
            } else {
                self
            },
            None => self,
        }
    }

    /// Forgets a job that has not been granted. Its entries in the queues
    /// stay behind and are counted as stale.
    pub open spec fn remove_waiting(self, id: JobId) -> SchedulerView {
        if !self.jobs.contains_key(id.value) {
            self
        } else {
            let job = self.jobs[id.value];
            let delayed = job.not_before is Some;
            SchedulerView {
                jobs: self.jobs.remove(id.value),
                stale_delayed: if delayed {
                    one_more(self.stale_delayed)
                } else {
                    self.stale_delayed
                },
                lanes: match job.meta.lane {
                    Some(key) => if self.lanes.contains_key(key.value) {
                        self.lanes.insert(
                            key.value,
                            LaneView {
                                stale: one_more(self.lanes[key.value].stale),
                                ..self.lanes[key.value]
                            },
                        )
                    } else {
                        self.lanes
                    },
                    None => self.lanes,
                },
                stale_candidates: if job.meta.lane is None && !delayed {
                    one_more(self.stale_candidates)
                } else {
                    self.stale_candidates
                },
                ..self
            }.remove_coalesce_entry(id, job.coalesce_key)
        }
    }

    /// Drops dead entries of the delayed queue once they dominate it.
    pub open spec fn compact_delayed(self) -> SchedulerView {
        if self.stale_delayed * 2 <= self.delayed.len() {
            self
        } else {
            SchedulerView {
                delayed: self.delayed.filter(
                    |entry: DelayedJob| self.jobs.contains_key(entry.job.value),
                ),
                stale_delayed: 0,
                ..self
            }
        }
    }

    /// Drops dead candidate entries once they dominate.
    pub open spec fn compact_candidates(self) -> SchedulerView {
        if self.stale_candidates * 2 <= self.candidates.len() {
            self
        } else {
            SchedulerView {
                candidates: self.candidates.filter(
                    |key: CandidateKey| reference_alive(key.reference, self.jobs, self.lanes),
                ),
                stale_candidates: 0,
                ..self
            }
        }
    }

    /// Drops dead lane entries where they dominate a lane.
    pub open spec fn compact_lanes(self) -> SchedulerView {
        SchedulerView {
            lanes: self.lanes.map_values(|l: LaneView| l.compacted(self.jobs)),
            ..self
        }
    }

    /// The state without a job that has not been granted.
    pub open spec fn without(self, id: JobId) -> SchedulerView {
        self.remove_waiting(id).compact_delayed()
    }

    /// Ends the holds that `owner` asked for.
    pub open spec fn release_holds(self, owner: CandidateRef, now: Instant) -> SchedulerView {
        SchedulerView {
            reservations: Seq::new(
                self.reservations.len(),
                |i: int|
                    if self.reservations[i].owner == owner && self.reservations[i].until.nanos
                        > now.nanos {
                        ReservationView { until: now, ..self.reservations[i] }
                    } else {
                        self.reservations[i]
                    },
            ),
            ..self
        }
    }

    /// Cancels a job and wakes what waited behind it: the holds it asked for
    /// end, and the next job of its lane becomes a candidate.
    pub open spec fn cancel_at(self, id: JobId, now: Instant) -> SchedulerView {
        if !self.jobs.contains_key(id.value) {
            self.without(id)
        } else {
            let reference = self.reference_of(id);
            let after = self.without(id).release_holds(reference, now);
            match reference {
                CandidateRef::Job(_) => after,
                CandidateRef::Lane(key) => after.push_lane_head_candidate(key, now),
            }
        }
    }

    /// Whether a candidate that failed admission waits for a deadline. An
    /// entry at moment zero only has its lane looked at in the next pass.
    pub open spec fn waits_for_deadline(self, reference: CandidateRef) -> bool {
        &&& exists|e: BlockedJob| #[trigger]
            self.blocked.contains(e) && e.reference == reference && e.until.nanos > 0
        &&& reference_alive(reference, self.jobs, self.lanes)
        &&& match reference {
            CandidateRef::Job(job) => !self.jobs[job.value].in_candidate_heap,
            CandidateRef::Lane(key) => !self.lanes[key.value].in_candidate_heap
                && self.lanes[key.value].in_flight is None,
        }
    }

    /// The jobs outside lanes that wait for a deadline.
    pub open spec fn blocked_jobs(self) -> Set<u64> {
        self.jobs.dom().filter(
            |id: u64| self.waits_for_deadline(CandidateRef::Job(JobId { value: id })),
        )
    }

    /// The lanes that wait for a deadline.
    pub open spec fn blocked_lanes(self) -> Set<u64> {
        self.lanes.dom().filter(
            |key: u64| self.waits_for_deadline(CandidateRef::Lane(OutboundLaneKey { value: key })),
        )
    }

    /// The number of candidates that failed admission and wait for a
    /// deadline: each job and each lane counts once.
    pub open spec fn blocked_candidates(self) -> nat {
        self.blocked_jobs().len() + self.blocked_lanes().len()
    }

    /// The jobs that wait for their moment.
    pub open spec fn delayed_jobs(self) -> Set<u64> {
        self.jobs.dom().filter(|id: u64| self.jobs[id].not_before is Some)
    }

    /// Has a free lane looked at in the next pass, unless it has a candidate
    /// entry. One without a waiting job loses its mark.
    pub open spec fn rouse_lane(self, key: OutboundLaneKey) -> SchedulerView {
        if !self.lanes.contains_key(key.value) || self.lanes[key.value].in_flight is Some {
            self
        } else {
            let l = self.lanes[key.value];
            let roused = self.blocked.insert(
                BlockedJob {
                    until: Instant { nanos: 0 },
                    reference: CandidateRef::Lane(key),
                },
            );
            if !lane::has_live(l.pending, self.jobs) {
                SchedulerView {
                    lanes: self.lanes.insert(
                        key.value,
                        LaneView { in_candidate_heap: false, candidate_effective: 0, ..l },
                    ),
                    blocked: roused,
                    ..self
                }
            } else if l.in_candidate_heap {
                self
            } else {
                SchedulerView { blocked: roused, ..self }
            }
        }
    }

    /// Cancels a job that has not been granted: the holds it asked for end
    /// at once, and the next job of its lane comes up in the next pass.
    pub open spec fn cancel(self, id: JobId) -> SchedulerView {
        if !self.jobs.contains_key(id.value) {
            self.without(id)
        } else {
            let reference = self.reference_of(id);
            let after = self.without(id).release_holds(reference, Instant { nanos: 0 });
            match reference {
                CandidateRef::Job(_) => after,
                CandidateRef::Lane(key) => after.rouse_lane(key),
            }
        }
    }

    // ---------- sequences ----------

    /// Lanes with a candidate entry, once the entries are rebuilt: dead heads
    /// are dropped, and a lane without a waiting job loses its entry, or goes
    /// away if nothing of it is in flight.
    pub open spec fn rebased_lanes(self) -> Map<u64, LaneView> {
        Map::new(
            |key: u64| self.lanes.contains_key(key) && !self.lane_vanishes(key),
            |key: u64| self.rebased_lane(key),
        )
    }

    pub open spec fn is_referenced(self, key: u64) -> bool {
        exists|entry: CandidateKey| #[trigger]
            self.candidates.contains(entry) && entry.reference == CandidateRef::Lane(
                OutboundLaneKey { value: key },
            )
    }

    pub open spec fn lane_vanishes(self, key: u64) -> bool {
        &&& self.is_referenced(key)
        &&& !lane::has_live(self.lanes[key].pending, self.jobs)
        &&& self.lanes[key].in_flight is None
    }

    pub open spec fn rebased_lane(self, key: u64) -> LaneView {
        if !self.is_referenced(key) {
            self.lanes[key]
        } else if lane::has_live(self.lanes[key].pending, self.jobs) {
            self.lanes[key].drained(self.jobs)
        } else {
            LaneView {
                in_candidate_heap: false,
                candidate_effective: 0,
                ..self.lanes[key].drained(self.jobs)
            }
        }
    }

    /// Renumbers every sequence so that the counter can go on.
    pub open spec fn rebase_sequences(self) -> SchedulerView {
        if self.jobs.dom().len() == 0 {
            SchedulerView { next_sequence: 0, ..self }
        } else {
            let least = least_sequence(self.jobs);
            if least == 0 {
                let jobs = ranked_jobs(self.jobs);
                SchedulerView {
                    jobs,
                    delayed: image(
                        self.delayed.filter(
                            |entry: DelayedJob| self.jobs.contains_key(entry.job.value),
                        ),
                        |entry: DelayedJob| rekeyed_delayed(entry, jobs),
                    ),
                    stale_delayed: 0,
                    candidates: image(
                        self.candidates.filter(
                            |key: CandidateKey|
                                reference_alive(key.reference, self.jobs, self.lanes),
                        ),
                        |key: CandidateKey| rekeyed_candidate(key, jobs, self.lanes),
                    ),
                    lanes: self.rebased_lanes(),
                    next_sequence: self.jobs.dom().len() as u64,
                    ..self
                }
            } else {
                SchedulerView {
                    jobs: self.jobs.map_values(
                        |job: Job| Job { sequence: shifted(job.sequence, least), ..job },
                    ),
                    delayed: image(
                        self.delayed,
                        |entry: DelayedJob|
                            DelayedJob { sequence: shifted(entry.sequence, least), ..entry },
                    ),
                    candidates: image(
                        self.candidates,
                        |key: CandidateKey|
                            CandidateKey { sequence: shifted(key.sequence, least), ..key },
                    ),
                    next_sequence: (greatest_sequence(self.jobs) - least + 1) as u64,
                    ..self
                }
            }
        }
    }

    /// Readies the counter: before it wraps, every sequence is renumbered.
    pub open spec fn ready_sequence(self) -> SchedulerView {
        if self.next_sequence == u64::MAX {
            self.rebase_sequences()
        } else {
            self
        }
    }

    /// Issues the next sequence number.
    pub open spec fn take_sequence(self) -> SchedulerView {
        let ready = self.ready_sequence();
        SchedulerView {
            next_sequence: if ready.next_sequence == u64::MAX {
                0
            } else {
                (ready.next_sequence + 1) as u64
            },
            ..ready
        }
    }

    // ---------- enqueue ----------

    /// The latest-wins slot of a request.
    pub open spec fn slot_of(meta: OutboundMeta, mode: OutboundEnqueueMode) -> Option<CoalesceKey> {
        match mode {
            OutboundEnqueueMode::Fifo => None,
            OutboundEnqueueMode::ReplacePending { user_key } => Some(
                CoalesceKey { scope: meta.scope, lane: meta.lane, class: meta.class, user_key },
            ),
        }
    }

    /// The waiting job that a request replaces.
    pub open spec fn replaced_by(self, meta: OutboundMeta, mode: OutboundEnqueueMode) -> Option<
        JobId,
    > {
        match SchedulerView::slot_of(meta, mode) {
            Some(key) => if self.coalesce.contains_key(key) && self.jobs.contains_key(
                self.coalesce[key].value,
            ) {
                Some(self.coalesce[key])
            } else {
                None
            },
            None => None,
        }
    }

    /// Why a request is refused.
    pub open spec fn refusal(self, meta: OutboundMeta, mode: OutboundEnqueueMode) -> Option<
        EnqueueError,
    > {
        let small = match too_small(self.global_limits, meta.weight@) {
            Some(capacity) => Some(capacity),
            None => too_small_in_chat(self.chat_limits, meta.scope, meta.weight@),
        };
        match small {
            Some(capacity) => Some(
                EnqueueError::WeightExceedsWindow {
                    scope: meta.scope,
                    weight: meta.weight,
                    capacity,
                },
            ),
            None => match self.replaced_by(meta, mode) {
                Some(old) => if self.jobs[old.value].meta.weight != meta.weight {
                    Some(EnqueueError::IncompatibleCoalesceMetadata)
                } else {
                    None
                },
                None => None,
            },
        }
    }

    /// The record of a new job. It inherits the place of the job it replaces,
    /// and its age if both are ready.
    pub open spec fn new_job(
        self,
        meta: OutboundMeta,
        mode: OutboundEnqueueMode,
        not_before: Option<Instant>,
        now: Instant,
    ) -> Job {
        let slot = SchedulerView::slot_of(meta, mode);
        match self.replaced_by(meta, mode) {
            Some(old) => {
                let held = self.jobs[old.value];
                Job {
                    meta,
                    sequence: held.sequence,
                    ready_at: if not_before is None && held.not_before is None {
                        held.ready_at
                    } else {
                        now
                    },
                    not_before,
                    coalesce_key: slot,
                    lane_order: if meta.lane is Some {
                        held.lane_order
                    } else {
                        None
                    },
                    in_candidate_heap: false,
                    candidate_effective: 0,
                }
            },
            None => Job {
                meta,
                sequence: self.ready_sequence().next_sequence,
                ready_at: now,
                not_before,
                coalesce_key: slot,
                lane_order: None,
                in_candidate_heap: false,
                candidate_effective: 0,
            },
        }
    }

    /// The lane of `key`, as far as it has been used.
    pub open spec fn lane_or_empty(self, key: u64) -> LaneView {
        if self.lanes.contains_key(key) {
            self.lanes[key]
        } else {
            LaneView::empty()
        }
    }

    /// Whether the order counter of a lane has to start over.
    pub open spec fn lane_wraps(self, key: u64) -> bool {
        self.lane_or_empty(key).next_order == 0 && self.lane_or_empty(key).pending.len() > 0
    }

    /// Readies the order counter of a lane: before it starts over, the
    /// waiting entries are numbered from zero.
    pub open spec fn ready_lane(self, key: u64) -> SchedulerView {
        let l = self.lane_or_empty(key);
        if self.lane_wraps(key) {
            SchedulerView {
                jobs: renumber_jobs(self.jobs, l.pending),
                lanes: self.lanes.insert(
                    key,
                    LaneView {
                        pending: lane::renumbered(l.pending),
                        next_order: l.pending.len() as u64,
                        ..l
                    },
                ),
                ..self
            }
        } else {
            SchedulerView { lanes: self.lanes.insert(key, l), ..self }
        }
    }

    /// The place a new lane entry gets.
    pub open spec fn lane_order_for(self, key: u64, inherited: Option<u64>) -> u64 {
        match inherited {
            Some(order) => order,
            None => self.ready_lane(key).lanes[key].next_order,
        }
    }

    /// Puts a job into its lane: at an inherited place, or at the end.
    pub open spec fn insert_lane_pending(
        self,
        key: u64,
        id: JobId,
        inherited: Option<u64>,
    ) -> SchedulerView {
        match inherited {
            Some(order) => {
                let l = self.lane_or_empty(key);
                SchedulerView {
                    lanes: self.lanes.insert(
                        key,
                        LaneView { pending: lane::insert_sorted(l.pending, (order, id)), ..l },
                    ),
                    ..self
                }
            },
            None => {
                let ready = self.ready_lane(key);
                let l = ready.lanes[key];
                SchedulerView {
                    lanes: ready.lanes.insert(
                        key,
                        LaneView {
                            pending: lane::insert_sorted(l.pending, (l.next_order, id)),
                            next_order: if l.next_order == u64::MAX {
                                0
                            } else {
                                (l.next_order + 1) as u64
                            },
                            ..l
                        },
                    ),
                    ..ready
                }
            },
        }
    }

    /// Puts a new job into its lane and makes the lane's head a candidate. If
    /// the replaced job was the head, its candidate entry no longer counts.
    pub open spec fn enter_lane(
        self,
        key: OutboundLaneKey,
        id: JobId,
        inherited: Option<u64>,
        old: Option<JobId>,
        now: Instant,
    ) -> SchedulerView {
        let order = self.lane_order_for(key.value, inherited);
        let placed = self.insert_lane_pending(key.value, id, inherited);
        let known = SchedulerView {
            jobs: placed.jobs.insert(
                id.value,
                Job { lane_order: Some(order), ..placed.jobs[id.value] },
            ),
            ..placed
        };
        let l = known.lanes[key.value];
        let cleared = if old is Some && l.pending[0].1 == old->0 {
            SchedulerView {
                lanes: known.lanes.insert(
                    key.value,
                    LaneView { in_candidate_heap: false, candidate_effective: 0, ..l },
                ),
                ..known
            }
        } else {
            known
        };
        cleared.push_lane_head_candidate(key, now)
    }

    /// The state in which a new job gets its record: the replaced job is
    /// gone, or a sequence number has been issued.
    pub open spec fn before_insert(self, meta: OutboundMeta, mode: OutboundEnqueueMode) -> SchedulerView {
        match self.replaced_by(meta, mode) {
            Some(old) => self.remove_waiting(old),
            None => self.take_sequence(),
        }
    }

    /// Takes in a request that is not refused.
    pub open spec fn accept(
        self,
        meta: OutboundMeta,
        mode: OutboundEnqueueMode,
        not_before: Option<Instant>,
        now: Instant,
    ) -> SchedulerView {
        let old = self.replaced_by(meta, mode);
        let ready = self.before_insert(meta, mode);
        let id = JobId { value: ready.next_job_id };
        let job = self.new_job(meta, mode, not_before, now);
        let recorded = SchedulerView {
            jobs: ready.jobs.insert(id.value, job),
            next_job_id: (ready.next_job_id + 1) as u64,
            delayed: match not_before {
                Some(until) => ready.delayed.insert(
                    DelayedJob { not_before: until, sequence: job.sequence, job: id },
                ),
                None => ready.delayed,
            },
            ..ready
        };
        let queued = match meta.lane {
            Some(key) => recorded.enter_lane(key, id, job.lane_order, old, now),
            None => if not_before is None {
                recorded.push_job_candidate(id, now)
            } else {
                recorded
            },
        };
        let slotted = match SchedulerView::slot_of(meta, mode) {
            Some(key) => SchedulerView { coalesce: queued.coalesce.insert(key, id), ..queued },
            None => queued,
        };
        slotted.compact_delayed().compact_candidates()
    }

    pub open spec fn enqueue(
        self,
        meta: OutboundMeta,
        mode: OutboundEnqueueMode,
        not_before: Option<Instant>,
        now: Instant,
    ) -> SchedulerView {
        match self.refusal(meta, mode) {
            Some(_) => self,
            None => self.accept(meta, mode, not_before, now),
        }
    }

    /// What a request is told.
    pub open spec fn enqueue_result(self, meta: OutboundMeta, mode: OutboundEnqueueMode) -> Result<
        EnqueueOutcome,
        EnqueueError,
    > {
        match self.refusal(meta, mode) {
            Some(error) => Err(error),
            None => Ok(
                EnqueueOutcome {
                    job: JobId { value: self.next_job_id },
                    superseded: self.replaced_by(meta, mode),
                },
            ),
        }
    }

    // ---------- wake-ups ----------

    /// Deals with one aging moment that has come: the candidate gets a
    /// fresher entry if its effective priority has risen.
    pub open spec fn aging_step(self, reference: CandidateRef, now: Instant) -> SchedulerView {
        match reference {
            CandidateRef::Job(id) => {
                if !self.jobs.contains_key(id.value) || !self.jobs[id.value].in_candidate_heap {
                    self
                } else {
                    let job = self.jobs[id.value];
                    let level = entries::effective(job, self.aging, now);
                    if level <= job.candidate_effective {
                        self
                    } else {
                        SchedulerView {
                            jobs: self.jobs.insert(
                                id.value,
                                Job { candidate_effective: level, ..job },
                            ),
                            ..self
                        }.push_key(reference, job, now)
                    }
                }
            },
            CandidateRef::Lane(key) => {
                if !self.lanes.contains_key(key.value)
                    || !self.lanes[key.value].in_candidate_heap
                    || self.lanes[key.value].pending.len() == 0 || !self.jobs.contains_key(
                    self.lanes[key.value].pending[0].1.value,
                ) || entries::delayed_at(
                    self.jobs[self.lanes[key.value].pending[0].1.value],
                    now,
                ) {
                    self
                } else {
                    let l = self.lanes[key.value];
                    let job = self.jobs[l.pending[0].1.value];
                    let level = entries::effective(job, self.aging, now);
                    if level <= l.candidate_effective {
                        self.schedule_aging(
                            reference,
                            level,
                            job.meta.priority.value,
                            job.ready_at,
                        )
                    } else {
                        SchedulerView {
                            lanes: self.lanes.insert(
                                key.value,
                                LaneView { candidate_effective: level, ..l },
                            ),
                            ..self
                        }.push_key(reference, job, now)
                    }
                }
            },
        }
    }

    /// Deals with aging moments in order.
    pub open spec fn aging_steps(self, due: Seq<AgingEvent>, now: Instant) -> SchedulerView
        decreases due.len(),
    {
        if due.len() == 0 {
            self
        } else {
            self.aging_steps(due.drop_last(), now).aging_step(due.last().reference, now)
        }
    }

    /// Deals with every aging moment that has come by `now`.
    pub open spec fn promote_aging(self, now: Instant) -> SchedulerView {
        SchedulerView {
            aging_events: later_events(self.aging_events, now),
            ..self
        }.aging_steps(due_events(self.aging_events, now), now)
    }

    /// Deals with one delay deadline that has come.
    pub open spec fn delayed_step(self, entry: DelayedJob, now: Instant) -> SchedulerView {
        if !self.jobs.contains_key(entry.job.value) {
            SchedulerView { stale_delayed: lane::less(self.stale_delayed, 1), ..self }
        } else {
            let job = self.jobs[entry.job.value];
            let ready = SchedulerView {
                jobs: self.jobs.insert(
                    entry.job.value,
                    Job { ready_at: now, not_before: None, ..job },
                ),
                ..self
            };
            match job.meta.lane {
                Some(key) => ready.push_lane_head_candidate(key, now),
                None => ready.push_job_candidate(entry.job, now),
            }
        }
    }

    /// Readies every job whose delay deadline has come by `now`.
    pub open spec fn promote_delayed(self, now: Instant) -> SchedulerView
        decreases self.delayed.len(),
    {
        if self.delayed.len() == 0 || heap::first_of(self.delayed).not_before.nanos > now.nanos {
            self
        } else {
            let entry = heap::first_of(self.delayed);
            let rest = SchedulerView { delayed: self.delayed.remove(entry), ..self };
            proof {
                rest.lemma_steps_keep_queues(entry, now);
                heap::lemma_first_exists(self.delayed);
                lemma_remove_shrinks(self.delayed, entry);
            }
            rest.delayed_step(entry, now).promote_delayed(now)
        }
    }

    /// Wakes one candidate that failed admission.
    pub open spec fn blocked_step(self, reference: CandidateRef, now: Instant) -> SchedulerView {
        match reference {
            CandidateRef::Job(id) => if self.jobs.contains_key(id.value)
                && self.jobs[id.value].not_before is None {
                self.push_job_candidate(id, now)
            } else {
                self
            },
            CandidateRef::Lane(key) => self.push_lane_head_candidate(key, now),
        }
    }

    /// Wakes every candidate blocked until `bound` or earlier.
    pub open spec fn wake_blocked(self, bound: Instant, now: Instant) -> SchedulerView
        decreases self.blocked.len(),
    {
        if self.blocked.len() == 0 || heap::first_of(self.blocked).until.nanos > bound.nanos {
            self
        } else {
            let entry = heap::first_of(self.blocked);
            let rest = SchedulerView { blocked: self.blocked.remove(entry), ..self };
            proof {
                rest.lemma_blocked_step_keeps_queues(entry.reference, now);
                heap::lemma_first_exists(self.blocked);
                lemma_remove_shrinks(self.blocked, entry);
            }
            rest.blocked_step(entry.reference, now).wake_blocked(bound, now)
        }
    }

    /// Serves the queue of one hold: dead parked references are dropped, the
    /// foremost live one is woken, and a hold nobody waits for goes away.
    pub open spec fn wake_at(self, at: int, now: Instant) -> SchedulerView {
        let r = self.reservations[at];
        let queue = live_queue(r.queue, self.jobs, self.lanes);
        if queue.len() == 0 {
            SchedulerView { reservations: self.reservations.remove(at), ..self }
        } else {
            SchedulerView {
                reservations: self.reservations.update(
                    at,
                    ReservationView { queue: queue.drop_first(), ..r },
                ),
                ..self
            }.push_reference(queue[0], now)
        }
    }

    /// Deals with one hold that has ended.
    pub open spec fn reservation_step(self, scope: OutboundScope, now: Instant) -> SchedulerView {
        let at = find(self.reservations, scope);
        if at >= self.reservations.len() {
            self
        } else {
            self.wake_at(at as int, now)
        }
    }

    pub open spec fn reservation_steps(self, windows: Seq<OutboundScope>, now: Instant) -> SchedulerView
        decreases windows.len(),
    {
        if windows.len() == 0 {
            self
        } else {
            self.reservation_steps(windows.drop_last(), now).reservation_step(windows.last(), now)
        }
    }

    /// Deals with every hold that has ended by `now`.
    pub open spec fn promote_reservations(self, now: Instant) -> SchedulerView {
        self.reservation_steps(expired_windows(self.reservations, now), now)
    }

    /// Everything that happens because time has passed, before candidates
    /// are looked at.
    pub open spec fn promote(self, now: Instant) -> SchedulerView {
        self.promote_aging(now).promote_delayed(now).wake_blocked(now, now).promote_reservations(
            now,
        ).compact_lanes()
    }

    // ---------- picking a candidate ----------

    /// One look at the foremost candidate entry: what it is, and the state
    /// after it.
    pub open spec fn pop_step(self, now: Instant) -> (SchedulerView, PopStep) {
        if self.candidates.len() == 0 {
            (self, PopStep::Empty)
        } else {
            let key = heap::first_of(self.candidates);
            let rest = SchedulerView { candidates: self.candidates.remove(key), ..self };
            match key.reference {
                CandidateRef::Job(id) => rest.pop_job(key, id),
                CandidateRef::Lane(lane_key) => rest.pop_lane(key, lane_key, now),
            }
        }
    }

    pub open spec fn pop_job(self, key: CandidateKey, id: JobId) -> (SchedulerView, PopStep) {
        if !self.jobs.contains_key(id.value) || key.effective
            < self.jobs[id.value].candidate_effective {
            (
                SchedulerView { stale_candidates: one_more(self.stale_candidates), ..self },
                PopStep::Again,
            )
        } else {
            let job = self.jobs[id.value];
            (
                SchedulerView {
                    jobs: self.jobs.insert(id.value, Job { in_candidate_heap: false, ..job }),
                    ..self
                },
                PopStep::Found(
                    Candidate {
                        job: id,
                        sequence: job.sequence,
                        effective: job.candidate_effective,
                        weight: job.meta.weight,
                        scope: job.meta.scope,
                    },
                ),
            )
        }
    }

    pub open spec fn pop_lane(
        self,
        key: CandidateKey,
        lane_key: OutboundLaneKey,
        now: Instant,
    ) -> (SchedulerView, PopStep) {
        if !self.lanes.contains_key(lane_key.value) || key.effective
            < self.lanes[lane_key.value].candidate_effective {
            (
                SchedulerView { stale_candidates: one_more(self.stale_candidates), ..self },
                PopStep::Again,
            )
        } else {
            let taken = LaneView { in_candidate_heap: false, ..self.lanes[lane_key.value] };
            if taken.in_flight is Some {
                (
                    SchedulerView { lanes: self.lanes.insert(lane_key.value, taken), ..self },
                    PopStep::Again,
                )
            } else {
                let drained = taken.drained(self.jobs);
                if drained.pending.len() == 0 {
                    (
                        SchedulerView { lanes: self.lanes.remove(lane_key.value), ..self },
                        PopStep::Again,
                    )
                } else {
                    let head = drained.pending[0].1;
                    let job = self.jobs[head.value];
                    let level = entries::effective(job, self.aging, now);
                    let after = SchedulerView {
                        lanes: self.lanes.insert(lane_key.value, drained),
                        ..self
                    };
                    if entries::delayed_at(job, now) {
                        (after, PopStep::Again)
                    } else if level != key.effective || job.sequence != key.sequence {
                        (after.push_lane_head_candidate(lane_key, now), PopStep::Again)
                    } else {
                        (
                            after,
                            PopStep::Found(
                                Candidate {
                                    job: head,
                                    sequence: job.sequence,
                                    effective: level,
                                    weight: job.meta.weight,
                                    scope: job.meta.scope,
                                },
                            ),
                        )
                    }
                }
            }
        }
    }

    /// Whether a candidate entry is that of a lane whose head it no longer
    /// describes.
    pub open spec fn out_of_place(self, key: CandidateKey, now: Instant) -> bool {
        match key.reference {
            CandidateRef::Job(_) => false,
            CandidateRef::Lane(lane_key) => {
                &&& self.lanes.contains_key(lane_key.value)
                &&& self.lanes[lane_key.value].in_flight is None
                &&& {
                    let pending = lane::drop_dead(
                        self.lanes[lane_key.value].pending,
                        self.jobs,
                    );
                    &&& pending.len() > 0
                    &&& {
                        let job = self.jobs[pending[0].1.value];
                        &&& !entries::delayed_at(job, now)
                        &&& (entries::effective(job, self.aging, now) != key.effective
                            || job.sequence != key.sequence)
                    }
                }
            },
        }
    }

    /// The number of candidate entries that are out of place.
    pub open spec fn disorder(self, now: Instant) -> nat {
        self.candidates.filter(|key: CandidateKey| self.out_of_place(key, now)).len()
    }

    /// The best live candidate, and the state after it has been taken out.
    pub open spec fn pop_candidate(self, now: Instant) -> (SchedulerView, Option<Candidate>)
        decreases self.disorder(now), self.candidates.len(),
    {
        let (after, step) = self.pop_step(now);
        match step {
            PopStep::Empty => (after, None),
            PopStep::Found(candidate) => (after, Some(candidate)),
            PopStep::Again => {
                proof {
                    self.lemma_pop_step_decreases(now);
                }
                after.pop_candidate(now)
            },
        }
    }

    // ---------- admission ----------

    /// Whether a window is held back at `now`.
    pub open spec fn reservation_active(self, scope: OutboundScope, now: Instant) -> bool {
        let at = find(self.reservations, scope);
        at < self.reservations.len() && self.reservations[at as int].until.nanos > now.nanos
    }

    /// Whether a scope is penalized at `now`.
    pub open spec fn penalty_active(self, scope: OutboundScope, now: Instant) -> bool {
        self.penalties.contains_key(scope) && self.penalties[scope].nanos > now.nanos
    }

    /// The end of a penalty, or `now` if there is none.
    pub open spec fn penalty_end(self, scope: OutboundScope, now: Instant) -> Instant {
        if self.penalty_active(scope, now) {
            self.penalties[scope]
        } else {
            now
        }
    }

    /// The windows of a chat, as far as it has been used.
    pub open spec fn chat_windows(self, chat: OutboundChatKey) -> Seq<WindowView> {
        if self.chat_window_sets.contains_key(chat.value) {
            self.chat_window_sets[chat.value]
        } else {
            window::fresh_all(window::applicable(self.chat_limits, chat.value))
        }
    }

    /// The moment a window set has room, not before `now`.
    pub open spec fn room_at(windows: Seq<WindowView>, now: Instant, weight: u32) -> Instant {
        if window::all_fit(windows, weight) {
            now
        } else {
            match window::earliest_for_all(windows, now, weight) {
                Some(at) => now.later(at),
                None => now,
            }
        }
    }

    /// The state after the admission check: windows have been pruned.
    pub open spec fn after_admission(self, candidate: Candidate, now: Instant) -> SchedulerView {
        if self.reservation_active(OutboundScope::Global, now) {
            self
        } else {
            let pruned = SchedulerView {
                global_windows: window::prune_all(self.global_windows, now),
                ..self
            };
            match candidate.scope {
                OutboundScope::Global => pruned,
                OutboundScope::Chat(chat) => if self.reservation_active(candidate.scope, now) {
                    pruned
                } else {
                    SchedulerView {
                        chat_window_sets: self.chat_window_sets.insert(
                            chat.value,
                            window::prune_all(self.chat_windows(chat), now),
                        ),
                        ..pruned
                    }
                },
            }
        }
    }

    /// Whether a window that the candidate consumes is held back.
    pub open spec fn held_back(self, scope: OutboundScope, now: Instant) -> bool {
        self.reservation_active(OutboundScope::Global, now) || self.reservation_active(scope, now)
    }

    /// Whether the candidate's chat has room.
    pub open spec fn chat_has_room(self, candidate: Candidate, now: Instant) -> bool {
        match candidate.scope {
            OutboundScope::Global => true,
            OutboundScope::Chat(chat) => window::all_fit(
                window::prune_all(self.chat_windows(chat), now),
                candidate.weight@,
            ),
        }
    }

    /// Whether the global windows have room for the candidate.
    pub open spec fn globally_has_room(self, candidate: Candidate, now: Instant) -> bool {
        window::all_fit(window::prune_all(self.global_windows, now), candidate.weight@)
    }

    /// The moment until which a candidate that does not pass has to wait.
    pub open spec fn blocked_until(self, candidate: Candidate, now: Instant) -> Instant {
        let global = self.penalty_end(OutboundScope::Global, now).later(
            SchedulerView::room_at(
                window::prune_all(self.global_windows, now),
                now,
                candidate.weight@,
            ),
        );
        match candidate.scope {
            OutboundScope::Global => global,
            OutboundScope::Chat(chat) => global.later(
                self.penalty_end(candidate.scope, now),
            ).later(
                SchedulerView::room_at(
                    window::prune_all(self.chat_windows(chat), now),
                    now,
                    candidate.weight@,
                ),
            ),
        }
    }

    /// The verdict of the admission check: a candidate passes if no window it
    /// consumes is held back, no penalty on its scope is active, and every
    /// window has room.
    pub open spec fn admission(self, candidate: Candidate, now: Instant) -> Admission {
        if self.held_back(candidate.scope, now) {
            Admission::Reserved
        } else if !self.penalty_active(OutboundScope::Global, now) && !self.penalty_active(
            candidate.scope,
            now,
        ) && self.globally_has_room(candidate, now) && self.chat_has_room(candidate, now) {
            Admission::Pass
        } else {
            Admission::Blocked {
                until: self.blocked_until(candidate, now),
                reserve: if !self.globally_has_room(candidate, now) {
                    Some(OutboundScope::Global)
                } else if !self.chat_has_room(candidate, now) {
                    Some(candidate.scope)
                } else {
                    None
                },
            }
        }
    }

    // ---------- granting ----------

    /// Grants a candidate that passed: its job leaves the queue, its lane is
    /// taken, and its weight is debited.
    pub open spec fn grant(self, candidate: Candidate, now: Instant) -> SchedulerView {
        let job = self.jobs[candidate.job.value];
        let weight = job.meta.weight@;
        SchedulerView {
            jobs: self.jobs.remove(candidate.job.value),
            lanes: match job.meta.lane {
                Some(key) => if self.lanes.contains_key(key.value) {
                    let l = self.lanes[key.value];
                    self.lanes.insert(
                        key.value,
                        LaneView {
                            pending: if l.pending.len() > 0 {
                                l.pending.drop_first()
                            } else {
                                l.pending
                            },
                            in_flight: Some(candidate.job),
                            ..l
                        },
                    )
                } else {
                    self.lanes
                },
                None => self.lanes,
            },
            global_windows: window::consume_all(self.global_windows, now, weight),
            chat_window_sets: match job.meta.scope {
                OutboundScope::Global => self.chat_window_sets,
                OutboundScope::Chat(chat) => self.chat_window_sets.insert(
                    chat.value,
                    window::consume_all(self.chat_windows(chat), now, weight),
                ),
            },
            in_flight: self.in_flight.insert(
                candidate.job.value,
                InFlight { lane: job.meta.lane },
            ),
            ..self
        }.remove_coalesce_entry(candidate.job, job.coalesce_key)
    }

    /// Extends the hold on a window to the moment its next parked candidate
    /// fits.
    pub open spec fn rearm_window(self, scope: OutboundScope, now: Instant) -> SchedulerView {
        let at = find(self.reservations, scope);
        if at >= self.reservations.len() || self.reservations[at as int].queue.len() == 0 {
            self
        } else {
            let r = self.reservations[at as int];
            let fits = match reference_weight(r.queue[0], self.jobs, self.lanes) {
                None => None,
                Some(weight) => match scope {
                    OutboundScope::Global => window::earliest_for_all(
                        self.global_windows,
                        now,
                        weight,
                    ),
                    OutboundScope::Chat(chat) => if self.chat_window_sets.contains_key(
                        chat.value,
                    ) {
                        window::earliest_for_all(self.chat_window_sets[chat.value], now, weight)
                    } else {
                        None
                    },
                },
            };
            match fits {
                Some(until) => SchedulerView {
                    reservations: self.reservations.update(
                        at as int,
                        ReservationView { until: until.later(now), ..r },
                    ),
                    ..self
                },
                None => self,
            }
        }
    }

    /// After a grant consumed its windows, extends the holds on them.
    pub open spec fn rearm_reservations(self, scope: OutboundScope, now: Instant) -> SchedulerView {
        let global = self.rearm_window(OutboundScope::Global, now);
        match scope {
            OutboundScope::Global => global,
            OutboundScope::Chat(_) => global.rearm_window(scope, now),
        }
    }

    /// Holds a window back until `until` for `owner`, unless it is held
    /// longer already.
    pub open spec fn hold(
        self,
        scope: OutboundScope,
        until: Instant,
        owner: CandidateRef,
    ) -> SchedulerView {
        let at = find(self.reservations, scope);
        if at >= self.reservations.len() {
            SchedulerView {
                reservations: self.reservations.push(
                    ReservationView { window: scope, until, owner, queue: Seq::empty() },
                ),
                ..self
            }
        } else if until.nanos > self.reservations[at as int].until.nanos {
            SchedulerView {
                reservations: self.reservations.update(
                    at as int,
                    ReservationView { until, owner, ..self.reservations[at as int] },
                ),
                ..self
            }
        } else {
            self
        }
    }

    /// Puts a candidate that did not pass to sleep.
    pub open spec fn block(
        self,
        candidate: Candidate,
        until: Instant,
        reserve: Option<OutboundScope>,
    ) -> SchedulerView {
        let reference = self.reference_of(candidate.job);
        let held = match reserve {
            Some(scope) => self.hold(scope, until, reference),
            None => self,
        };
        SchedulerView { blocked: held.blocked.insert(BlockedJob { until, reference }), ..held }
    }

    /// The window whose hold parks a candidate.
    pub open spec fn parking_window(self, scope: OutboundScope, now: Instant) -> OutboundScope {
        if self.reservation_active(OutboundScope::Global, now) {
            OutboundScope::Global
        } else {
            scope
        }
    }

    /// Parks a candidate behind the hold on a window it consumes, in order of
    /// age.
    pub open spec fn park(self, candidate: Candidate, now: Instant) -> SchedulerView {
        let at = find(self.reservations, self.parking_window(candidate.scope, now));
        let r = self.reservations[at as int];
        let reference = self.reference_of(candidate.job);
        let place = parking_place(r.queue, self.jobs, reference);
        SchedulerView {
            reservations: self.reservations.update(
                at as int,
                ReservationView { queue: r.queue.insert(place as int, reference), ..r },
            ),
            ..self
        }
    }

    /// Deals with one candidate that has been taken out.
    pub open spec fn dispose(self, candidate: Candidate, now: Instant) -> SchedulerView {
        let checked = self.after_admission(candidate, now);
        match self.admission(candidate, now) {
            Admission::Pass => checked.grant(candidate, now).rearm_reservations(
                candidate.scope,
                now,
            ),
            Admission::Blocked { until, reserve } => checked.block(candidate, until, reserve),
            Admission::Reserved => checked.park(candidate, now),
        }
    }

    /// Wakes the next one parked behind a hold on a window that was just
    /// used, if the hold has ended: there may be room left.
    pub open spec fn wake_next(self, scope: OutboundScope, now: Instant) -> SchedulerView {
        let at = find(self.reservations, scope);
        if at < self.reservations.len() && lingers(self.reservations[at as int], now) {
            self.wake_at(at as int, now)
        } else {
            self
        }
    }

    /// Deals with one candidate and, after a grant, wakes whoever is next.
    pub open spec fn settle(self, candidate: Candidate, now: Instant) -> SchedulerView {
        let after = self.dispose(candidate, now);
        if self.admission(candidate, now) is Pass {
            let global = after.wake_next(OutboundScope::Global, now);
            match candidate.scope {
                OutboundScope::Global => global,
                OutboundScope::Chat(_) => global.wake_next(candidate.scope, now),
            }
        } else {
            after
        }
    }

    /// The first hold whose queue has to be served before anybody else is
    /// looked at.
    pub open spec fn first_lingering(self, now: Instant) -> nat {
        first_where(self.reservations, |r: ReservationView| lingers(r, now))
    }

    /// The first hold behind which somebody is parked whom the candidate
    /// would overtake. A candidate that is held back overtakes nobody.
    pub open spec fn first_overtaken(self, candidate: Candidate, now: Instant) -> nat {
        if self.held_back(candidate.scope, now) {
            self.reservations.len()
        } else {
            let jobs = self.jobs;
            let job = jobs[candidate.job.value];
            first_where(self.reservations, |r: ReservationView| overtakes(r, jobs, job, now))
        }
    }

    /// The candidate that is dealt with next, and the state after it has been
    /// taken out. Whoever it would overtake is woken first, and so is
    /// whoever is parked behind an ended hold when nobody else is left.
    pub open spec fn pick(self, now: Instant) -> (SchedulerView, Option<Candidate>)
        decreases lingering(self.reservations, now),
    {
        let (popped, found) = self.pop_candidate(now);
        proof {
            self.lemma_woken_lingers_no_more(now);
        }
        match found {
            None => {
                let at = popped.first_lingering(now);
                if at >= popped.reservations.len() {
                    (popped, None)
                } else {
                    popped.wake_at(at as int, now).pick(now)
                }
            },
            Some(candidate) => {
                let at = popped.first_overtaken(candidate, now);
                if at >= popped.reservations.len() {
                    (popped, found)
                } else {
                    popped.wake_at(at as int, now).push_job_candidate(candidate.job, now).pick(now)
                }
            },
        }
    }

    /// Grants every candidate that can be admitted at `now`, best first: the
    /// state afterwards and the grants.
    pub open spec fn grant_loop(self, now: Instant) -> (SchedulerView, Seq<Grant>)
        decreases
            self.jobs.dom().len(),
            lingering(self.reservations, now),
            self.disorder(now),
            self.candidates.len(),
        when self.jobs.dom().finite()
    {
        let (popped, found) = self.pick(now);
        match found {
            None => (popped, Seq::empty()),
            Some(candidate) => {
                let after = popped.settle(candidate, now);
                proof {
                    self.lemma_settle_decreases(now);
                }
                let (end, grants) = after.grant_loop(now);
                match popped.admission(candidate, now) {
                    Admission::Pass => (
                        end,
                        seq![Grant { job: candidate.job }] + grants,
                    ),
                    _ => (end, grants),
                }
            },
        }
    }

    /// Forgets the penalties that are over.
    pub open spec fn prune_penalties(self, now: Instant) -> SchedulerView {
        SchedulerView {
            penalties: self.penalties.restrict(
                Set::new(
                    |scope: OutboundScope|
                        self.penalties.contains_key(scope) && self.penalties[scope].nanos
                            > now.nanos,
                ),
            ),
            ..self
        }
    }

    /// Forgets the windows of chats that count nothing any more.
    pub open spec fn prune_chats(self, now: Instant) -> SchedulerView {
        SchedulerView {
            chat_window_sets: self.chat_window_sets.map_values(
                |set: Seq<WindowView>| window::prune_all(set, now),
            ).restrict(
                Set::new(
                    |chat: u64|
                        self.chat_window_sets.contains_key(chat) && !window::all_idle(
                            window::prune_all(self.chat_window_sets[chat], now),
                        ),
                ),
            ),
            ..self
        }
    }

    /// Grants every job that can be admitted at `now`: the state afterwards.
    pub open spec fn grant_ready(self, now: Instant) -> SchedulerView {
        self.promote(now).grant_loop(now).0.prune_penalties(now).prune_chats(now)
    }

    /// Grants every job that can be admitted at `now`: the grants, in order.
    pub open spec fn grants(self, now: Instant) -> Seq<Grant> {
        self.promote(now).grant_loop(now).1
    }

    // ---------- completion ----------

    /// Closes a scope until `until`, never shortening an earlier penalty.
    pub open spec fn penalize(self, scope: OutboundScope, until: Instant) -> SchedulerView {
        SchedulerView {
            penalties: self.penalties.insert(
                scope,
                if self.penalties.contains_key(scope) {
                    self.penalties[scope].later(until)
                } else {
                    until
                },
            ),
            ..self
        }
    }

    /// Releases the lane of a granted job.
    pub open spec fn release_lane(self, key: OutboundLaneKey, now: Instant) -> SchedulerView {
        if self.lanes.contains_key(key.value) {
            let freed = LaneView { in_flight: None, ..self.lanes[key.value] };
            if freed.pending.len() > 0 {
                SchedulerView {
                    lanes: self.lanes.insert(key.value, freed),
                    ..self
                }.push_lane_head_candidate(key, now)
            } else {
                SchedulerView { lanes: self.lanes.remove(key.value), ..self }
            }
        } else {
            self
        }
    }

    /// Notes that a granted job has started. If its lane lets jobs start in
    /// order, the lane is released now and no more when the job is finished.
    pub open spec fn start(self, id: JobId, now: Instant) -> SchedulerView {
        if !self.in_flight.contains_key(id.value) {
            self
        } else {
            match self.in_flight[id.value].lane {
                Some(key) => if types::lane_mode(key.value) is OrderedStart {
                    SchedulerView {
                        in_flight: self.in_flight.insert(id.value, InFlight { lane: None }),
                        ..self
                    }.release_lane(key, now)
                } else {
                    self
                },
                None => self,
            }
        }
    }

    /// Finishes a granted job.
    pub open spec fn complete(
        self,
        id: JobId,
        completion: OutboundCompletion,
        now: Instant,
    ) -> SchedulerView {
        if !self.in_flight.contains_key(id.value) {
            self
        } else {
            let finished = SchedulerView { in_flight: self.in_flight.remove(id.value), ..self };
            let released = match self.in_flight[id.value].lane {
                Some(key) => finished.release_lane(key, now),
                None => finished,
            };
            match completion {
                OutboundCompletion::RetryAfter { scope, duration } => if now.plus(duration).nanos
                    > now.nanos {
                    released.penalize(scope, now.plus(duration))
                } else {
                    released
                },
                _ => released,
            }
        }
    }

    // ---------- deadlines ----------

    /// Drops dead entries from the front of the delayed queue.
    pub open spec fn trim_delayed(self) -> SchedulerView
        decreases self.delayed.len(),
    {
        if self.delayed.len() == 0 || self.jobs.contains_key(
            heap::first_of(self.delayed).job.value,
        ) {
            self
        } else {
            proof {
                heap::lemma_first_exists(self.delayed);
                lemma_remove_shrinks(self.delayed, heap::first_of(self.delayed));
            }
            SchedulerView {
                delayed: self.delayed.remove(heap::first_of(self.delayed)),
                stale_delayed: lane::less(self.stale_delayed, 1),
                ..self
            }.trim_delayed()
        }
    }

    /// Drops dead entries from the front of the blocked queue.
    pub open spec fn trim_blocked(self) -> SchedulerView
        decreases self.blocked.len(),
    {
        if self.blocked.len() == 0 || reference_alive(
            heap::first_of(self.blocked).reference,
            self.jobs,
            self.lanes,
        ) {
            self
        } else {
            proof {
                heap::lemma_first_exists(self.blocked);
                lemma_remove_shrinks(self.blocked, heap::first_of(self.blocked));
            }
            SchedulerView {
                blocked: self.blocked.remove(heap::first_of(self.blocked)),
                ..self
            }.trim_blocked()
        }
    }

    /// Whether a reference has a candidate entry that counts.
    pub open spec fn is_candidate(self, reference: CandidateRef) -> bool {
        match reference {
            CandidateRef::Job(id) => self.jobs.contains_key(id.value)
                && self.jobs[id.value].in_candidate_heap,
            CandidateRef::Lane(key) => self.lanes.contains_key(key.value)
                && self.lanes[key.value].in_candidate_heap,
        }
    }

    /// Drops aging moments of references that are no candidates any more
    /// from the front of their queue.
    pub open spec fn trim_aging(self) -> SchedulerView
        decreases self.aging_events.len(),
    {
        if self.aging_events.len() == 0 || self.is_candidate(
            heap::first_of(self.aging_events).reference,
        ) {
            self
        } else {
            proof {
                heap::lemma_first_exists(self.aging_events);
                lemma_remove_shrinks(self.aging_events, heap::first_of(self.aging_events));
            }
            SchedulerView {
                aging_events: self.aging_events.remove(heap::first_of(self.aging_events)),
                ..self
            }.trim_aging()
        }
    }

    /// The state after the deadlines have been read: dead entries have been
    /// dropped from the front of the queues.
    pub open spec fn trimmed(self) -> SchedulerView {
        self.trim_delayed().trim_blocked().trim_aging()
    }

    /// The earliest moment at which something may become grantable.
    pub open spec fn earliest_deadline(self, now: Instant) -> Option<Instant> {
        let a = if self.delayed.len() > 0 {
            Some(heap::first_of(self.delayed).not_before)
        } else {
            None
        };
        let b = if self.blocked.len() > 0 {
            sooner(a, heap::first_of(self.blocked).until)
        } else {
            a
        };
        let c = if self.aging_events.len() > 0 {
            sooner(b, heap::first_of(self.aging_events).at)
        } else {
            b
        };
        earliest_hold(c, self.reservations, now)
    }

    /// What to wait for.
    pub open spec fn wakeup(self, now: Instant) -> SchedulerWakeup {
        match self.trimmed().earliest_deadline(now) {
            Some(at) => if at.nanos <= now.nanos {
                SchedulerWakeup::Immediate
            } else {
                SchedulerWakeup::At(at)
            },
            None => SchedulerWakeup::ExternalEvent,
        }
    }
}

impl SchedulerView {
    // ---------- new limits ----------

    /// The window of the new limits that is too small for a waiting job.
    pub open spec fn too_small_for(job: Job, limits: OutboundLimits) -> Option<u32> {
        match too_small(limits.global@, job.meta.weight@) {
            Some(capacity) => Some(capacity),
            None => too_small_in_chat(limits.chat@, job.meta.scope, job.meta.weight@),
        }
    }

    /// Whether `id` is the oldest waiting job that the new limits would make
    /// ungrantable.
    pub open spec fn is_first_unfit(self, id: u64, limits: OutboundLimits) -> bool {
        &&& self.jobs.contains_key(id)
        &&& SchedulerView::too_small_for(self.jobs[id], limits) is Some
        &&& forall|k: u64| #[trigger]
            self.jobs.contains_key(k) && SchedulerView::too_small_for(self.jobs[k], limits) is Some
                ==> id <= k
    }

    /// Why new limits are refused.
    pub open spec fn limits_refusal(self, limits: OutboundLimits) -> Option<
        SchedulerConfigError,
    > {
        match limits_fault(limits) {
            Some(fault) => Some(fault),
            None => if exists|id: u64| self.is_first_unfit(id, limits) {
                let id = choose|id: u64| self.is_first_unfit(id, limits);
                Some(
                    SchedulerConfigError::PendingWeightExceedsWindow {
                        scope: self.jobs[id].meta.scope,
                        weight: self.jobs[id].meta.weight@,
                        capacity: SchedulerView::too_small_for(self.jobs[id], limits)->0,
                    },
                )
            } else {
                None
            },
        }
    }

    pub open spec fn push_references(self, references: Seq<CandidateRef>, now: Instant) -> SchedulerView
        decreases references.len(),
    {
        if references.len() == 0 {
            self
        } else {
            self.push_references(references.drop_last(), now).push_reference(
                references.last(),
                now,
            )
        }
    }

    /// Makes everything parked behind the given holds a candidate.
    pub open spec fn wake_parked(self, holds: Seq<ReservationView>, now: Instant) -> SchedulerView
        decreases holds.len(),
    {
        if holds.len() == 0 {
            self
        } else {
            self.wake_parked(holds.drop_last(), now).push_references(holds.last().queue, now)
        }
    }

    /// The windows under new limits: what they still remember counts on.
    pub open spec fn relimited(self, limits: OutboundLimits) -> SchedulerView {
        SchedulerView {
            global_windows: window::relimit(self.global_windows, limits.global@),
            chat_window_sets: Map::new(
                |chat: u64| self.chat_window_sets.contains_key(chat),
                |chat: u64|
                    window::relimit(
                        self.chat_window_sets[chat],
                        window::applicable(limits.chat@, chat),
                    ),
            ),
            global_limits: limits.global@,
            chat_limits: limits.chat@,
            ..self
        }
    }

    /// Replaces the limits. Everything that slept because of the old windows
    /// becomes a candidate again.
    pub open spec fn set_limits(self, limits: OutboundLimits, now: Instant) -> SchedulerView {
        match self.limits_refusal(limits) {
            Some(_) => self,
            None => {
                let woken = self.relimited(limits).wake_blocked(Instant { nanos: u64::MAX }, now);
                SchedulerView { reservations: Seq::empty(), ..woken }.wake_parked(
                    woken.reservations,
                    now,
                )
            },
        }
    }
}

/// The aging moments that have come by `now`, in order.
pub open spec fn due_events(events: Multiset<AgingEvent>, now: Instant) -> Seq<AgingEvent>
    decreases events.len(),
{
    if events.len() == 0 || heap::first_of(events).at.nanos > now.nanos {
        Seq::empty()
    } else {
        let first = heap::first_of(events);
        proof {
            heap::lemma_first_exists(events);
            lemma_remove_shrinks(events, first);
        }
        seq![first] + due_events(events.remove(first), now)
    }
}

/// The aging moments that have not come by `now`.
pub open spec fn later_events(events: Multiset<AgingEvent>, now: Instant) -> Multiset<AgingEvent>
    decreases events.len(),
{
    if events.len() == 0 || heap::first_of(events).at.nanos > now.nanos {
        events
    } else {
        let first = heap::first_of(events);
        proof {
            heap::lemma_first_exists(events);
            lemma_remove_shrinks(events, first);
        }
        later_events(events.remove(first), now)
    }
}

pub proof fn lemma_remove_shrinks<T>(m: Multiset<T>, x: T)
    requires
        m.contains(x),
    ensures
        m.remove(x).len() == m.len() - 1,
        m.len() > 0,
{
    broadcast use vstd::multiset::group_multiset_axioms;

    assert(m.remove(x).insert(x) =~= m);
}

impl SchedulerView {
    /// Dealing with a delay deadline leaves the other queues alone.
    pub proof fn lemma_steps_keep_queues(self, entry: DelayedJob, now: Instant)
        ensures
            self.delayed_step(entry, now).delayed == self.delayed,
            self.delayed_step(entry, now).blocked == self.blocked,
    {
    }

    /// Waking a blocked candidate leaves the other queues alone.
    pub proof fn lemma_blocked_step_keeps_queues(self, reference: CandidateRef, now: Instant)
        ensures
            self.blocked_step(reference, now).delayed == self.delayed,
            self.blocked_step(reference, now).blocked == self.blocked,
    {
    }
}

} // verus!
