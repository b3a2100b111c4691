//! The records the scheduler keeps about jobs, and the entries of its
//! queues.

use crate::heap::Ranked;
use crate::time::Instant;
use crate::types::{
    AgingPolicy, JobId, NonZeroU32, OutboundClass, OutboundLaneKey, OutboundMeta, OutboundScope,
    HIGHEST_LEVEL,
};
use vstd::prelude::*;

verus! {

/// A granted job whose permit is still in flight. The lane is released on
/// completion.
#[derive(Clone, Copy, Debug, PartialEq, Eq, Structural)]
pub struct InFlight {
    pub lane: Option<OutboundLaneKey>,
}

/// Identity of a latest-wins slot, derived from the request metadata. The
/// caller only supplies the `user_key`; the accounting weight is deliberately
/// not part of the key: a weight change on an existing slot is rejected.
#[derive(Clone, Copy, Debug, PartialEq, Eq, Hash, Structural)]
pub struct CoalesceKey {
    pub scope: OutboundScope,
    pub lane: Option<OutboundLaneKey>,
    pub class: OutboundClass,
    pub user_key: u64,
}

/// A live job that has not been granted yet.
#[derive(Clone, Copy, Debug, PartialEq, Eq, Structural)]
pub struct Job {
    pub meta: OutboundMeta,
    pub sequence: u64,
    /// The moment the job became ready; aging is measured from it.
    pub ready_at: Instant,
    /// The delay deadline, if the job is still waiting for time.
    pub not_before: Option<Instant>,
    /// The latest-wins slot this job belongs to, if any.
    pub coalesce_key: Option<CoalesceKey>,
    /// The job's position inside its ordering lane, from the lane's own
    /// counter. `None` for unlaned jobs.
    pub lane_order: Option<u64>,
    /// Whether the job's freshest candidate entry is still queued.
    pub in_candidate_heap: bool,
    /// The effective priority of the freshest candidate entry; entries with
    /// a lower one are stale and skipped.
    pub candidate_effective: u8,
}

/// Whether a job still waits for its delay deadline at `now`.
pub open spec fn delayed_at(job: Job, now: Instant) -> bool {
    job.not_before matches Some(until) && until.nanos > now.nanos
}

pub fn is_delayed_at(job: &Job, now: Instant) -> (r: bool)
    ensures
        r == delayed_at(*job, now),
{
    match job.not_before {
        Some(until) => until.nanos > now.nanos,
        None => false,
    }
}

/// One aging quantum in nanoseconds.
pub open spec fn quantum_nanos(aging: AgingPolicy) -> nat {
    if aging.quantum.nanos > 0 {
        aging.quantum.nanos as nat
    } else {
        1
    }
}

/// How many levels a job that became ready at `ready_at` has been raised.
pub open spec fn boost(aging: AgingPolicy, ready_at: Instant, now: Instant) -> nat {
    let waited: nat = if now.nanos > ready_at.nanos {
        (now.nanos - ready_at.nanos) as nat
    } else {
        0
    };
    let levels = waited / quantum_nanos(aging);
    if levels > aging.max_boost {
        aging.max_boost as nat
    } else {
        levels
    }
}

/// Effective priority: base priority raised by aging, capped at the highest
/// level.
pub open spec fn effective(job: Job, aging: AgingPolicy, now: Instant) -> u8 {
    let level = job.meta.priority.value + boost(aging, job.ready_at, now);
    if level > HIGHEST_LEVEL {
        HIGHEST_LEVEL
    } else {
        level as u8
    }
}

/// Effective priority: base priority raised by aging, capped at the highest
/// level.
pub fn effective_priority(job: &Job, aging: &AgingPolicy, now: Instant) -> (r: u8)
    ensures
        r == effective(*job, *aging, now),
{
    let waited: u64 = now.saturating_since(job.ready_at).nanos;
    let quantum: u64 = if aging.quantum.nanos > 0 {
        aging.quantum.nanos
    } else {
        1
    };
    let levels: u64 = waited / quantum;
    let raised: u64 = if levels > aging.max_boost as u64 {
        aging.max_boost as u64
    } else {
        levels
    };
    let level: u64 = job.meta.priority.value as u64 + raised;
    if level > HIGHEST_LEVEL as u64 {
        HIGHEST_LEVEL
    } else {
        level as u8
    }
}

/// What a candidate entry refers to: an unlaned job, or the head of an
/// ordering lane.
#[derive(Clone, Copy, Debug, PartialEq, Eq, PartialOrd, Ord, Structural)]
pub enum CandidateRef {
    Job(JobId),
    Lane(OutboundLaneKey),
}

impl CandidateRef {
    /// Jobs come before lanes.
    pub open spec fn kind_rank(self) -> int {
        match self {
            CandidateRef::Job(_) => 0,
            CandidateRef::Lane(_) => 1,
        }
    }

    pub open spec fn id_rank(self) -> int {
        match self {
            CandidateRef::Job(job) => job.value as int,
            CandidateRef::Lane(lane) => lane.value as int,
        }
    }

    fn is_lane(&self) -> (r: bool)
        ensures
            r == (self.kind_rank() == 1),
    {
        match self {
            CandidateRef::Job(_) => false,
            CandidateRef::Lane(_) => true,
        }
    }

    fn id(&self) -> (r: u64)
        ensures
            r == self.id_rank(),
    {
        match self {
            CandidateRef::Job(job) => job.value,
            CandidateRef::Lane(lane) => lane.value,
        }
    }

    /// Whether `self` orders strictly before `other`.
    fn less(&self, other: &Self) -> (r: bool)
        ensures
            r == (self.kind_rank() < other.kind_rank() || self.kind_rank() == other.kind_rank()
                && self.id_rank() < other.id_rank()),
    {
        if self.is_lane() != other.is_lane() {
            other.is_lane()
        } else {
            self.id() < other.id()
        }
    }
}

proof fn lemma_ref_ranks(a: CandidateRef, b: CandidateRef)
    requires
        a.kind_rank() == b.kind_rank(),
        a.id_rank() == b.id_rank(),
    ensures
        a == b,
{
    match (a, b) {
        (CandidateRef::Job(x), CandidateRef::Job(y)) => {
            assert(x.value == y.value);
        },
        (CandidateRef::Lane(x), CandidateRef::Lane(y)) => {
            assert(x.value == y.value);
        },
        _ => {},
    }
}

/// Candidate entry: highest effective priority first, FIFO by sequence
/// within one level. Entries are validated when they surface (aging may have
/// raised the effective priority, the lane head may have changed).
#[derive(Clone, Copy, Debug, PartialEq, Eq, Structural)]
pub struct CandidateKey {
    pub effective: u8,
    pub sequence: u64,
    pub reference: CandidateRef,
}

impl Ranked for CandidateKey {
    open spec fn rank(self) -> (int, int, int, int) {
        (
            -(self.effective as int),
            self.sequence as int,
            -self.reference.kind_rank(),
            -self.reference.id_rank(),
        )
    }

    proof fn rank_is_injective(a: Self, b: Self) {
        lemma_ref_ranks(a.reference, b.reference);
    }

    fn precedes(&self, other: &Self) -> (r: bool) {
        if self.effective != other.effective {
            self.effective > other.effective
        } else if self.sequence != other.sequence {
            self.sequence < other.sequence
        } else {
            other.reference.less(&self.reference)
        }
    }
}

/// A candidate that failed admission: it sleeps until `until`. The reference
/// is validated again on wake-up, so a lane entry whose head changed wakes
/// the current head.
#[derive(Clone, Copy, Debug, PartialEq, Eq, Structural)]
pub struct BlockedJob {
    pub until: Instant,
    pub reference: CandidateRef,
}

impl Ranked for BlockedJob {
    open spec fn rank(self) -> (int, int, int, int) {
        (self.until.nanos as int, self.reference.kind_rank(), self.reference.id_rank(), 0)
    }

    proof fn rank_is_injective(a: Self, b: Self) {
        lemma_ref_ranks(a.reference, b.reference);
    }

    fn precedes(&self, other: &Self) -> (r: bool) {
        if self.until.nanos != other.until.nanos {
            self.until.nanos < other.until.nanos
        } else {
            self.reference.less(&other.reference)
        }
    }
}

/// The moment a candidate's effective priority rises by one level.
#[derive(Clone, Copy, Debug, PartialEq, Eq, Structural)]
pub struct AgingEvent {
    pub at: Instant,
    pub reference: CandidateRef,
}

impl Ranked for AgingEvent {
    open spec fn rank(self) -> (int, int, int, int) {
        (self.at.nanos as int, self.reference.kind_rank(), self.reference.id_rank(), 0)
    }

    proof fn rank_is_injective(a: Self, b: Self) {
        lemma_ref_ranks(a.reference, b.reference);
    }

    fn precedes(&self, other: &Self) -> (r: bool) {
        if self.at.nanos != other.at.nanos {
            self.at.nanos < other.at.nanos
        } else {
            self.reference.less(&other.reference)
        }
    }
}

/// A job waiting for its delay deadline.
#[derive(Clone, Copy, Debug, PartialEq, Eq, Structural)]
pub struct DelayedJob {
    pub not_before: Instant,
    pub sequence: u64,
    pub job: JobId,
}

impl Ranked for DelayedJob {
    open spec fn rank(self) -> (int, int, int, int) {
        (self.not_before.nanos as int, self.sequence as int, self.job.value as int, 0)
    }

    proof fn rank_is_injective(a: Self, b: Self) {
    }

    fn precedes(&self, other: &Self) -> (r: bool) {
        if self.not_before.nanos != other.not_before.nanos {
            self.not_before.nanos < other.not_before.nanos
        } else if self.sequence != other.sequence {
            self.sequence < other.sequence
        } else {
            self.job.value < other.job.value
        }
    }
}

/// A job that is ready to be granted: either an unlaned job or the head of a
/// free ordering lane.
#[derive(Clone, Copy, Debug, PartialEq, Eq, Structural)]
pub struct Candidate {
    pub job: JobId,
    pub sequence: u64,
    pub effective: u8,
    pub weight: NonZeroU32,
    pub scope: OutboundScope,
}

/// The verdict of the admission check for one candidate.
#[derive(Clone, Copy, Debug, PartialEq, Eq, Structural)]
pub enum Admission {
    /// The candidate can be granted right now.
    Pass,
    /// The candidate cannot be granted before `until`; `reserve` is the
    /// window (if any) that must be held back until then so that the
    /// candidate is not starved by lighter traffic.
    Blocked { until: Instant, reserve: Option<OutboundScope> },
    /// The candidate consumes a window that is already reserved for an
    /// older blocked candidate.
    Reserved,
}

} // verus!
