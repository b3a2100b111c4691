//! Ordering lanes.
//!
//! A lane is strictly FIFO. Its head is the only job that can be granted; a
//! delayed head blocks the whole lane until it becomes ready. Cancelled or
//! superseded entries are dropped lazily when they reach the head and counted
//! in `stale` for periodic compaction.

use super::entries::Job;
use crate::idmap::IdMap;
use crate::types::JobId;
use std::collections::VecDeque;
use vstd::prelude::*;

verus! {

/// What a lane holds.
#[verifier::ext_equal]
pub struct LaneView {
    /// The waiting entries in lane order.
    pub pending: Seq<(u64, JobId)>,
    pub in_flight: Option<JobId>,
    /// Order of the next enqueued job.
    pub next_order: u64,
    /// Entries whose job is gone.
    pub stale: usize,
    /// Whether the current head is represented among the candidates.
    pub in_candidate_heap: bool,
    /// The effective priority of the freshest candidate entry of this lane.
    pub candidate_effective: u8,
}

/// Lane entries order by their place in the lane, then by job id.
pub open spec fn entry_lt(a: (u64, JobId), b: (u64, JobId)) -> bool {
    a.0 < b.0 || a.0 == b.0 && a.1.value < b.1.value
}

/// Entries in strictly increasing order.
pub open spec fn in_lane_order(pending: Seq<(u64, JobId)>) -> bool {
    forall|i: int, j: int|
        0 <= i < j < pending.len() ==> entry_lt(#[trigger] pending[i], #[trigger] pending[j])
}

/// `pending` with `entry` in its place.
pub open spec fn insert_sorted(pending: Seq<(u64, JobId)>, entry: (u64, JobId)) -> Seq<
    (u64, JobId),
>
    decreases pending.len(),
{
    if pending.len() == 0 {
        seq![entry]
    } else if entry_lt(pending.last(), entry) {
        pending.push(entry)
    } else if pending.last() == entry {
        pending
    } else {
        insert_sorted(pending.drop_last(), entry).push(pending.last())
    }
}

/// The entries without the leading ones whose job is gone.
pub open spec fn drop_dead(pending: Seq<(u64, JobId)>, jobs: Map<u64, Job>) -> Seq<(u64, JobId)>
    decreases pending.len(),
{
    if pending.len() > 0 && !jobs.contains_key(pending[0].1.value) {
        drop_dead(pending.drop_first(), jobs)
    } else {
        pending
    }
}

/// Whether any entry's job is still waiting.
pub open spec fn has_live(pending: Seq<(u64, JobId)>, jobs: Map<u64, Job>) -> bool {
    exists|i: int|
        0 <= i < pending.len() && jobs.contains_key((#[trigger] pending[i]).1.value)
}

/// The same entries, numbered from zero in their present order.
pub open spec fn renumbered(pending: Seq<(u64, JobId)>) -> Seq<(u64, JobId)> {
    Seq::new(pending.len(), |i: int| (i as u64, pending[i].1))
}

/// `count` less `n`, at least zero.
pub open spec fn less(count: usize, n: nat) -> usize {
    if count >= n {
        (count - n) as usize
    } else {
        0
    }
}

impl LaneView {
    /// A lane nobody has used.
    pub open spec fn empty() -> LaneView {
        LaneView {
            pending: Seq::empty(),
            in_flight: None,
            next_order: 0,
            stale: 0,
            in_candidate_heap: false,
            candidate_effective: 0,
        }
    }

    /// The lane with its dead head entries dropped.
    pub open spec fn drained(self, jobs: Map<u64, Job>) -> LaneView {
        let rest = drop_dead(self.pending, jobs);
        LaneView {
            pending: rest,
            stale: less(self.stale, (self.pending.len() - rest.len()) as nat),
            ..self
        }
    }

    /// The lane without dead entries, if they dominate it.
    pub open spec fn compacted(self, jobs: Map<u64, Job>) -> LaneView {
        if self.stale * 2 > self.pending.len() {
            LaneView {
                pending: self.pending.filter(
                    |entry: (u64, JobId)| jobs.contains_key(entry.1.value),
                ),
                stale: 0,
                ..self
            }
        } else {
            self
        }
    }

    /// Whether nothing waits in the lane and nothing of it is in flight.
    pub open spec fn is_idle(self) -> bool {
        self.pending.len() == 0 && self.in_flight is None
    }
}

pub proof fn lemma_drop_dead_is_suffix(pending: Seq<(u64, JobId)>, jobs: Map<u64, Job>)
    ensures
        drop_dead(pending, jobs).len() <= pending.len(),
        drop_dead(pending, jobs) == pending.skip(pending.len() - drop_dead(pending, jobs).len()),
        drop_dead(pending, jobs).len() > 0 ==> jobs.contains_key(
            drop_dead(pending, jobs)[0].1.value,
        ),
        forall|i: int|
            0 <= i < pending.len() - drop_dead(pending, jobs).len() ==> !jobs.contains_key(
                (#[trigger] pending[i]).1.value,
            ),
    decreases pending.len(),
{
    if pending.len() > 0 && !jobs.contains_key(pending[0].1.value) {
        let rest = pending.drop_first();
        lemma_drop_dead_is_suffix(rest, jobs);
        let left = drop_dead(rest, jobs);
        assert(left =~= pending.skip(pending.len() - left.len()));
        assert forall|i: int| 0 <= i < pending.len() - left.len() implies !jobs.contains_key(
            (#[trigger] pending[i]).1.value,
        ) by {
            if i > 0 {
                assert(rest[i - 1] == pending[i]);
            }
        }
    } else {
        assert(pending.skip(0) =~= pending);
    }
}

pub proof fn lemma_drop_dead_is_idempotent(pending: Seq<(u64, JobId)>, jobs: Map<u64, Job>)
    ensures
        drop_dead(drop_dead(pending, jobs), jobs) == drop_dead(pending, jobs),
    decreases pending.len(),
{
    if pending.len() > 0 && !jobs.contains_key(pending[0].1.value) {
        lemma_drop_dead_is_idempotent(pending.drop_first(), jobs);
    }
}

pub proof fn lemma_insert_sorted_order(pending: Seq<(u64, JobId)>, entry: (u64, JobId))
    requires
        in_lane_order(pending),
    ensures
        in_lane_order(insert_sorted(pending, entry)),
        insert_sorted(pending, entry).len() <= pending.len() + 1,
        forall|x: (u64, JobId)| #[trigger]
            insert_sorted(pending, entry).contains(x) <==> x == entry || pending.contains(x),
    decreases pending.len(),
{
    let r = insert_sorted(pending, entry);
    if pending.len() == 0 {
        assert(r[0] == entry);
    } else if entry_lt(pending.last(), entry) {
        assert(r[pending.len() as int] == entry);
        assert forall|x: (u64, JobId)| #[trigger] r.contains(x) <==> x == entry || pending.contains(
            x,
        ) by {
            if pending.contains(x) {
                let i = choose|i: int| 0 <= i < pending.len() && pending[i] == x;
                assert(r[i] == x);
            }
            if r.contains(x) && x != entry {
                let i = choose|i: int| 0 <= i < r.len() && r[i] == x;
                assert(pending[i] == x);
            }
        }
    } else if pending.last() == entry {
        assert(pending[pending.len() - 1] == entry);
    } else {
        let front = pending.drop_last();
        assert(in_lane_order(front));
        lemma_insert_sorted_order(front, entry);
        let s = insert_sorted(front, entry);
        let last = pending.last();
        assert forall|i: int, j: int| 0 <= i < j < r.len() implies entry_lt(
            #[trigger] r[i],
            #[trigger] r[j],
        ) by {
            if j == s.len() {
                assert(s.contains(s[i]));
                assert(s[i] == entry || front.contains(s[i]));
                if s[i] != entry {
                    let k = choose|k: int| 0 <= k < front.len() && front[k] == s[i];
                    assert(entry_lt(pending[k], pending[pending.len() - 1]));
                }
            }
        }
        assert forall|x: (u64, JobId)| #[trigger] r.contains(x) <==> x == entry || pending.contains(
            x,
        ) by {
            if r.contains(x) {
                let i = choose|i: int| 0 <= i < r.len() && r[i] == x;
                if i < s.len() {
                    assert(s.contains(x));
                    if x != entry {
                        let k = choose|k: int| 0 <= k < front.len() && front[k] == x;
                        assert(pending[k] == x);
                    }
                } else {
                    assert(pending[pending.len() - 1] == x);
                }
            }
            if x == entry || pending.contains(x) {
                if x == last {
                    assert(r[s.len() as int] == x);
                } else {
                    if x != entry {
                        let k = choose|k: int| 0 <= k < pending.len() && pending[k] == x;
                        assert(front[k] == x);
                    }
                    assert(s.contains(x));
                    let i = choose|i: int| 0 <= i < s.len() && s[i] == x;
                    assert(r[i] == x);
                }
            }
        }
    }
}

/// An entry that comes after all others goes to the end.
pub proof fn lemma_insert_sorted_at_end(pending: Seq<(u64, JobId)>, entry: (u64, JobId))
    requires
        pending.len() > 0 ==> entry_lt(pending.last(), entry),
    ensures
        insert_sorted(pending, entry) == pending.push(entry),
{
    if pending.len() == 0 {
        assert(pending.push(entry) =~= seq![entry]);
    }
}

/// A lane entry goes to its place from the back.
proof fn lemma_insert_sorted_split(pending: Seq<(u64, JobId)>, entry: (u64, JobId), at: int)
    requires
        0 <= at <= pending.len(),
        at > 0 ==> entry_lt(pending[at - 1], entry),
        forall|k: int| at <= k < pending.len() ==> entry_lt(entry, #[trigger] pending[k]),
    ensures
        insert_sorted(pending, entry) == pending.insert(at, entry),
    decreases pending.len() - at,
{
    if at == pending.len() {
        lemma_insert_sorted_at_end(pending, entry);
        assert(pending.insert(at, entry) =~= pending.push(entry));
    } else {
        assert(entry_lt(entry, pending[pending.len() - 1]));
        lemma_insert_sorted_split(pending.drop_last(), entry, at);
        assert(pending.insert(at, entry) =~= pending.drop_last().insert(at, entry).push(
            pending.last(),
        ));
    }
}

/// An ordering lane.
pub struct LaneState {
    pub pending: VecDeque<(u64, JobId)>,
    pub in_flight: Option<JobId>,
    pub next_order: u64,
    pub stale: usize,
    pub in_candidate_heap: bool,
    pub candidate_effective: u8,
}

impl LaneState {
    /// The waiting entries are in order.
    pub open spec fn wf(&self) -> bool {
        in_lane_order(self.pending@)
    }

    pub open spec fn view(&self) -> LaneView {
        LaneView {
            pending: self.pending@,
            in_flight: self.in_flight,
            next_order: self.next_order,
            stale: self.stale,
            in_candidate_heap: self.in_candidate_heap,
            candidate_effective: self.candidate_effective,
        }
    }

    /// A lane nobody has used.
    pub fn new() -> (r: Self)
        ensures
            r.wf(),
            r@ == LaneView::empty(),
    {
        LaneState {
            pending: VecDeque::new(),
            in_flight: None,
            next_order: 0,
            stale: 0,
            in_candidate_heap: false,
            candidate_effective: 0,
        }
    }

    /// Puts an entry in its place.
    pub fn insert(&mut self, order: u64, job: JobId)
        requires
            old(self).wf(),
        ensures
            final(self).wf(),
            final(self)@ == (LaneView {
                pending: insert_sorted(old(self)@.pending, (order, job)),
                ..old(self)@
            }),
    {
        proof {
            lemma_insert_sorted_order(self.pending@, (order, job));
        }
        let mut at: usize = self.pending.len();
        while at > 0
            invariant
                *self == *old(self),
                at <= self.pending@.len(),
                forall|k: int|
                    at <= k < self.pending@.len() ==> entry_lt(
                        (order, job),
                        #[trigger] self.pending@[k],
                    ),
                in_lane_order(self.pending@),
                in_lane_order(insert_sorted(self.pending@, (order, job))),
            decreases at,
        {
            let entry = self.pending[at - 1];
            if entry.0 < order || entry.0 == order && entry.1.value < job.value {
                proof {
                    lemma_insert_sorted_split(self.pending@, (order, job), at as int);
                }
                self.pending.insert(at, (order, job));
                return;
            }
            if entry.0 == order && entry.1.value == job.value {
                proof {
                    assert(entry == (order, job));
                    lemma_insert_sorted_present(self.pending@, (order, job), at - 1);
                }
                return;
            }
            at = at - 1;
        }
        proof {
            lemma_insert_sorted_split(self.pending@, (order, job), 0);
        }
        self.pending.insert(0, (order, job));
    }

    /// Drops the dead head entries.
    pub fn drain(&mut self, jobs: &IdMap<Job>)
        requires
            old(self).wf(),
        ensures
            final(self).wf(),
            final(self)@ == old(self)@.drained(jobs@),
    {
        while self.pending.len() > 0
            invariant
                self.wf(),
                self@.drained(jobs@) == old(self)@.drained(jobs@),
            decreases self.pending@.len(),
        {
            let head = self.pending[0].1;
            if jobs.contains(head.value) {
                proof {
                    assert(self@.drained(jobs@) =~= self@);
                }
                return;
            }
            let ghost before = self@;
            let _ = self.pending.pop_front();
            self.stale = self.stale.saturating_sub(1);
            proof {
                assert(self.pending@ =~= before.pending.drop_first());
                lemma_drop_dead_is_suffix(self.pending@, jobs@);
                assert(self@.drained(jobs@) =~= before.drained(jobs@));
            }
        }
        assert(self@.drained(jobs@) =~= self@);
    }

    /// The first waiting entry.
    pub fn first(&self) -> (r: Option<(u64, JobId)>)
        ensures
            r is Some <==> self@.pending.len() > 0,
            r matches Some(entry) ==> entry == self@.pending[0],
    {
        if self.pending.len() > 0 {
            Some(self.pending[0])
        } else {
            None
        }
    }

    /// Takes out the first waiting entry.
    pub fn pop_first(&mut self)
        requires
            old(self).wf(),
        ensures
            final(self).wf(),
            final(self)@ == (LaneView {
                pending: if old(self)@.pending.len() > 0 {
                    old(self)@.pending.drop_first()
                } else {
                    old(self)@.pending
                },
                ..old(self)@
            }),
    {
        let ghost before = self.pending@;
        let _ = self.pending.pop_front();
        proof {
            if before.len() > 0 {
                assert(self.pending@ =~= before.drop_first());
            }
        }
    }

    /// Whether any entry's job is still waiting.
    pub fn has_live(&self, jobs: &IdMap<Job>) -> (r: bool)
        ensures
            r == has_live(self@.pending, jobs@),
    {
        let mut i: usize = 0;
        while i < self.pending.len()
            invariant
                i <= self.pending@.len(),
                forall|j: int|
                    0 <= j < i ==> !jobs@.contains_key((#[trigger] self.pending@[j]).1.value),
            decreases self.pending@.len() - i,
        {
            if jobs.contains(self.pending[i].1.value) {
                assert(jobs@.contains_key(self.pending@[i as int].1.value));
                return true;
            }
            i = i + 1;
        }
        false
    }

    /// Removes the dead entries if they dominate the lane.
    pub fn compact(&mut self, jobs: &IdMap<Job>)
        requires
            old(self).wf(),
        ensures
            final(self).wf(),
            final(self)@ == old(self)@.compacted(jobs@),
    {
        if self.stale <= self.pending.len() / 2 {
            return;
        }
        let ghost live = |entry: (u64, JobId)| jobs@.contains_key(entry.1.value);
        let mut kept: VecDeque<(u64, JobId)> = VecDeque::new();
        let mut i: usize = 0;
        proof {
            reveal(Seq::filter);
            assert(self.pending@.take(0).filter(live) =~= Seq::empty());
        }
        while i < self.pending.len()
            invariant
                i <= self.pending@.len(),
                self.wf(),
                *self == *old(self),
                live == (|entry: (u64, JobId)| jobs@.contains_key(entry.1.value)),
                kept@ == self.pending@.take(i as int).filter(live),
                in_lane_order(kept@),
                forall|k: int|
                    0 <= k < kept@.len() ==> exists|j: int|
                        0 <= j < i && (#[trigger] kept@[k]) == self.pending@[j],
            decreases self.pending@.len() - i,
        {
            let entry = self.pending[i];
            proof {
                reveal(Seq::filter);
                assert(self.pending@.take(i + 1).drop_last() =~= self.pending@.take(i as int));
                assert(self.pending@.take(i + 1).last() == entry);
            }
            let ghost before = kept@;
            if jobs.contains(entry.1.value) {
                kept.push_back(entry);
                proof {
                    assert forall|a: int, b: int| 0 <= a < b < kept@.len() implies entry_lt(
                        #[trigger] kept@[a],
                        #[trigger] kept@[b],
                    ) by {
                        if b == before.len() {
                            assert(kept@[a] == before[a]);
                            let j = choose|j: int| 0 <= j < i && before[a] == self.pending@[j];
                            assert(entry_lt(self.pending@[j], self.pending@[i as int]));
                        }
                    }
                }
            }
            i = i + 1;
            proof {
                assert forall|k: int| 0 <= k < kept@.len() implies exists|j: int|
                    0 <= j < i && (#[trigger] kept@[k]) == self.pending@[j] by {
                    if k < before.len() {
                        assert(kept@[k] == before[k]);
                        let j = choose|j: int| 0 <= j < i - 1 && before[k] == self.pending@[j];
                        assert(self.pending@[j] == kept@[k]);
                    } else {
                        assert(self.pending@[i - 1] == kept@[k]);
                    }
                }
            }
        }
        assert(self.pending@.take(i as int) =~= self.pending@);
        self.pending = kept;
        self.stale = 0;
    }
}

proof fn lemma_insert_sorted_present(pending: Seq<(u64, JobId)>, entry: (u64, JobId), at: int)
    requires
        in_lane_order(pending),
        0 <= at < pending.len(),
        pending[at] == entry,
    ensures
        insert_sorted(pending, entry) == pending,
    decreases pending.len(),
{
    if at < pending.len() - 1 {
        assert(entry_lt(pending[at], pending[pending.len() - 1]));
        assert(in_lane_order(pending.drop_last()));
        lemma_insert_sorted_present(pending.drop_last(), entry, at);
        assert(pending.drop_last().push(pending.last()) =~= pending);
    }
}

} // verus!
