//! Renumbering of sequences.
//!
//! Before the sequence counter wraps, every sequence is renumbered in its
//! present order, so that no queue holds values from both sides of the wrap.

use super::entries::{CandidateKey, CandidateRef, DelayedJob, Job};
use super::lane::LaneView;
use super::model::SchedulerView;
use super::state::SchedulerState;
use super::{lane, model, progress, queues, state};
use crate::heap::Heap;
use crate::types::{JobId, OutboundLaneKey};
use vstd::multiset::Multiset;
use vstd::prelude::*;

verus! {

broadcast use super::state::group_views;

// ---------- images of multisets ----------

proof fn lemma_image_remove<A, B>(m: Multiset<A>, f: spec_fn(A) -> B, y: A)
    requires
        m.contains(y),
    ensures
        model::image(m, f) == model::image(m.remove(y), f).insert(f(y)),
    decreases m.len(),
{
    broadcast use vstd::multiset::group_multiset_axioms;

    model::lemma_remove_shrinks(m, y);
    let z = m.choose();
    assert(m.contains(z));
    model::lemma_remove_shrinks(m, z);
    if z != y {
        assert(m.remove(z).contains(y));
        assert(m.remove(y).contains(z));
        lemma_image_remove(m.remove(z), f, y);
        lemma_image_remove(m.remove(y), f, z);
        assert(m.remove(z).remove(y) =~= m.remove(y).remove(z));
        let rest = model::image(m.remove(y).remove(z), f);
        assert(rest.insert(f(y)).insert(f(z)) =~= rest.insert(f(z)).insert(f(y)));
    }
}

pub proof fn lemma_image_insert<A, B>(m: Multiset<A>, f: spec_fn(A) -> B, x: A)
    ensures
        model::image(m.insert(x), f) == model::image(m, f).insert(f(x)),
{
    broadcast use vstd::multiset::group_multiset_axioms;

    lemma_image_remove(m.insert(x), f, x);
    assert(m.insert(x).remove(x) =~= m);
}

pub proof fn lemma_image_same<A, B>(m: Multiset<A>, f: spec_fn(A) -> B, g: spec_fn(A) -> B)
    requires
        forall|x: A| #[trigger] m.contains(x) ==> f(x) == g(x),
    ensures
        model::image(m, f) == model::image(m, g),
    decreases m.len(),
{
    broadcast use vstd::multiset::group_multiset_axioms;

    if m.len() > 0 {
        let x = m.choose();
        assert(m.contains(x));
        model::lemma_remove_shrinks(m, x);
        assert forall|y: A| #[trigger] m.remove(x).contains(y) implies f(y) == g(y) by {
            assert(m.contains(y));
        }
        lemma_image_same(m.remove(x), f, g);
    }
}

/// The image of the next item of a sequence, if it is kept.
proof fn lemma_image_prefix<A, B>(
    s: Seq<A>,
    i: int,
    keep: spec_fn(A) -> bool,
    f: spec_fn(A) -> B,
)
    requires
        0 <= i < s.len(),
    ensures
        model::image(s.take(i + 1).to_multiset().filter(keep), f) == (if keep(s[i]) {
            model::image(s.take(i).to_multiset().filter(keep), f).insert(f(s[i]))
        } else {
            model::image(s.take(i).to_multiset().filter(keep), f)
        }),
{
    queues::lemma_filter_prefix(s, i, keep);
    lemma_image_insert(s.take(i).to_multiset().filter(keep), f, s[i]);
}

proof fn lemma_image_prefix_all<A, B>(s: Seq<A>, i: int, f: spec_fn(A) -> B)
    requires
        0 <= i < s.len(),
    ensures
        model::image(s.take(i + 1).to_multiset(), f) == model::image(
            s.take(i).to_multiset(),
            f,
        ).insert(f(s[i])),
{
    broadcast use vstd::seq_lib::group_to_multiset_ensures;

    assert(s.take(i + 1) =~= s.take(i).push(s[i]));
    lemma_image_insert(s.take(i).to_multiset(), f, s[i]);
}

proof fn lemma_image_of_nothing<A, B>(s: Seq<A>, keep: spec_fn(A) -> bool, f: spec_fn(A) -> B)
    ensures
        model::image(s.take(0).to_multiset().filter(keep), f) == Multiset::<B>::empty(),
        model::image(s.take(0).to_multiset(), f) == Multiset::<B>::empty(),
{
    broadcast use vstd::multiset::group_multiset_axioms;
    broadcast use vstd::seq_lib::group_to_multiset_ensures;

    assert(s.take(0).to_multiset().len() == 0);
    assert(s.take(0).to_multiset().filter(keep) =~= Multiset::<A>::empty());
}

// ---------- ranks ----------

/// The number of listed jobs with a sequence below `x`.
spec fn count_less(keys: Seq<u64>, jobs: Map<u64, Job>, x: u64) -> nat
    decreases keys.len(),
{
    if keys.len() == 0 {
        0
    } else {
        count_less(keys.drop_last(), jobs, x) + if jobs[keys.last()].sequence < x {
            1nat
        } else {
            0nat
        }
    }
}

proof fn lemma_count_is_rank(keys: Seq<u64>, jobs: Map<u64, Job>, x: u64)
    requires
        keys.no_duplicates(),
    ensures
        count_less(keys, jobs, x) == keys.to_set().filter(|k: u64| jobs[k].sequence < x).len(),
        keys.to_set().filter(|k: u64| jobs[k].sequence < x).finite(),
        count_less(keys, jobs, x) <= keys.len(),
    decreases keys.len(),
{
    let p = |k: u64| jobs[k].sequence < x;
    if keys.len() == 0 {
        assert(keys.to_set().filter(p) =~= Set::empty());
    } else {
        let front = keys.drop_last();
        let last = keys.last();
        assert(front.no_duplicates());
        lemma_count_is_rank(front, jobs, x);
        assert(!front.contains(last)) by {
            if front.contains(last) {
                let i = choose|i: int| 0 <= i < front.len() && front[i] == last;
                assert(keys[i] == keys[keys.len() - 1]);
            }
        }
        assert(keys.to_set() =~= front.to_set().insert(last)) by {
            assert forall|k: u64| keys.to_set().contains(k) == front.to_set().insert(
                last,
            ).contains(k) by {
                if keys.contains(k) {
                    let i = choose|i: int| 0 <= i < keys.len() && keys[i] == k;
                    if i < front.len() {
                        assert(front[i] == k);
                    }
                }
                if front.contains(k) {
                    let i = choose|i: int| 0 <= i < front.len() && front[i] == k;
                    assert(keys[i] == k);
                }
                if k == last {
                    assert(keys[keys.len() - 1] == k);
                }
            }
        }
        if p(last) {
            assert(keys.to_set().filter(p) =~= front.to_set().filter(p).insert(last));
        } else {
            assert(keys.to_set().filter(p) =~= front.to_set().filter(p));
        }
    }
}

/// Whether `keys` lists the waiting jobs, each once.
spec fn lists(keys: Seq<u64>, jobs: Map<u64, Job>) -> bool {
    &&& keys.no_duplicates()
    &&& forall|k: u64| keys.contains(k) <==> #[trigger] jobs.contains_key(k)
}

proof fn lemma_rank(keys: Seq<u64>, jobs: Map<u64, Job>, x: u64)
    requires
        lists(keys, jobs),
    ensures
        count_less(keys, jobs, x) == model::sequence_rank(jobs, x),
        count_less(keys, jobs, x) <= keys.len(),
{
    lemma_count_is_rank(keys, jobs, x);
    assert(keys.to_set() =~= jobs.dom()) by {
        assert forall|k: u64| keys.to_set().contains(k) == jobs.dom().contains(k) by {
            assert(jobs.contains_key(k) <==> keys.contains(k));
        }
    }
}

// ---------- lanes ----------

/// Whether one of the first `i` entries stands for the lane.
spec fn in_prefix(entries: Seq<CandidateKey>, i: int, key: u64) -> bool {
    exists|j: int|
        0 <= j < i && (#[trigger] entries[j]).reference == CandidateRef::Lane(
            OutboundLaneKey { value: key },
        )
}

/// The lanes once the first `i` entries have been dealt with.
spec fn lanes_after(
    s: SchedulerView,
    entries: Seq<CandidateKey>,
    i: int,
    lanes: Map<u64, LaneView>,
) -> bool {
    forall|key: u64|
        #![trigger lanes.contains_key(key)]
        if in_prefix(entries, i, key) && s.lanes.contains_key(key) {
            let live = lane::has_live(s.lanes[key].pending, s.jobs);
            if !live && s.lanes[key].in_flight is None {
                !lanes.contains_key(key)
            } else {
                lanes.contains_key(key) && lanes[key] == settled(s, key)
            }
        } else {
            (lanes.contains_key(key) <==> s.lanes.contains_key(key)) && (lanes.contains_key(key)
                ==> lanes[key] == s.lanes[key])
        }
}

/// A lane whose entry has been dealt with.
spec fn settled(s: SchedulerView, key: u64) -> LaneView {
    if lane::has_live(s.lanes[key].pending, s.jobs) {
        s.lanes[key].drained(s.jobs)
    } else {
        LaneView {
            in_candidate_heap: false,
            candidate_effective: 0,
            ..s.lanes[key].drained(s.jobs)
        }
    }
}

proof fn lemma_live_head(pending: Seq<(u64, JobId)>, jobs: Map<u64, Job>)
    ensures
        lane::has_live(pending, jobs) <==> lane::drop_dead(pending, jobs).len() > 0,
{
    lane::lemma_drop_dead_is_suffix(pending, jobs);
    let rest = lane::drop_dead(pending, jobs);
    if rest.len() > 0 {
        let at = pending.len() - rest.len();
        assert(rest[0] == pending[at]);
        assert(jobs.contains_key(pending[at].1.value));
    } else if lane::has_live(pending, jobs) {
        let i = choose|i: int|
            0 <= i < pending.len() && jobs.contains_key((#[trigger] pending[i]).1.value);
        assert(!jobs.contains_key(pending[i].1.value));
    }
}

proof fn lemma_drained_same(l: LaneView, jobs: Map<u64, Job>, other: Map<u64, Job>)
    requires
        jobs.dom() == other.dom(),
    ensures
        l.drained(jobs) == l.drained(other),
        l.drained(jobs).drained(other) == l.drained(jobs),
        lane::has_live(l.pending, jobs) == lane::has_live(l.pending, other),
{
    progress::lemma_drop_dead_same(l.pending, jobs, other);
    progress::lemma_drop_dead_same(lane::drop_dead(l.pending, jobs), jobs, other);
    lane::lemma_drop_dead_is_idempotent(l.pending, jobs);
    lemma_live_head(l.pending, jobs);
    lemma_live_head(l.pending, other);
    assert(l.drained(jobs).drained(other) =~= l.drained(jobs));
}

impl SchedulerState {
    /// Renumbers every sequence so that the counter can go on.
    pub fn rebase_sequences(&mut self)
        requires
            old(self).wf(),
        ensures
            final(self).wf(),
            final(self)@ == old(self)@.rebase_sequences(),
    {
        let keys = self.jobs.keys();
        if keys.len() == 0 {
            self.next_sequence = 0;
            assert(self@ =~= old(self)@.rebase_sequences());
            return;
        }
        let ghost jobs = self.jobs@;
        let mut least: u64 = u64::MAX;
        let mut greatest: u64 = 0;
        let mut i: usize = 0;
        while i < keys.len()
            invariant
                i <= keys@.len(),
                self@ == old(self)@,
                self.wf(),
                jobs == self.jobs@,
                lists(keys@, jobs),
                forall|j: int|
                    0 <= j < i ==> least <= jobs[#[trigger] keys@[j]].sequence <= greatest,
                i > 0 ==> exists|j: int|
                    0 <= j < i && jobs[#[trigger] keys@[j]].sequence == least,
                i > 0 ==> exists|j: int|
                    0 <= j < i && jobs[#[trigger] keys@[j]].sequence == greatest,
            decreases keys@.len() - i,
        {
            assert(keys@.contains(keys@[i as int]));
            assert(jobs.contains_key(keys@[i as int]));
            if let Some(job) = self.jobs.get(keys[i]) {
                if i == 0 || job.sequence < least {
                    least = job.sequence;
                }
                if i == 0 || job.sequence > greatest {
                    greatest = job.sequence;
                }
            }
            i = i + 1;
        }
        proof {
            self.lemma_extremes(keys@, least, greatest);
        }
        if least == 0 {
            self.rebase_dense(&keys);
        } else {
            self.rebase_shift(&keys, least, greatest);
        }
    }

    proof fn lemma_extremes(&self, keys: Seq<u64>, least: u64, greatest: u64)
        requires
            lists(keys, self.jobs@),
            keys.len() > 0,
            forall|j: int|
                0 <= j < keys.len() ==> least <= self.jobs@[#[trigger] keys[j]].sequence
                    <= greatest,
            exists|j: int|
                0 <= j < keys.len() && self.jobs@[#[trigger] keys[j]].sequence == least,
            exists|j: int|
                0 <= j < keys.len() && self.jobs@[#[trigger] keys[j]].sequence == greatest,
        ensures
            model::least_sequence(self.jobs@) == least,
            model::greatest_sequence(self.jobs@) == greatest,
    {
        let jobs = self.jobs@;
        assert forall|k: u64| #[trigger] jobs.contains_key(k) implies least <= jobs[k].sequence
            <= greatest by {
            assert(keys.contains(k));
            let j = choose|j: int| 0 <= j < keys.len() && keys[j] == k;
            assert(least <= jobs[keys[j]].sequence <= greatest);
        }
        let a = choose|j: int| 0 <= j < keys.len() && jobs[#[trigger] keys[j]].sequence == least;
        let b = choose|j: int|
            0 <= j < keys.len() && jobs[#[trigger] keys[j]].sequence == greatest;
        assert(keys.contains(keys[a]));
        assert(keys.contains(keys[b]));
        assert(jobs.contains_key(keys[a]));
        assert(jobs.contains_key(keys[b]));
        assert(model::is_least_sequence(jobs, least));
        assert(model::is_greatest_sequence(jobs, greatest));
        assert(model::is_least_sequence(jobs, model::least_sequence(jobs)));
        assert(model::is_greatest_sequence(jobs, model::greatest_sequence(jobs)));
    }

    /// Moves every sequence down by the smallest one.
    fn rebase_shift(&mut self, keys: &Vec<u64>, least: u64, greatest: u64)
        requires
            old(self).wf(),
            lists(keys@, old(self).jobs@),
            keys@.len() > 0,
            keys@.len() == old(self).jobs@.dom().len(),
            least > 0,
            least <= greatest,
            least == model::least_sequence(old(self).jobs@),
            greatest == model::greatest_sequence(old(self).jobs@),
        ensures
            final(self).wf(),
            final(self)@ == old(self)@.rebase_sequences(),
    {
        let ghost s = self@;
        let mut i: usize = 0;
        while i < keys.len()
            invariant
                i <= keys@.len(),
                s == old(self)@,
                lists(keys@, s.jobs),
                self.wf(),
                self@ == (SchedulerView { jobs: self.jobs@, ..s }),
                forall|k: u64| #[trigger] self.jobs@.contains_key(k) <==> s.jobs.contains_key(k),
                forall|j: int|
                    i <= j < keys@.len() ==> self.jobs@[#[trigger] keys@[j]] == s.jobs[keys@[j]],
                forall|j: int|
                    0 <= j < i ==> self.jobs@[#[trigger] keys@[j]] == (Job {
                        sequence: model::shifted(s.jobs[keys@[j]].sequence, least),
                        ..s.jobs[keys@[j]]
                    }),
            decreases keys@.len() - i,
        {
            let key: u64 = keys[i];
            assert(keys@.contains(key));
            assert(s.jobs.contains_key(key));
            if let Some(held) = self.jobs.get(key) {
                let mut job = *held;
                job.sequence = job.sequence.saturating_sub(least);
                self.jobs.insert(key, job);
            }
            i = i + 1;
        }
        let ghost moved = s.jobs.map_values(
            |job: Job| Job { sequence: model::shifted(job.sequence, least), ..job },
        );
        proof {
            assert(moved.dom() =~= s.jobs.dom());
            lemma_jobs_agree(keys@, s.jobs, self.jobs@, moved);
        }

        let ghost f = |entry: DelayedJob|
            DelayedJob { sequence: model::shifted(entry.sequence, least), ..entry };
        let entries = self.delayed.take_all();
        let mut rebuilt: Heap<DelayedJob> = Heap::new();
        let mut i: usize = 0;
        proof {
            lemma_image_of_nothing(entries@, |entry: DelayedJob| true, f);
        }
        while i < entries.len()
            invariant
                i <= entries@.len(),
                rebuilt.wf(),
                f == (|entry: DelayedJob|
                    DelayedJob { sequence: model::shifted(entry.sequence, least), ..entry }),
                rebuilt@ == model::image(entries@.take(i as int).to_multiset(), f),
            decreases entries@.len() - i,
        {
            let mut entry = entries[i];
            proof {
                lemma_image_prefix_all(entries@, i as int, f);
            }
            entry.sequence = entry.sequence.saturating_sub(least);
            rebuilt.push(entry);
            i = i + 1;
        }
        self.delayed = rebuilt;
        assert(entries@.take(i as int) =~= entries@);

        let ghost g = |key: CandidateKey|
            CandidateKey { sequence: model::shifted(key.sequence, least), ..key };
        let candidates = self.candidates.take_all();
        let mut rekeyed: Heap<CandidateKey> = Heap::new();
        let mut i: usize = 0;
        proof {
            lemma_image_of_nothing(candidates@, |key: CandidateKey| true, g);
        }
        while i < candidates.len()
            invariant
                i <= candidates@.len(),
                rekeyed.wf(),
                g == (|key: CandidateKey|
                    CandidateKey { sequence: model::shifted(key.sequence, least), ..key }),
                rekeyed@ == model::image(candidates@.take(i as int).to_multiset(), g),
            decreases candidates@.len() - i,
        {
            let mut key = candidates[i];
            proof {
                lemma_image_prefix_all(candidates@, i as int, g);
            }
            key.sequence = key.sequence.saturating_sub(least);
            rekeyed.push(key);
            i = i + 1;
        }
        self.candidates = rekeyed;
        assert(candidates@.take(i as int) =~= candidates@);
        self.next_sequence = greatest - least + 1;
        proof {
            let goal = s.rebase_sequences();
            let f2 = |entry: DelayedJob|
                DelayedJob { sequence: model::shifted(entry.sequence, least), ..entry };
            let g2 = |key: CandidateKey|
                CandidateKey { sequence: model::shifted(key.sequence, least), ..key };
            lemma_image_same(s.delayed, f, f2);
            lemma_image_same(s.candidates, g, g2);
            lemma_shift_goal(s, least);
            assert(self@ =~= goal);
        }
    }

    /// Numbers the waiting jobs by the place of their sequence.
    fn rank_jobs(&mut self, keys: &Vec<u64>)
        requires
            old(self).wf(),
            lists(keys@, old(self).jobs@),
        ensures
            final(self).wf(),
            final(self)@ == (SchedulerView {
                jobs: model::ranked_jobs(old(self)@.jobs),
                ..old(self)@
            }),
    {
        let ghost s = self@;
        let mut ranks: Vec<u64> = Vec::new();
        let mut i: usize = 0;
        while i < keys.len()
            invariant
                i <= keys@.len(),
                *self == *old(self),
                s == old(self)@,
                lists(keys@, s.jobs),
                ranks@.len() == i,
                forall|j: int|
                    0 <= j < i ==> #[trigger] ranks@[j] == model::sequence_rank(
                        s.jobs,
                        s.jobs[keys@[j]].sequence,
                    ) as u64,
            decreases keys@.len() - i,
        {
            assert(keys@.contains(keys@[i as int]));
            assert(s.jobs.contains_key(keys@[i as int]));
            let mut rank: u64 = 0;
            if let Some(job) = self.jobs.get(keys[i]) {
                let sequence: u64 = job.sequence;
                let mut j: usize = 0;
                assert(keys@.take(0) =~= Seq::empty());
                while j < keys.len()
                    invariant
                        j <= keys@.len(),
                        s == self@,
                        lists(keys@, s.jobs),
                        rank <= j,
                        rank == count_less(keys@.take(j as int), s.jobs, sequence),
                    decreases keys@.len() - j,
                {
                    assert(keys@.contains(keys@[j as int]));
                    assert(s.jobs.contains_key(keys@[j as int]));
                    assert(keys@.take(j + 1).drop_last() =~= keys@.take(j as int));
                    if let Some(other) = self.jobs.get(keys[j]) {
                        if other.sequence < sequence {
                            rank = rank + 1;
                        }
                    }
                    j = j + 1;
                }
                assert(keys@.take(j as int) =~= keys@);
                proof {
                    lemma_rank(keys@, s.jobs, sequence);
                }
            }
            ranks.push(rank);
            i = i + 1;
        }
        let mut i: usize = 0;
        while i < keys.len()
            invariant
                i <= keys@.len(),
                s == old(self)@,
                lists(keys@, s.jobs),
                ranks@.len() == keys@.len(),
                forall|j: int|
                    0 <= j < keys@.len() ==> #[trigger] ranks@[j] == model::sequence_rank(
                        s.jobs,
                        s.jobs[keys@[j]].sequence,
                    ) as u64,
                self.wf(),
                self@ == (SchedulerView { jobs: self.jobs@, ..s }),
                forall|k: u64| #[trigger] self.jobs@.contains_key(k) <==> s.jobs.contains_key(k),
                forall|j: int|
                    i <= j < keys@.len() ==> self.jobs@[#[trigger] keys@[j]] == s.jobs[keys@[j]],
                forall|j: int|
                    0 <= j < i ==> self.jobs@[#[trigger] keys@[j]] == (Job {
                        sequence: model::sequence_rank(
                            s.jobs,
                            s.jobs[keys@[j]].sequence,
                        ) as u64,
                        ..s.jobs[keys@[j]]
                    }),
            decreases keys@.len() - i,
        {
            let key: u64 = keys[i];
            assert(keys@.contains(key));
            assert(s.jobs.contains_key(key));
            if let Some(held) = self.jobs.get(key) {
                let mut job = *held;
                assert(ranks@[i as int] == model::sequence_rank(
                    s.jobs,
                    s.jobs[keys@[i as int]].sequence,
                ) as u64);
                job.sequence = ranks[i];
                self.jobs.insert(key, job);
            }
            i = i + 1;
        }
        proof {
            assert(model::ranked_jobs(s.jobs).dom() =~= s.jobs.dom());
            lemma_jobs_agree(keys@, s.jobs, self.jobs@, model::ranked_jobs(s.jobs));
            assert(self@ =~= (SchedulerView { jobs: model::ranked_jobs(s.jobs), ..s }));
        }
    }

    /// Drops the dead delayed entries and moves the others to the places of
    /// their renumbered jobs.
    fn rekey_delayed(&mut self, Ghost(s): Ghost<SchedulerView>)
        requires
            old(self).wf(),
            old(self)@.jobs.dom() == s.jobs.dom(),
        ensures
            final(self).wf(),
            final(self)@ == (SchedulerView {
                delayed: model::image(
                    old(self)@.delayed.filter(
                        |entry: DelayedJob| s.jobs.contains_key(entry.job.value),
                    ),
                    |entry: DelayedJob| model::rekeyed_delayed(entry, old(self)@.jobs),
                ),
                stale_delayed: 0,
                ..old(self)@
            }),
    {
        let ghost keep = |entry: DelayedJob| s.jobs.contains_key(entry.job.value);
        let ghost f = |entry: DelayedJob| model::rekeyed_delayed(entry, old(self)@.jobs);
        assert(forall|k: u64|
            s.jobs.contains_key(k) <==> #[trigger] old(self)@.jobs.contains_key(k)) by {
            assert(forall|k: u64|
                s.jobs.dom().contains(k) <==> #[trigger] old(self)@.jobs.dom().contains(k));
        }
        let entries = self.delayed.take_all();
        let mut rebuilt: Heap<DelayedJob> = Heap::new();
        let mut i: usize = 0;
        proof {
            lemma_image_of_nothing(entries@, keep, f);
        }
        while i < entries.len()
            invariant
                i <= entries@.len(),
                rebuilt.wf(),
                self.jobs@ == old(self).jobs@,
                forall|k: u64|
                    s.jobs.contains_key(k) <==> #[trigger] old(self)@.jobs.contains_key(k),
                keep == (|entry: DelayedJob| s.jobs.contains_key(entry.job.value)),
                f == (|entry: DelayedJob| model::rekeyed_delayed(entry, old(self)@.jobs)),
                rebuilt@ == model::image(entries@.take(i as int).to_multiset().filter(keep), f),
            decreases entries@.len() - i,
        {
            let mut entry = entries[i];
            proof {
                lemma_image_prefix(entries@, i as int, keep, f);
                assert(s.jobs.contains_key(entry.job.value) <==> old(self)@.jobs.contains_key(
                    entry.job.value,
                ));
            }
            if let Some(job) = self.jobs.get(entry.job.value) {
                entry.sequence = job.sequence;
                rebuilt.push(entry);
            }
            i = i + 1;
        }
        self.delayed = rebuilt;
        self.stale_delayed = 0;
        proof {
            assert(entries@.take(i as int) =~= entries@);
            let m = old(self)@.delayed;
            let keep2 = |entry: DelayedJob| s.jobs.contains_key(entry.job.value);
            let f2 = |entry: DelayedJob| model::rekeyed_delayed(entry, old(self)@.jobs);
            progress::lemma_filter_same(m, keep, keep2);
            lemma_image_same(m.filter(keep), f, f2);
        }
    }

    /// Drops the dead candidate entries and moves the others to the places
    /// of their renumbered jobs. Dead lane heads are dropped on the way.
    fn rekey_candidates(&mut self, Ghost(s): Ghost<SchedulerView>)
        requires
            old(self).wf(),
            old(self)@.jobs.dom() == s.jobs.dom(),
            old(self)@.lanes == s.lanes,
            old(self)@.candidates == s.candidates,
        ensures
            final(self).wf(),
            final(self)@ == (SchedulerView {
                candidates: model::image(
                    s.candidates.filter(
                        |key: CandidateKey|
                            model::reference_alive(key.reference, s.jobs, s.lanes),
                    ),
                    |key: CandidateKey| model::rekeyed_candidate(key, old(self)@.jobs, s.lanes),
                ),
                lanes: s.rebased_lanes(),
                ..old(self)@
            }),
    {
        let ghost jobs = self@.jobs;
        let ghost keep = |key: CandidateKey|
            model::reference_alive(key.reference, s.jobs, s.lanes);
        let ghost f = |key: CandidateKey| model::rekeyed_candidate(key, jobs, s.lanes);
        assert(forall|k: u64| s.jobs.contains_key(k) <==> #[trigger] jobs.contains_key(k)) by {
            assert(forall|k: u64| s.jobs.dom().contains(k) <==> #[trigger] jobs.dom().contains(k));
        }
        let entries = self.candidates.take_all();
        let mut rebuilt: Heap<CandidateKey> = Heap::new();
        let mut i: usize = 0;
        proof {
            lemma_image_of_nothing(entries@, keep, f);
            assert(lanes_after(s, entries@, 0, self@.lanes));
        }
        while i < entries.len()
            invariant
                i <= entries@.len(),
                rebuilt.wf(),
                self.wf(),
                jobs == self.jobs@,
                jobs == old(self)@.jobs,
                jobs.dom() == s.jobs.dom(),
                forall|k: u64| s.jobs.contains_key(k) <==> #[trigger] jobs.contains_key(k),
                self@ == (SchedulerView {
                    candidates: Multiset::empty(),
                    lanes: self@.lanes,
                    ..old(self)@
                }),
                lanes_after(s, entries@, i as int, self@.lanes),
                keep == (|key: CandidateKey|
                    model::reference_alive(key.reference, s.jobs, s.lanes)),
                f == (|key: CandidateKey| model::rekeyed_candidate(key, jobs, s.lanes)),
                rebuilt@ == model::image(entries@.take(i as int).to_multiset().filter(keep), f),
            decreases entries@.len() - i,
        {
            let mut key = entries[i];
            let ghost before = self@.lanes;
            proof {
                lemma_image_prefix(entries@, i as int, keep, f);
            }
            match key.reference {
                CandidateRef::Job(id) => {
                    proof {
                        assert(s.jobs.contains_key(id.value) <==> jobs.contains_key(id.value));
                        lemma_prefix_of_job(s, entries@, i as int, before);
                    }
                    if let Some(job) = self.jobs.get(id.value) {
                        key.sequence = job.sequence;
                        rebuilt.push(key);
                    }
                },
                CandidateRef::Lane(lane_key) => {
                    proof {
                        let k = lane_key.value;
                        assert(lane_key == OutboundLaneKey { value: k });
                        assert(before.contains_key(k) ==> s.lanes.contains_key(k));
                        if before.contains_key(k) {
                            lemma_lane_step(s, jobs, k, before[k]);
                            lane::lemma_drop_dead_is_suffix(s.lanes[k].pending, jobs);
                        } else if s.lanes.contains_key(k) {
                            lemma_live_head(s.lanes[k].pending, s.jobs);
                        }
                    }
                    if let Some(mut l) = self.lanes.remove(lane_key.value) {
                        l.drain(&self.jobs);
                        let head = match l.first() {
                            Some(entry) => match self.jobs.get(entry.1.value) {
                                Some(job) => Some(job.sequence),
                                None => None,
                            },
                            None => None,
                        };
                        match head {
                            Some(sequence) => {
                                key.sequence = sequence;
                                rebuilt.push(key);
                                self.lanes.insert(lane_key.value, l);
                            },
                            None => {
                                l.in_candidate_heap = false;
                                l.candidate_effective = 0;
                                if l.in_flight.is_some() {
                                    self.lanes.insert(lane_key.value, l);
                                }
                            },
                        }
                    } else {
                        assert(self@.lanes =~= before);
                    }
                    proof {
                        lemma_prefix_of_lane(
                            s,
                            entries@,
                            i as int,
                            lane_key.value,
                            before,
                            self@.lanes,
                        );
                    }
                },
            }
            i = i + 1;
        }
        self.candidates = rebuilt;
        proof {
            assert(entries@.take(i as int) =~= entries@);
            let keep2 = |key: CandidateKey|
                model::reference_alive(key.reference, s.jobs, s.lanes);
            let f2 = |key: CandidateKey| model::rekeyed_candidate(key, jobs, s.lanes);
            progress::lemma_filter_same(s.candidates, keep, keep2);
            lemma_image_same(s.candidates.filter(keep), f, f2);
            lemma_lanes_settled(s, entries@, self@.lanes);
        }
    }

    /// Numbers all sequences from zero, in their present order. A live job
    /// holds sequence zero while the counter is about to wrap, so moving
    /// everything down would not make room.
    fn rebase_dense(&mut self, keys: &Vec<u64>)
        requires
            old(self).wf(),
            lists(keys@, old(self).jobs@),
            keys@.len() > 0,
            keys@.len() == old(self).jobs@.dom().len(),
            model::least_sequence(old(self).jobs@) == 0,
        ensures
            final(self).wf(),
            final(self)@ == old(self)@.rebase_sequences(),
    {
        let ghost s = self@;
        self.rank_jobs(keys);
        assert(self@.jobs.dom() =~= s.jobs.dom());
        self.rekey_delayed(Ghost(s));
        self.rekey_candidates(Ghost(s));
        self.next_sequence = keys.len() as u64;
        proof {
            let jobs = model::ranked_jobs(s.jobs);
            let keep = |entry: DelayedJob| s.jobs.contains_key(entry.job.value);
            let f = |entry: DelayedJob| model::rekeyed_delayed(entry, jobs);
            let keep_key = |key: CandidateKey|
                model::reference_alive(key.reference, s.jobs, s.lanes);
            let g = |key: CandidateKey| model::rekeyed_candidate(key, jobs, s.lanes);
            lemma_dense_goal(s, self@, keep, f, keep_key, g);
        }
    }

    /// Issues the next sequence number.
    pub fn take_sequence(&mut self) -> (r: u64)
        requires
            old(self).wf(),
        ensures
            final(self).wf(),
            final(self)@ == old(self)@.take_sequence(),
            r == old(self)@.ready_sequence().next_sequence,
    {
        if self.next_sequence == u64::MAX {
            self.rebase_sequences();
        }
        let sequence: u64 = self.next_sequence;
        if sequence == u64::MAX {
            self.next_sequence = 0;
        } else {
            self.next_sequence = sequence + 1;
        }
        assert(self@ =~= old(self)@.take_sequence());
        sequence
    }
}

proof fn lemma_jobs_agree(
    keys: Seq<u64>,
    before: Map<u64, Job>,
    after: Map<u64, Job>,
    goal: Map<u64, Job>,
)
    requires
        lists(keys, before),
        goal.dom() == before.dom(),
        forall|k: u64| #[trigger] after.contains_key(k) <==> before.contains_key(k),
        forall|j: int| 0 <= j < keys.len() ==> after[#[trigger] keys[j]] == goal[keys[j]],
    ensures
        after == goal,
{
    assert forall|k: u64|
        #[trigger] after.dom().contains(k) == goal.dom().contains(k) && (after.dom().contains(k)
            ==> after[k] == goal[k]) by {
        assert(after.contains_key(k) <==> before.contains_key(k));
        if before.contains_key(k) {
            assert(keys.contains(k));
            let j = choose|j: int| 0 <= j < keys.len() && keys[j] == k;
            assert(after[keys[j]] == goal[keys[j]]);
        }
    }
    assert(after =~= goal);
}

proof fn lemma_shift_goal(s: SchedulerView, least: u64)
    requires
        least == model::least_sequence(s.jobs),
        least > 0,
        s.jobs.dom().len() > 0,
    ensures
        s.rebase_sequences() == (SchedulerView {
            jobs: s.jobs.map_values(
                |job: Job| Job { sequence: model::shifted(job.sequence, least), ..job },
            ),
            delayed: model::image(
                s.delayed,
                |entry: DelayedJob|
                    DelayedJob { sequence: model::shifted(entry.sequence, least), ..entry },
            ),
            candidates: model::image(
                s.candidates,
                |key: CandidateKey|
                    CandidateKey { sequence: model::shifted(key.sequence, least), ..key },
            ),
            next_sequence: (model::greatest_sequence(s.jobs) - least + 1) as u64,
            ..s
        }),
{
    let goal = s.rebase_sequences();
    assert(goal.jobs =~= s.jobs.map_values(
        |job: Job| Job { sequence: model::shifted(job.sequence, least), ..job },
    ));
    lemma_image_same(
        s.delayed,
        |entry: DelayedJob|
            DelayedJob { sequence: model::shifted(entry.sequence, least), ..entry },
        |entry: DelayedJob|
            DelayedJob {
                sequence: model::shifted(entry.sequence, model::least_sequence(s.jobs)),
                ..entry
            },
    );
    lemma_image_same(
        s.candidates,
        |key: CandidateKey|
            CandidateKey { sequence: model::shifted(key.sequence, least), ..key },
        |key: CandidateKey|
            CandidateKey {
                sequence: model::shifted(key.sequence, model::least_sequence(s.jobs)),
                ..key
            },
    );
}

proof fn lemma_dense_goal(
    s: SchedulerView,
    end: SchedulerView,
    keep: spec_fn(DelayedJob) -> bool,
    f: spec_fn(DelayedJob) -> DelayedJob,
    keep_key: spec_fn(CandidateKey) -> bool,
    g: spec_fn(CandidateKey) -> CandidateKey,
)
    requires
        s.jobs.dom().len() > 0,
        model::least_sequence(s.jobs) == 0,
        forall|x: DelayedJob| #[trigger] keep(x) == s.jobs.contains_key(x.job.value),
        forall|x: DelayedJob| #[trigger]
            f(x) == model::rekeyed_delayed(x, model::ranked_jobs(s.jobs)),
        forall|x: CandidateKey| #[trigger]
            keep_key(x) == model::reference_alive(x.reference, s.jobs, s.lanes),
        forall|x: CandidateKey| #[trigger]
            g(x) == model::rekeyed_candidate(x, model::ranked_jobs(s.jobs), s.lanes),
        end == (SchedulerView {
            jobs: model::ranked_jobs(s.jobs),
            delayed: end.delayed,
            stale_delayed: 0,
            candidates: end.candidates,
            lanes: s.rebased_lanes(),
            next_sequence: s.jobs.dom().len() as u64,
            ..s
        }),
        end.delayed == model::image(s.delayed.filter(keep), f),
        end.candidates == model::image(s.candidates.filter(keep_key), g),
    ensures
        end == s.rebase_sequences(),
{
    let goal = s.rebase_sequences();
    let jobs = model::ranked_jobs(s.jobs);
    let keep2 = |entry: DelayedJob| s.jobs.contains_key(entry.job.value);
    let f2 = |entry: DelayedJob| model::rekeyed_delayed(entry, jobs);
    progress::lemma_filter_same(s.delayed, keep, keep2);
    lemma_image_same(s.delayed.filter(keep), f, f2);
    let keep_key2 = |key: CandidateKey|
        model::reference_alive(key.reference, s.jobs, s.lanes);
    let g2 = |key: CandidateKey| model::rekeyed_candidate(key, jobs, s.lanes);
    progress::lemma_filter_same(s.candidates, keep_key, keep_key2);
    lemma_image_same(s.candidates.filter(keep_key), g, g2);
    assert(end =~= goal);
}

proof fn lemma_prefix_of_job(
    s: SchedulerView,
    entries: Seq<CandidateKey>,
    i: int,
    lanes: Map<u64, LaneView>,
)
    requires
        0 <= i < entries.len(),
        entries[i].reference is Job,
        lanes_after(s, entries, i, lanes),
    ensures
        lanes_after(s, entries, i + 1, lanes),
{
    assert forall|key: u64| in_prefix(entries, i + 1, key) == in_prefix(entries, i, key) by {
        if in_prefix(entries, i + 1, key) {
            let j = choose|j: int|
                0 <= j < i + 1 && (#[trigger] entries[j]).reference == CandidateRef::Lane(
                    OutboundLaneKey { value: key },
                );
            assert(j != i);
        }
    }
}

proof fn lemma_prefix_of_lane(
    s: SchedulerView,
    entries: Seq<CandidateKey>,
    i: int,
    key: u64,
    before: Map<u64, LaneView>,
    after: Map<u64, LaneView>,
)
    requires
        0 <= i < entries.len(),
        entries[i].reference == CandidateRef::Lane(OutboundLaneKey { value: key }),
        lanes_after(s, entries, i, before),
        forall|k: u64|
            k != key ==> (#[trigger] after.contains_key(k) <==> before.contains_key(k)) && (
            before.contains_key(k) ==> after[k] == before[k]),
        !s.lanes.contains_key(key) ==> !after.contains_key(key),
        s.lanes.contains_key(key) ==> if !lane::has_live(s.lanes[key].pending, s.jobs)
            && s.lanes[key].in_flight is None {
            !after.contains_key(key)
        } else {
            after.contains_key(key) && after[key] == settled(s, key)
        },
    ensures
        lanes_after(s, entries, i + 1, after),
{
    assert(in_prefix(entries, i + 1, key)) by {
        assert(entries[i].reference == CandidateRef::Lane(OutboundLaneKey { value: key }));
    }
    assert forall|k: u64| k != key implies in_prefix(entries, i + 1, k) == in_prefix(
        entries,
        i,
        k,
    ) by {
        if in_prefix(entries, i + 1, k) {
            let j = choose|j: int|
                0 <= j < i + 1 && (#[trigger] entries[j]).reference == CandidateRef::Lane(
                    OutboundLaneKey { value: k },
                );
            assert(j != i);
        }
    }
    assert forall|k: u64|
        #![trigger after.contains_key(k)]
        if in_prefix(entries, i + 1, k) && s.lanes.contains_key(k) {
            let live = lane::has_live(s.lanes[k].pending, s.jobs);
            if !live && s.lanes[k].in_flight is None {
                !after.contains_key(k)
            } else {
                after.contains_key(k) && after[k] == settled(s, k)
            }
        } else {
            (after.contains_key(k) <==> s.lanes.contains_key(k)) && (after.contains_key(k)
                ==> after[k] == s.lanes[k])
        } by {
        if k != key {
            assert(in_prefix(entries, i + 1, k) == in_prefix(entries, i, k));
            assert(after.contains_key(k) <==> before.contains_key(k));
        }
    }
}

/// What dealing with a lane's entry makes of the lane, whether or not an
/// earlier entry of the lane has been dealt with.
proof fn lemma_lane_step(s: SchedulerView, jobs: Map<u64, Job>, key: u64, held: LaneView)
    requires
        jobs.dom() == s.jobs.dom(),
        held == s.lanes[key] || held == settled(s, key),
    ensures
        held.drained(jobs).pending == lane::drop_dead(s.lanes[key].pending, s.jobs),
        lane::drop_dead(s.lanes[key].pending, jobs) == lane::drop_dead(
            s.lanes[key].pending,
            s.jobs,
        ),
        held.in_flight == s.lanes[key].in_flight,
        lane::has_live(s.lanes[key].pending, s.jobs) <==> lane::drop_dead(
            s.lanes[key].pending,
            s.jobs,
        ).len() > 0,
        lane::has_live(s.lanes[key].pending, s.jobs) ==> held.drained(jobs) == settled(s, key),
        !lane::has_live(s.lanes[key].pending, s.jobs) ==> (LaneView {
            in_candidate_heap: false,
            candidate_effective: 0,
            ..held.drained(jobs)
        }) == settled(s, key),
{
    let l = s.lanes[key];
    lemma_drained_same(l, s.jobs, jobs);
    lemma_live_head(l.pending, s.jobs);
    progress::lemma_drop_dead_same(l.pending, s.jobs, jobs);
    lane::lemma_drop_dead_is_idempotent(l.pending, s.jobs);
    progress::lemma_drop_dead_same(lane::drop_dead(l.pending, s.jobs), s.jobs, jobs);
}

proof fn lemma_lanes_settled(
    s: SchedulerView,
    entries: Seq<CandidateKey>,
    lanes: Map<u64, LaneView>,
)
    requires
        entries.to_multiset() == s.candidates,
        lanes_after(s, entries, entries.len() as int, lanes),
    ensures
        lanes == s.rebased_lanes(),
{
    broadcast use vstd::seq_lib::group_to_multiset_ensures;

    let goal = s.rebased_lanes();
    assert forall|key: u64| in_prefix(entries, entries.len() as int, key) == s.is_referenced(
        key,
    ) by {
        if in_prefix(entries, entries.len() as int, key) {
            let j = choose|j: int|
                0 <= j < entries.len() && (#[trigger] entries[j]).reference
                    == CandidateRef::Lane(OutboundLaneKey { value: key });
            assert(entries.contains(entries[j]));
            assert(s.candidates.contains(entries[j]));
        }
        if s.is_referenced(key) {
            let entry = choose|entry: CandidateKey| #[trigger]
                s.candidates.contains(entry) && entry.reference == CandidateRef::Lane(
                    OutboundLaneKey { value: key },
                );
            assert(entries.contains(entry));
            let j = choose|j: int| 0 <= j < entries.len() && entries[j] == entry;
            assert(entries[j].reference == entry.reference);
        }
    }
    assert forall|key: u64|
        #[trigger] lanes.dom().contains(key) == goal.dom().contains(key) && (lanes.dom().contains(
            key,
        ) ==> lanes[key] == goal[key]) by {
        assert(lanes.contains_key(key) || !lanes.contains_key(key));
        assert(in_prefix(entries, entries.len() as int, key) == s.is_referenced(key));
    }
    assert(lanes =~= goal);
}

} // verus!
