//! The invariant across renumbering and enqueueing.

use super::entries::{CandidateKey, CandidateRef, CoalesceKey, DelayedJob, Job};
use super::model::SchedulerView;
use super::{lane, model, soundness};
use crate::types::{JobId, OutboundLaneKey};
use vstd::multiset::Multiset;
use vstd::prelude::*;

verus! {

broadcast use vstd::multiset::group_multiset_axioms;

/// What an image holds comes from what it is the image of.
pub proof fn lemma_image_contains<A, B>(m: Multiset<A>, f: spec_fn(A) -> B, y: B)
    requires
        model::image(m, f).contains(y),
    ensures
        exists|x: A| #[trigger] m.contains(x) && f(x) == y,
    decreases m.len(),
{
    if m.len() > 0 {
        let x = m.choose();
        assert(m.contains(x));
        model::lemma_remove_shrinks(m, x);
        if f(x) != y {
            assert(model::image(m.remove(x), f).contains(y));
            lemma_image_contains(m.remove(x), f, y);
            let z = choose|z: A| #[trigger] m.remove(x).contains(z) && f(z) == y;
            assert(m.contains(z));
        }
    }
}

/// What is held has its image held.
pub proof fn lemma_image_holds<A, B>(m: Multiset<A>, f: spec_fn(A) -> B, x: A)
    requires
        m.contains(x),
    ensures
        model::image(m, f).contains(f(x)),
    decreases m.len(),
{
    let z = m.choose();
    assert(m.contains(z));
    model::lemma_remove_shrinks(m, z);
    if z != x {
        assert(m.remove(z).contains(x));
        lemma_image_holds(m.remove(z), f, x);
    }
}

/// A smaller sequence has a smaller rank, and a rank is below the number of
/// jobs.
pub proof fn lemma_rank_is_monotone(jobs: Map<u64, Job>, a: u64, b: u64)
    requires
        jobs.dom().finite(),
        jobs.contains_key(a),
        jobs.contains_key(b),
        jobs[a].sequence < jobs[b].sequence,
    ensures
        model::sequence_rank(jobs, jobs[a].sequence) < model::sequence_rank(
            jobs,
            jobs[b].sequence,
        ),
{
    let low = jobs.dom().filter(|k: u64| jobs[k].sequence < jobs[a].sequence);
    let high = jobs.dom().filter(|k: u64| jobs[k].sequence < jobs[b].sequence);
    assert(high.contains(a));
    assert(!low.contains(a));
    assert(low.insert(a).subset_of(high));
    vstd::set_lib::lemma_len_subset(low.insert(a), high);
}

pub proof fn lemma_rank_is_bounded(jobs: Map<u64, Job>, a: u64)
    requires
        jobs.dom().finite(),
        jobs.contains_key(a),
    ensures
        model::sequence_rank(jobs, jobs[a].sequence) < jobs.dom().len(),
{
    let low = jobs.dom().filter(|k: u64| jobs[k].sequence < jobs[a].sequence);
    assert(!low.contains(a));
    assert(low.insert(a).subset_of(jobs.dom()));
    vstd::set_lib::lemma_len_subset(low.insert(a), jobs.dom());
}

/// There are at most as many waiting jobs as ids have been issued.
pub proof fn lemma_few_jobs(jobs: Map<u64, Job>, bound: u64)
    requires
        jobs.dom().finite(),
        forall|k: u64| #[trigger] jobs.contains_key(k) ==> k < bound,
    ensures
        jobs.dom().len() <= bound,
{
    let all = Set::new(|k: u64| k < bound);
    lemma_ids_below(bound);
    assert(jobs.dom().subset_of(all)) by {
        assert forall|k: u64| jobs.dom().contains(k) implies all.contains(k) by {
            assert(jobs.contains_key(k));
        }
    }
    vstd::set_lib::lemma_len_subset(jobs.dom(), all);
}

proof fn lemma_ids_below(bound: u64)
    ensures
        Set::new(|k: u64| k < bound).finite(),
        Set::new(|k: u64| k < bound).len() == bound,
    decreases bound,
{
    let all = Set::new(|k: u64| k < bound);
    if bound == 0 {
        assert(all =~= Set::empty());
    } else {
        let before = (bound - 1) as u64;
        lemma_ids_below(before);
        assert(all =~= Set::new(|k: u64| k < before).insert(before));
    }
}

impl SchedulerView {
    /// The least and the greatest sequence exist if a job waits.
    pub proof fn lemma_extremes_exist(self)
        requires
            self.jobs.dom().finite(),
            self.jobs.dom().len() > 0,
        ensures
            model::is_least_sequence(self.jobs, model::least_sequence(self.jobs)),
            model::is_greatest_sequence(self.jobs, model::greatest_sequence(self.jobs)),
    {
        lemma_extremes(self.jobs, self.jobs.dom());
        let least = choose|s: u64| least_in(self.jobs, self.jobs.dom(), s);
        let greatest = choose|s: u64| greatest_in(self.jobs, self.jobs.dom(), s);
        assert(least_in(self.jobs, self.jobs.dom(), least));
        assert(greatest_in(self.jobs, self.jobs.dom(), greatest));
        assert(forall|k: u64| #[trigger]
            self.jobs.contains_key(k) <==> self.jobs.dom().contains(k));
        let a = choose|k: u64| #[trigger]
            self.jobs.dom().contains(k) && self.jobs[k].sequence == least;
        assert(self.jobs.contains_key(a));
        let b = choose|k: u64| #[trigger]
            self.jobs.dom().contains(k) && self.jobs[k].sequence == greatest;
        assert(self.jobs.contains_key(b));
        assert(model::is_least_sequence(self.jobs, least));
        assert(model::is_greatest_sequence(self.jobs, greatest));
    }
}

spec fn least_in(jobs: Map<u64, Job>, keys: Set<u64>, s: u64) -> bool {
    &&& exists|k: u64| #[trigger] keys.contains(k) && jobs[k].sequence == s
    &&& forall|k: u64| #[trigger] keys.contains(k) ==> s <= jobs[k].sequence
}

spec fn greatest_in(jobs: Map<u64, Job>, keys: Set<u64>, s: u64) -> bool {
    &&& exists|k: u64| #[trigger] keys.contains(k) && jobs[k].sequence == s
    &&& forall|k: u64| #[trigger] keys.contains(k) ==> jobs[k].sequence <= s
}

proof fn lemma_extremes(jobs: Map<u64, Job>, keys: Set<u64>)
    requires
        keys.finite(),
        keys.len() > 0,
    ensures
        exists|s: u64| least_in(jobs, keys, s),
        exists|s: u64| greatest_in(jobs, keys, s),
    decreases keys.len(),
{
    let k = keys.choose();
    let rest = keys.remove(k);
    let s = jobs[k].sequence;
    assert(keys.contains(k));
    if rest.len() == 0 {
        assert(rest =~= Set::empty());
        assert(forall|j: u64| #[trigger] keys.contains(j) ==> j == k) by {
            assert forall|j: u64| #[trigger] keys.contains(j) implies j == k by {
                if j != k {
                    assert(rest.contains(j));
                }
            }
        }
        assert(least_in(jobs, keys, s));
        assert(greatest_in(jobs, keys, s));
    } else {
        lemma_extremes(jobs, rest);
        let low = choose|t: u64| least_in(jobs, rest, t);
        let high = choose|t: u64| greatest_in(jobs, rest, t);
        let a = choose|j: u64| #[trigger] rest.contains(j) && jobs[j].sequence == low;
        let b = choose|j: u64| #[trigger] rest.contains(j) && jobs[j].sequence == high;
        assert(keys.contains(a));
        assert(keys.contains(b));
        let least = if s < low {
            s
        } else {
            low
        };
        let greatest = if s > high {
            s
        } else {
            high
        };
        assert forall|j: u64| #[trigger] keys.contains(j) implies least <= jobs[j].sequence
            <= greatest by {
            if j != k {
                assert(rest.contains(j));
            }
        }
        assert(least_in(jobs, keys, least));
        assert(greatest_in(jobs, keys, greatest));
    }
}

impl SchedulerView {
    /// The lanes stay in order if they only lose dead head entries, or go
    /// away when they are free and nobody waits in them.
    pub proof fn lemma_thinner_lanes(self, after: SchedulerView)
        requires
            self.lanes_inv(),
            after.in_flight == self.in_flight,
            after.next_job_id == self.next_job_id,
            after.jobs.dom() == self.jobs.dom(),
            forall|k: u64| #[trigger]
                after.jobs.contains_key(k) ==> after.jobs[k].meta == self.jobs[k].meta
                    && after.jobs[k].lane_order == self.jobs[k].lane_order,
            forall|key: u64| #[trigger]
                after.lanes.contains_key(key) ==> {
                    &&& self.lanes.contains_key(key)
                    &&& after.lanes[key].in_flight == self.lanes[key].in_flight
                    &&& after.lanes[key].next_order == self.lanes[key].next_order
                    &&& after.lanes[key].pending == self.lanes[key].pending
                        || after.lanes[key].pending == lane::drop_dead(
                        self.lanes[key].pending,
                        self.jobs,
                    )
                },
            forall|key: u64| #[trigger]
                self.lanes.contains_key(key) && !after.lanes.contains_key(key)
                    ==> self.lanes[key].in_flight is None && lane::drop_dead(
                    self.lanes[key].pending,
                    self.jobs,
                ).len() == 0,
        ensures
            after.lanes_inv(),
    {
        assert forall|k: u64| after.jobs.contains_key(k) <==> #[trigger] self.jobs.contains_key(
            k,
        ) by {
            assert(after.jobs.dom().contains(k) <==> self.jobs.dom().contains(k));
        }
        assert forall|key: u64| #[trigger] after.lanes.contains_key(key) implies after.lane_ok(
            key,
        ) by {
            assert(self.lane_ok(key));
            let held = self.lanes[key].pending;
            lane::lemma_drop_dead_is_suffix(held, self.jobs);
            let l = after.lanes[key];
            let cut = held.len() - l.pending.len();
            assert forall|i: int| 0 <= i < l.pending.len() implies #[trigger] l.pending[i]
                == held[i + cut] by {}
            assert forall|i: int| 0 <= i < l.pending.len() implies {
                let entry = #[trigger] l.pending[i];
                &&& entry.1.value < after.next_job_id
                &&& l.next_order != 0 ==> entry.0 < l.next_order
                &&& after.jobs.contains_key(entry.1.value) ==> {
                    &&& after.jobs[entry.1.value].meta.lane == Some(OutboundLaneKey { value: key })
                    &&& after.jobs[entry.1.value].lane_order == Some(entry.0)
                }
            } by {
                let entry = held[i + cut];
                assert(self.jobs.contains_key(entry.1.value) <==> after.jobs.contains_key(
                    entry.1.value,
                ));
            }
        }
        assert forall|id: u64| #[trigger] after.jobs.contains_key(id) implies after.member_ok(
            id,
        ) by {
            assert(self.jobs.contains_key(id));
            assert(self.member_ok(id));
            if let Some(key) = self.jobs[id].meta.lane {
                let held = self.lanes[key.value].pending;
                lane::lemma_drop_dead_is_suffix(held, self.jobs);
                let entry = (self.jobs[id].lane_order->0, JobId { value: id });
                let i = choose|i: int| 0 <= i < held.len() && held[i] == entry;
                let rest = lane::drop_dead(held, self.jobs);
                let cut = held.len() - rest.len();
                assert(i >= cut) by {
                    if i < cut {
                        assert(!self.jobs.contains_key(held[i].1.value));
                    }
                }
                assert(rest[i - cut] == entry);
                assert(self.lanes.contains_key(key.value));
                assert(after.lanes.contains_key(key.value));
            }
        }
        assert forall|id: u64| #[trigger] after.in_flight.contains_key(id) implies after.flight_ok(
            id,
        ) by {
            assert(self.flight_ok(id));
            if let Some(key) = self.in_flight[id].lane {
                assert(self.lanes.contains_key(key.value));
                assert(after.lanes.contains_key(key.value));
            }
        }
    }

    /// The invariant survives renumbering, and the counter has room again.
    pub proof fn lemma_rebase_inv(self)
        requires
            self.inv(),
            self.next_job_id < u64::MAX,
        ensures
            self.rebase_sequences().inv(),
            self.rebase_sequences().next_sequence < u64::MAX,
            self.rebase_sequences().next_job_id == self.next_job_id,
            self.rebase_sequences().jobs.dom() == self.jobs.dom(),
            forall|k: u64| #[trigger]
                self.jobs.contains_key(k) ==> self.rebase_sequences().jobs[k] == (Job {
                    sequence: self.rebase_sequences().jobs[k].sequence,
                    ..self.jobs[k]
                }),
            forall|a: u64, b: u64|
                #![trigger self.jobs.contains_key(a), self.jobs.contains_key(b)]
                self.jobs.contains_key(a) && self.jobs.contains_key(b) ==> (
                self.jobs[a].sequence < self.jobs[b].sequence
                    <==> self.rebase_sequences().jobs[a].sequence
                    < self.rebase_sequences().jobs[b].sequence),
    {
        let after = self.rebase_sequences();
        lemma_few_jobs(self.jobs, self.next_job_id);
        if self.jobs.dom().len() == 0 {
            assert(self.jobs.dom() =~= Set::empty());
            assert(forall|k: u64| !self.jobs.contains_key(k)) by {
                assert(forall|k: u64| self.jobs.contains_key(k) <==> self.jobs.dom().contains(k));
            }
            after.lemma_same_lanes(self);
            assert(forall|r: CandidateRef| self.ref_ok(r) ==> #[trigger] after.ref_ok(r));
        } else {
            self.lemma_extremes_exist();
            let least = model::least_sequence(self.jobs);
            if least == 0 {
                self.lemma_rebase_dense_inv();
            } else {
                self.lemma_rebase_shift_inv();
            }
        }
    }

    proof fn lemma_renumbered_parts(self, after: SchedulerView)
        requires
            self.inv(),
            after.jobs.dom() == self.jobs.dom(),
            forall|k: u64| #[trigger]
                self.jobs.contains_key(k) ==> after.jobs[k] == (Job {
                    sequence: after.jobs[k].sequence,
                    ..self.jobs[k]
                }),
            forall|a: u64, b: u64|
                #![trigger self.jobs.contains_key(a), self.jobs.contains_key(b)]
                self.jobs.contains_key(a) && self.jobs.contains_key(b) && self.jobs[a].sequence
                    < self.jobs[b].sequence ==> after.jobs[a].sequence < after.jobs[b].sequence,
            forall|a: u64| #[trigger]
                self.jobs.contains_key(a) ==> after.jobs[a].sequence < after.next_sequence,
            after.in_flight == self.in_flight,
            after.next_job_id == self.next_job_id,
            after.coalesce == self.coalesce,
            after.global_limits == self.global_limits,
            after.chat_limits == self.chat_limits,
            after.global_windows == self.global_windows,
            after.chat_window_sets == self.chat_window_sets,
            after.blocked == self.blocked,
            after.aging_events == self.aging_events,
            after.reservations == self.reservations,
            after.lanes_inv(),
            forall|key: CandidateKey| #[trigger]
                after.candidates.contains(key) ==> self.ref_ok(key.reference),
            forall|entry: DelayedJob| #[trigger]
                after.delayed.contains(entry) ==> exists|e: DelayedJob| #[trigger]
                    self.delayed.contains(e) && e.job == entry.job && e.not_before
                        == entry.not_before,
            forall|e: DelayedJob| #[trigger]
                self.delayed.contains(e) && self.jobs.contains_key(e.job.value) ==> soundness::has_entry(
                    after.delayed,
                    e.job.value,
                ),
        ensures
            after.inv(),
            forall|a: u64, b: u64|
                #![trigger self.jobs.contains_key(a), self.jobs.contains_key(b)]
                self.jobs.contains_key(a) && self.jobs.contains_key(b) ==> (
                self.jobs[a].sequence < self.jobs[b].sequence <==> after.jobs[a].sequence
                    < after.jobs[b].sequence),
    {
        assert forall|k: u64| #[trigger] after.jobs.contains_key(k) <==> self.jobs.contains_key(
            k,
        ) by {
            assert(after.jobs.dom().contains(k) <==> self.jobs.dom().contains(k));
        }
        assert(after.ids_inv());
        assert forall|r: CandidateRef| self.ref_ok(r) implies #[trigger] after.ref_ok(r) by {
            if let CandidateRef::Job(id) = r {
                assert(after.jobs.contains_key(id.value) <==> self.jobs.contains_key(id.value));
            }
        }
        assert(after.refs_inv());
        assert(after.slots_inv()) by {
            assert forall|k: u64| #[trigger] after.jobs.contains_key(k) implies (
            after.jobs[k].coalesce_key matches Some(slot) ==> {
                &&& after.coalesce.contains_key(slot)
                &&& after.coalesce[slot] == JobId { value: k }
                &&& slot.scope == after.jobs[k].meta.scope
                &&& slot.lane == after.jobs[k].meta.lane
                &&& slot.class == after.jobs[k].meta.class
            }) by {
                assert(self.jobs.contains_key(k));
            }
            assert forall|slot: CoalesceKey| #[trigger] after.coalesce.contains_key(slot) implies {
                &&& after.jobs.contains_key(after.coalesce[slot].value)
                &&& after.jobs[after.coalesce[slot].value].coalesce_key == Some(slot)
            } by {
                assert(self.coalesce.contains_key(slot));
            }
        }
        assert forall|a: u64, b: u64|
            #![trigger self.jobs.contains_key(a), self.jobs.contains_key(b)]
            self.jobs.contains_key(a) && self.jobs.contains_key(b) implies (
        self.jobs[a].sequence < self.jobs[b].sequence <==> after.jobs[a].sequence
            < after.jobs[b].sequence) by {
            if self.jobs[a].sequence >= self.jobs[b].sequence {
                if a == b {
                } else {
                    assert(self.jobs[b].sequence < self.jobs[a].sequence);
                }
            }
        }
        assert(after.sequences_inv()) by {
            assert forall|a: u64, b: u64|
                #![trigger after.jobs.contains_key(a), after.jobs.contains_key(b)]
                after.jobs.contains_key(a) && after.jobs.contains_key(b) && a != b implies
                after.jobs[a].sequence != after.jobs[b].sequence by {
                assert(self.jobs.contains_key(a) && self.jobs.contains_key(b));
            }
        }
        assert(after.delayed_inv()) by {
            assert forall|entry: DelayedJob| #[trigger] after.delayed.contains(entry) implies {
                &&& entry.job.value < after.next_job_id
                &&& after.jobs.contains_key(entry.job.value)
                    && after.jobs[entry.job.value].not_before is Some
                    ==> after.jobs[entry.job.value].not_before == Some(entry.not_before)
            } by {
                let e = choose|e: DelayedJob| #[trigger]
                    self.delayed.contains(e) && e.job == entry.job && e.not_before
                        == entry.not_before;
                assert(self.delayed.contains(e));
                assert(after.jobs.contains_key(e.job.value) <==> self.jobs.contains_key(
                    e.job.value,
                ));
            }
            assert forall|k: u64| #[trigger] after.jobs.contains_key(k)
                && after.jobs[k].not_before is Some implies soundness::has_entry(after.delayed, k) by {
                assert(self.jobs.contains_key(k));
                assert(soundness::has_entry(self.delayed, k));
                let e = choose|e: DelayedJob| #[trigger]
                    self.delayed.contains(e) && e.job.value == k;
                assert(soundness::has_entry(after.delayed, e.job.value));
            }
        }
        assert(after.weights_inv()) by {
            assert forall|k: u64| #[trigger] after.jobs.contains_key(k) implies {
                &&& model::too_small(after.global_limits, after.jobs[k].meta.weight@) is None
                &&& model::too_small_in_chat(
                    after.chat_limits,
                    after.jobs[k].meta.scope,
                    after.jobs[k].meta.weight@,
                ) is None
            } by {
                assert(self.jobs.contains_key(k));
            }
        }
    }

    proof fn lemma_rebase_shift_inv(self)
        requires
            self.inv(),
            self.next_job_id < u64::MAX,
            self.jobs.dom().len() > 0,
            model::is_least_sequence(self.jobs, model::least_sequence(self.jobs)),
            model::is_greatest_sequence(self.jobs, model::greatest_sequence(self.jobs)),
            model::least_sequence(self.jobs) > 0,
        ensures
            self.rebase_sequences().inv(),
            self.rebase_sequences().next_sequence < u64::MAX,
            self.rebase_sequences().jobs.dom() == self.jobs.dom(),
            forall|k: u64| #[trigger]
                self.jobs.contains_key(k) ==> self.rebase_sequences().jobs[k] == (Job {
                    sequence: self.rebase_sequences().jobs[k].sequence,
                    ..self.jobs[k]
                }),
            forall|a: u64, b: u64|
                #![trigger self.jobs.contains_key(a), self.jobs.contains_key(b)]
                self.jobs.contains_key(a) && self.jobs.contains_key(b) ==> (
                self.jobs[a].sequence < self.jobs[b].sequence
                    <==> self.rebase_sequences().jobs[a].sequence
                    < self.rebase_sequences().jobs[b].sequence),
    {
        let after = self.rebase_sequences();
        let least = model::least_sequence(self.jobs);
        let greatest = model::greatest_sequence(self.jobs);
        assert(after.jobs.dom() =~= self.jobs.dom());
        let top = choose|k: u64| #[trigger]
            self.jobs.contains_key(k) && self.jobs[k].sequence == greatest;
        assert(greatest < self.next_sequence);
        let f = |entry: DelayedJob|
            DelayedJob { sequence: model::shifted(entry.sequence, least), ..entry };
        let g = |key: CandidateKey|
            CandidateKey { sequence: model::shifted(key.sequence, least), ..key };
        super::rebase::lemma_image_same(
            self.delayed,
            f,
            |entry: DelayedJob|
                DelayedJob {
                    sequence: model::shifted(entry.sequence, model::least_sequence(self.jobs)),
                    ..entry
                },
        );
        super::rebase::lemma_image_same(
            self.candidates,
            g,
            |key: CandidateKey|
                CandidateKey {
                    sequence: model::shifted(key.sequence, model::least_sequence(self.jobs)),
                    ..key
                },
        );
        assert(after.delayed == model::image(self.delayed, f));
        assert(after.candidates == model::image(self.candidates, g));
        self.lemma_thinner_lanes(after);
        assert forall|key: CandidateKey| #[trigger]
            after.candidates.contains(key) implies self.ref_ok(key.reference) by {
            lemma_image_contains(self.candidates, g, key);
            let x = choose|x: CandidateKey| #[trigger]
                self.candidates.contains(x) && g(x) == key;
            assert(self.ref_ok(x.reference));
        }
        assert forall|entry: DelayedJob| #[trigger] after.delayed.contains(entry) implies exists|
            e: DelayedJob,
        | #[trigger]
            self.delayed.contains(e) && e.job == entry.job && e.not_before == entry.not_before by {
            lemma_image_contains(self.delayed, f, entry);
            let x = choose|x: DelayedJob| #[trigger] self.delayed.contains(x) && f(x) == entry;
            assert(self.delayed.contains(x));
        }
        assert forall|e: DelayedJob| #[trigger] self.delayed.contains(e) && self.jobs.contains_key(
            e.job.value,
        ) implies soundness::has_entry(after.delayed, e.job.value) by {
            lemma_image_holds(self.delayed, f, e);
            assert(after.delayed.contains(f(e)));
        }
        self.lemma_renumbered_parts(after);
    }

    proof fn lemma_rebase_dense_inv(self)
        requires
            self.inv(),
            self.next_job_id < u64::MAX,
            self.jobs.dom().len() > 0,
            model::least_sequence(self.jobs) == 0,
        ensures
            self.rebase_sequences().inv(),
            self.rebase_sequences().next_sequence < u64::MAX,
            self.rebase_sequences().jobs.dom() == self.jobs.dom(),
            forall|k: u64| #[trigger]
                self.jobs.contains_key(k) ==> self.rebase_sequences().jobs[k] == (Job {
                    sequence: self.rebase_sequences().jobs[k].sequence,
                    ..self.jobs[k]
                }),
            forall|a: u64, b: u64|
                #![trigger self.jobs.contains_key(a), self.jobs.contains_key(b)]
                self.jobs.contains_key(a) && self.jobs.contains_key(b) ==> (
                self.jobs[a].sequence < self.jobs[b].sequence
                    <==> self.rebase_sequences().jobs[a].sequence
                    < self.rebase_sequences().jobs[b].sequence),
    {
        let after = self.rebase_sequences();
        let jobs = model::ranked_jobs(self.jobs);
        lemma_few_jobs(self.jobs, self.next_job_id);
        assert(after.jobs.dom() =~= self.jobs.dom());
        assert forall|a: u64| #[trigger] self.jobs.contains_key(a) implies {
            &&& after.jobs[a].sequence == model::sequence_rank(self.jobs, self.jobs[a].sequence)
            &&& after.jobs[a].sequence < after.next_sequence
        } by {
            lemma_rank_is_bounded(self.jobs, a);
        }
        assert forall|a: u64, b: u64|
            #![trigger self.jobs.contains_key(a), self.jobs.contains_key(b)]
            self.jobs.contains_key(a) && self.jobs.contains_key(b) && self.jobs[a].sequence
                < self.jobs[b].sequence implies after.jobs[a].sequence
            < after.jobs[b].sequence by {
            lemma_rank_is_monotone(self.jobs, a, b);
        }
        let keep = |entry: DelayedJob| self.jobs.contains_key(entry.job.value);
        let f = |entry: DelayedJob| model::rekeyed_delayed(entry, jobs);
        let live = |key: CandidateKey|
            model::reference_alive(key.reference, self.jobs, self.lanes);
        let g = |key: CandidateKey| model::rekeyed_candidate(key, jobs, self.lanes);
        assert(after.delayed == model::image(self.delayed.filter(keep), f));
        assert(after.candidates == model::image(self.candidates.filter(live), g));
        assert(after.lanes == self.rebased_lanes());
        assert forall|key: u64| #[trigger] self.lanes.contains_key(key) implies (
        lane::has_live(self.lanes[key].pending, self.jobs) <==> lane::drop_dead(
            self.lanes[key].pending,
            self.jobs,
        ).len() > 0) by {
            lane::lemma_drop_dead_is_suffix(self.lanes[key].pending, self.jobs);
            let held = self.lanes[key].pending;
            let rest = lane::drop_dead(held, self.jobs);
            if rest.len() > 0 {
                assert(rest[0] == held[held.len() - rest.len()]);
                assert(self.jobs.contains_key(held[held.len() - rest.len()].1.value));
            }
        }
        self.lemma_thinner_lanes(after);
        assert forall|key: CandidateKey| #[trigger]
            after.candidates.contains(key) implies self.ref_ok(key.reference) by {
            lemma_image_contains(self.candidates.filter(live), g, key);
            let x = choose|x: CandidateKey| #[trigger]
                self.candidates.filter(live).contains(x) && g(x) == key;
            assert(self.candidates.contains(x));
            assert(self.ref_ok(x.reference));
        }
        assert forall|entry: DelayedJob| #[trigger] after.delayed.contains(entry) implies exists|
            e: DelayedJob,
        | #[trigger]
            self.delayed.contains(e) && e.job == entry.job && e.not_before == entry.not_before by {
            lemma_image_contains(self.delayed.filter(keep), f, entry);
            let x = choose|x: DelayedJob| #[trigger]
                self.delayed.filter(keep).contains(x) && f(x) == entry;
            assert(self.delayed.contains(x));
        }
        assert forall|e: DelayedJob| #[trigger] self.delayed.contains(e) && self.jobs.contains_key(
            e.job.value,
        ) implies soundness::has_entry(after.delayed, e.job.value) by {
            assert(self.delayed.filter(keep).contains(e));
            lemma_image_holds(self.delayed.filter(keep), f, e);
            assert(after.delayed.contains(f(e)));
        }
        self.lemma_renumbered_parts(after);
    }

    /// The state in which a sequence number is issued: the counter has room
    /// and is above every sequence in use.
    pub proof fn lemma_ready_sequence_inv(self)
        requires
            self.inv(),
            self.next_job_id < u64::MAX,
        ensures
            self.ready_sequence().inv(),
            self.ready_sequence().next_sequence < u64::MAX,
            self.ready_sequence().next_job_id == self.next_job_id,
            self.ready_sequence().jobs.dom() == self.jobs.dom(),
            forall|k: u64| #[trigger]
                self.jobs.contains_key(k) ==> self.ready_sequence().jobs[k] == (Job {
                    sequence: self.ready_sequence().jobs[k].sequence,
                    ..self.jobs[k]
                }),
    {
        if self.next_sequence == u64::MAX {
            self.lemma_rebase_inv();
        }
    }

    pub proof fn lemma_take_sequence_inv(self)
        requires
            self.inv(),
            self.next_job_id < u64::MAX,
        ensures
            self.take_sequence().inv(),
            self.take_sequence().next_sequence == self.ready_sequence().next_sequence + 1,
    {
        self.lemma_ready_sequence_inv();
        let ready = self.ready_sequence();
        let after = self.take_sequence();
        after.lemma_same_lanes(ready);
        assert(forall|r: CandidateRef| ready.ref_ok(r) ==> #[trigger] after.ref_ok(r));
    }
}

} // verus!
