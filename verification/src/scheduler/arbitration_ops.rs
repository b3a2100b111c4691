//! Every operation keeps the candidate entries in rank.

use super::entries::{AgingEvent, CandidateKey, CandidateRef, DelayedJob, Job};
use super::model::{ReservationView, SchedulerView};
use super::{arbitration, entries, lane, laws, model, progress, soundness_enqueue, wakeups};
use crate::heap;
use crate::time::Instant;
use crate::types::{
    JobId, OutboundCompletion, OutboundEnqueueMode, OutboundLaneKey, OutboundLimits, OutboundMeta,
};
use vstd::multiset::Multiset;
use vstd::prelude::*;

verus! {

broadcast use vstd::multiset::group_multiset_axioms;

// As many items of an image have a property as items it is the image of.
proof fn lemma_image_filter<A, B>(
    m: Multiset<A>,
    f: spec_fn(A) -> B,
    p: spec_fn(A) -> bool,
    q: spec_fn(B) -> bool,
)
    requires
        forall|x: A| #[trigger] m.contains(x) ==> q(f(x)) == p(x),
    ensures
        model::image(m, f).filter(q).len() == m.filter(p).len(),
    decreases m.len(),
{
    if m.len() == 0 {
        assert(m =~= Multiset::empty());
        assert(m.filter(p) =~= Multiset::empty());
        assert(model::image(m, f).filter(q) =~= Multiset::<B>::empty());
    } else {
        let x = m.choose();
        assert(m.contains(x));
        let rest = m.remove(x);
        model::lemma_remove_shrinks(m, x);
        assert forall|y: A| #[trigger] rest.contains(y) implies q(f(y)) == p(y) by {
            assert(m.contains(y));
        }
        lemma_image_filter(rest, f, p, q);
        progress::lemma_filter_remove(m, p, x);
        progress::lemma_filter_insert(model::image(rest, f), q, f(x));
        assert(model::image(m, f) == model::image(rest, f).insert(f(x)));
    }
}

impl SchedulerView {
    /// Whether the unlaned candidates are in rank at `now`, and every delayed
    /// job waits once.
    pub open spec fn in_rank(self, now: Instant) -> bool {
        self.ranked_by(now) && self.delayed_once()
    }

    pub proof fn lemma_fresh_in_rank(
        limits: OutboundLimits,
        aging: crate::types::AgingPolicy,
        now: Instant,
    )
        ensures
            SchedulerView::fresh(limits, aging).in_rank(now),
    {
        let fresh = SchedulerView::fresh(limits, aging);
        assert forall|id: u64| (#[trigger] fresh.delays_of(id)).len() <= 1 by {
            assert(fresh.delays_of(id) =~= Multiset::empty());
        }
    }

    pub proof fn lemma_in_rank_frame(self, after: SchedulerView, now: Instant)
        requires
            self.in_rank(now),
            after.aging == self.aging,
            after.delayed.subset_of(self.delayed),
            forall|id: u64| #[trigger]
                after.jobs.contains_key(id) ==> self.jobs.contains_key(id) && after.jobs[id]
                    == self.jobs[id],
            forall|k: CandidateKey| #[trigger]
                after.candidates.contains(k) ==> self.candidates.contains(k)
                    || k.reference is Lane,
            forall|e: AgingEvent| #[trigger]
                self.aging_events.contains(e) && e.reference is Job && after.is_candidate(
                    e.reference,
                ) ==> after.aging_events.contains(e),
        ensures
            after.in_rank(now),
    {
        self.lemma_ranked_frame(after, now);
        self.lemma_once_frame(after);
    }

    pub proof fn lemma_cancel_in_rank(self, id: JobId, now: Instant)
        requires
            self.in_rank(now),
        ensures
            self.cancel(id).in_rank(now),
    {
        self.lemma_in_rank_frame(self.cancel(id), now);
    }

    pub proof fn lemma_cancel_at_in_rank(self, id: JobId, now: Instant)
        requires
            self.in_rank(now),
        ensures
            self.cancel_at(id, now).in_rank(now),
    {
        self.lemma_in_rank_frame(self.cancel_at(id, now), now);
    }

    pub proof fn lemma_start_in_rank(self, id: JobId, now: Instant)
        requires
            self.in_rank(now),
        ensures
            self.start(id, now).in_rank(now),
    {
        self.lemma_in_rank_frame(self.start(id, now), now);
    }

    pub proof fn lemma_complete_in_rank(
        self,
        id: JobId,
        completion: OutboundCompletion,
        now: Instant,
    )
        requires
            self.in_rank(now),
        ensures
            self.complete(id, completion, now).in_rank(now),
    {
        self.lemma_in_rank_frame(self.complete(id, completion, now), now);
    }

    proof fn lemma_trim_delayed_in_rank(self, now: Instant)
        requires
            self.in_rank(now),
        ensures
            self.trim_delayed().in_rank(now),
        decreases self.delayed.len(),
    {
        if self.delayed.len() > 0 && !self.jobs.contains_key(
            heap::first_of(self.delayed).job.value,
        ) {
            heap::lemma_first_exists(self.delayed);
            model::lemma_remove_shrinks(self.delayed, heap::first_of(self.delayed));
            let after = SchedulerView {
                delayed: self.delayed.remove(heap::first_of(self.delayed)),
                stale_delayed: lane::less(self.stale_delayed, 1),
                ..self
            };
            self.lemma_in_rank_frame(after, now);
            after.lemma_trim_delayed_in_rank(now);
        }
    }

    proof fn lemma_trim_blocked_in_rank(self, now: Instant)
        requires
            self.in_rank(now),
        ensures
            self.trim_blocked().in_rank(now),
        decreases self.blocked.len(),
    {
        if self.blocked.len() > 0 && !model::reference_alive(
            heap::first_of(self.blocked).reference,
            self.jobs,
            self.lanes,
        ) {
            heap::lemma_first_exists(self.blocked);
            model::lemma_remove_shrinks(self.blocked, heap::first_of(self.blocked));
            let after = SchedulerView {
                blocked: self.blocked.remove(heap::first_of(self.blocked)),
                ..self
            };
            self.lemma_in_rank_frame(after, now);
            after.lemma_trim_blocked_in_rank(now);
        }
    }

    proof fn lemma_trim_aging_in_rank(self, now: Instant)
        requires
            self.in_rank(now),
        ensures
            self.trim_aging().in_rank(now),
        decreases self.aging_events.len(),
    {
        if self.aging_events.len() > 0 && !self.is_candidate(
            heap::first_of(self.aging_events).reference,
        ) {
            heap::lemma_first_exists(self.aging_events);
            let first = heap::first_of(self.aging_events);
            model::lemma_remove_shrinks(self.aging_events, first);
            let after = SchedulerView { aging_events: self.aging_events.remove(first), ..self };
            assert forall|e: AgingEvent| #[trigger] self.aging_events.contains(e)
                && e.reference is Job && after.is_candidate(
                e.reference,
            ) implies after.aging_events.contains(e) by {
                assert(e != first);
            }
            self.lemma_in_rank_frame(after, now);
            after.lemma_trim_aging_in_rank(now);
        }
    }

    pub proof fn lemma_trimmed_in_rank(self, now: Instant)
        requires
            self.in_rank(now),
        ensures
            self.trimmed().in_rank(now),
    {
        self.lemma_trim_delayed_in_rank(now);
        self.trim_delayed().lemma_trim_blocked_in_rank(now);
        self.trim_delayed().trim_blocked().lemma_trim_aging_in_rank(now);
    }

    // ---------- new limits ----------

    proof fn lemma_push_references_in_rank(self, references: Seq<CandidateRef>, now: Instant)
        requires
            self.inv(),
            self.in_rank(now),
            wakeups::spans_every_level(self.aging),
            forall|i: int| 0 <= i < references.len() ==> self.ref_ok(#[trigger] references[i]),
        ensures
            self.push_references(references, now).inv(),
            self.push_references(references, now).in_rank(now),
            self.push_references(references, now).aging == self.aging,
            self.keeps_refs(self.push_references(references, now)),
        decreases references.len(),
    {
        if references.len() > 0 {
            let front = references.drop_last();
            assert forall|i: int| 0 <= i < front.len() implies self.ref_ok(
                #[trigger] front[i],
            ) by {
                assert(front[i] == references[i]);
            }
            self.lemma_push_references_in_rank(front, now);
            let mid = self.push_references(front, now);
            let last = references.last();
            assert(self.ref_ok(references[references.len() - 1]));
            assert(mid.ref_ok(last));
            mid.lemma_push_ranked(last, now);
            mid.lemma_once_frame(mid.push_reference(last, now));
            mid.lemma_push_reference_inv(last, now);
            mid.lemma_push_frame(last, now);
        }
    }

    proof fn lemma_wake_parked_in_rank(self, holds: Seq<ReservationView>, now: Instant)
        requires
            self.inv(),
            self.in_rank(now),
            wakeups::spans_every_level(self.aging),
            forall|i: int, j: int|
                0 <= i < holds.len() && 0 <= j < holds[i].queue.len() ==> self.ref_ok(
                    #[trigger] holds[i].queue[j],
                ),
        ensures
            self.wake_parked(holds, now).inv(),
            self.wake_parked(holds, now).in_rank(now),
            self.wake_parked(holds, now).aging == self.aging,
            self.keeps_refs(self.wake_parked(holds, now)),
        decreases holds.len(),
    {
        if holds.len() > 0 {
            let front = holds.drop_last();
            assert forall|i: int, j: int|
                0 <= i < front.len() && 0 <= j < front[i].queue.len() implies self.ref_ok(
                #[trigger] front[i].queue[j],
            ) by {
                assert(front[i].queue[j] == holds[i].queue[j]);
            }
            self.lemma_wake_parked_in_rank(front, now);
            let mid = self.wake_parked(front, now);
            let queue = holds.last().queue;
            assert forall|j: int| 0 <= j < queue.len() implies mid.ref_ok(
                #[trigger] queue[j],
            ) by {
                assert(self.ref_ok(holds[holds.len() - 1].queue[j]));
            }
            mid.lemma_push_references_in_rank(queue, now);
        }
    }

    pub proof fn lemma_set_limits_in_rank(self, limits: OutboundLimits, now: Instant)
        requires
            self.inv(),
            self.in_rank(now),
            wakeups::spans_every_level(self.aging),
        ensures
            self.set_limits(limits, now).in_rank(now),
    {
        if self.limits_refusal(limits) is None {
            let relimited = self.relimited(limits);
            let bound = Instant { nanos: u64::MAX };
            self.lemma_in_rank_frame(relimited, now);
            self.lemma_relimited_inv(limits);
            relimited.lemma_wake_blocked_ranked(bound, now);
            relimited.lemma_wake_blocked_inv(bound, now);
            let woken = relimited.wake_blocked(bound, now);
            let start = SchedulerView { reservations: Seq::empty(), ..woken };
            woken.lemma_fewer_entries(start);
            woken.lemma_in_rank_frame(start, now);
            let holds = woken.reservations;
            assert forall|i: int, j: int|
                0 <= i < holds.len() && 0 <= j < holds[i].queue.len() implies start.ref_ok(
                #[trigger] holds[i].queue[j],
            ) by {
                assert(woken.ref_ok(woken.reservations[i].queue[j]));
            }
            start.lemma_wake_parked_in_rank(holds, now);
        }
    }

    // ---------- sequences ----------

    proof fn lemma_rebase_in_rank(self, now: Instant)
        requires
            self.inv(),
            self.in_rank(now),
            self.next_job_id < u64::MAX,
        ensures
            self.rebase_sequences().in_rank(now),
    {
        let after = self.rebase_sequences();
        self.lemma_rebase_inv();
        if self.jobs.dom().len() == 0 {
            assert forall|id: u64| #[trigger] after.jobs.contains_key(id) implies false by {
                assert(after.jobs.dom().contains(id));
                assert(after.jobs.dom() =~= Set::empty());
            }
            self.lemma_in_rank_frame(after, now);
        } else {
            assert forall|k: u64| #[trigger] after.jobs.contains_key(k) <==> self.jobs.contains_key(
                k,
            ) by {
                assert(after.jobs.dom().contains(k) <==> self.jobs.dom().contains(k));
            }
            let least = model::least_sequence(self.jobs);
            let jobs = model::ranked_jobs(self.jobs);
            let live = |key: CandidateKey|
                model::reference_alive(key.reference, self.jobs, self.lanes);
            let waits = |entry: DelayedJob| self.jobs.contains_key(entry.job.value);
            let moved = if least == 0 {
                |key: CandidateKey| model::rekeyed_candidate(key, jobs, self.lanes)
            } else {
                |key: CandidateKey|
                    CandidateKey { sequence: model::shifted(key.sequence, least), ..key }
            };
            let put = if least == 0 {
                |entry: DelayedJob| model::rekeyed_delayed(entry, jobs)
            } else {
                |entry: DelayedJob|
                    DelayedJob { sequence: model::shifted(entry.sequence, least), ..entry }
            };
            let from = if least == 0 {
                self.candidates.filter(live)
            } else {
                self.candidates
            };
            let behind = if least == 0 {
                self.delayed.filter(waits)
            } else {
                self.delayed
            };
            assert(after.candidates == model::image(from, moved)
                && after.delayed == model::image(behind, put)) by {
                if least != 0 {
                    super::rebase::lemma_image_same(
                        self.candidates,
                        moved,
                        |key: CandidateKey|
                            CandidateKey {
                                sequence: model::shifted(
                                    key.sequence,
                                    model::least_sequence(self.jobs),
                                ),
                                ..key
                            },
                    );
                    super::rebase::lemma_image_same(
                        self.delayed,
                        put,
                        |entry: DelayedJob|
                            DelayedJob {
                                sequence: model::shifted(
                                    entry.sequence,
                                    model::least_sequence(self.jobs),
                                ),
                                ..entry
                            },
                    );
                }
            }
            assert forall|k: CandidateKey| #[trigger] after.candidates.contains(
                k,
            ) implies after.key_ranked(k) by {
                soundness_enqueue::lemma_image_contains(from, moved, k);
                let x = choose|x: CandidateKey| #[trigger] from.contains(x) && moved(x) == k;
                assert(self.candidates.contains(x));
                assert(self.key_ranked(x));
                if let CandidateRef::Job(id) = k.reference {
                    assert(x.reference == k.reference);
                    assert(after.jobs.contains_key(id.value) <==> self.jobs.contains_key(
                        id.value,
                    ));
                }
            }
            assert forall|id: u64| #[trigger] after.jobs.contains_key(id)
                && arbitration::at_large(after.jobs[id]) implies
                after.jobs[id].candidate_effective <= entries::effective(
                after.jobs[id],
                after.aging,
                now,
            ) by {
                assert(self.jobs.contains_key(id));
            }
            assert forall|id: u64| #[trigger] after.jobs.contains_key(id)
                && arbitration::at_large(after.jobs[id])
                && after.jobs[id].in_candidate_heap implies after.rise_noted(id) by {
                assert(self.jobs.contains_key(id));
                assert(self.rise_noted(id));
            }
            assert forall|id: u64| (#[trigger] after.delays_of(id)).len() <= 1 by {
                let p = |entry: DelayedJob| entry.job.value == id;
                lemma_image_filter(behind, put, p, p);
                let mine = behind.filter(p);
                let all = self.delays_of(id);
                assert(mine.subset_of(all));
                assert(all.sub(mine).len() == all.len() - mine.len());
            }
            assert forall|entry: DelayedJob| #[trigger] after.delayed.contains(entry)
                && after.jobs.contains_key(entry.job.value) implies
                after.jobs[entry.job.value].not_before is Some by {
                soundness_enqueue::lemma_image_contains(behind, put, entry);
                let x = choose|x: DelayedJob| #[trigger] behind.contains(x) && put(x) == entry;
                assert(self.delayed.contains(x));
                assert(self.jobs.contains_key(x.job.value));
            }
            assert forall|id: u64| #[trigger] after.jobs.contains_key(
                id,
            ) implies after.delay_unmarked(id) by {
                assert(self.jobs.contains_key(id));
                assert(self.delay_unmarked(id));
            }
        }
    }

    // ---------- enqueue ----------

    pub proof fn lemma_accept_in_rank(
        self,
        meta: OutboundMeta,
        mode: OutboundEnqueueMode,
        not_before: Option<Instant>,
        now: Instant,
    )
        requires
            self.inv(),
            self.in_rank(now),
            wakeups::spans_every_level(self.aging),
            self.next_job_id < u64::MAX,
            self.refusal(meta, mode) is None,
        ensures
            self.accept(meta, mode, not_before, now).in_rank(now),
    {
        self.lemma_before_insert(meta, mode, not_before, now);
        let old = self.replaced_by(meta, mode);
        let ready = self.before_insert(meta, mode);
        let id = JobId { value: ready.next_job_id };
        let job = self.new_job(meta, mode, not_before, now);
        match old {
            Some(gone) => self.lemma_in_rank_frame(ready, now),
            None => {
                if self.next_sequence == u64::MAX {
                    self.lemma_rebase_in_rank(now);
                }
                self.ready_sequence().lemma_in_rank_frame(ready, now);
            },
        }
        let recorded = SchedulerView {
            jobs: ready.jobs.insert(id.value, job),
            next_job_id: (ready.next_job_id + 1) as u64,
            delayed: match not_before {
                Some(until) => ready.delayed.insert(
                    DelayedJob { not_before: until, sequence: job.sequence, job: id },
                ),
                None => ready.delayed,
            },
            ..ready
        };
        assert(recorded.ranked_by(now)) by {
            assert forall|k: CandidateKey| #[trigger] recorded.candidates.contains(
                k,
            ) implies recorded.key_ranked(k) by {
                assert(ready.key_ranked(k));
                assert(ready.ref_ok(k.reference));
            }
            assert forall|k: u64| #[trigger] recorded.jobs.contains_key(k)
                && arbitration::at_large(recorded.jobs[k])
                && recorded.jobs[k].in_candidate_heap implies recorded.rise_noted(k) by {
                assert(k != id.value);
                assert(ready.rise_noted(k));
            }
        }
        assert(recorded.delayed_once()) by {
            assert forall|k: u64| (#[trigger] recorded.delays_of(k)).len() <= 1 by {
                let p = |entry: DelayedJob| entry.job.value == k;
                let before = ready.delays_of(k);
                if let Some(until) = not_before {
                    let entry = DelayedJob {
                        not_before: until,
                        sequence: job.sequence,
                        job: id,
                    };
                    progress::lemma_filter_insert(ready.delayed, p, entry);
                    if k == id.value {
                        assert(before =~= Multiset::empty()) by {
                            assert forall|e: DelayedJob| before.count(e) == 0 by {
                                if ready.delayed.count(e) > 0 {
                                    assert(ready.delayed.contains(e));
                                }
                            }
                        }
                    }
                }
            }
            assert forall|e: DelayedJob| #[trigger] recorded.delayed.contains(e)
                && recorded.jobs.contains_key(e.job.value) implies
                recorded.jobs[e.job.value].not_before is Some by {
                if ready.delayed.contains(e) {
                    assert(e.job.value < ready.next_job_id);
                }
            }
            assert forall|k: u64| #[trigger] recorded.jobs.contains_key(
                k,
            ) implies recorded.delay_unmarked(k) by {
                if k != id.value {
                    assert(ready.delay_unmarked(k));
                }
            }
        }
        let placed = match meta.lane {
            Some(key) => recorded.enter_lane(key, id, job.lane_order, old, now),
            None => if not_before is None {
                recorded.push_job_candidate(id, now)
            } else {
                recorded
            },
        };
        match meta.lane {
            Some(key) => {
                recorded.lemma_enter_lane_in_rank(key, id, job.lane_order, old, now);
            },
            None => {
                if not_before is None {
                    recorded.lemma_push_job_ranked(id, now);
                    recorded.lemma_once_frame(placed);
                }
            },
        }
        assert(placed.in_rank(now));
        placed.lemma_in_rank_frame(self.accept(meta, mode, not_before, now), now);
    }

    proof fn lemma_enter_lane_in_rank(
        self,
        key: OutboundLaneKey,
        id: JobId,
        inherited: Option<u64>,
        old: Option<JobId>,
        now: Instant,
    )
        requires
            self.in_rank(now),
            self.jobs.contains_key(id.value),
        ensures
            self.enter_lane(key, id, inherited, old, now).in_rank(now),
    {
        let after = self.enter_lane(key, id, inherited, old, now);
        let held = self.lane_or_empty(key.value).pending;
        laws::lemma_renumber_keeps(self.jobs, held);
        super::coverage_ops::lemma_renumber_marks(self.jobs, held);
        laws::lemma_entered(self, key, id, inherited, old, now);
        assert forall|k: u64| #[trigger] after.jobs.contains_key(k) implies self.jobs.contains_key(
            k,
        ) && self.same_rank(after, k) by {
            assert(self.jobs.dom().contains(k));
        }
        self.lemma_ranked_frame(after, now);
        self.lemma_once_frame(after);
    }
}

} // verus!
