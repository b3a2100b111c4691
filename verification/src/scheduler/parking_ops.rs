//! Every operation keeps whoever sleeps in order.

use super::entries::{BlockedJob, CandidateRef, DelayedJob};
use super::model::{ReservationView, SchedulerView};
use super::{laws, model};
use crate::heap;
use crate::time::Instant;
use crate::types::{
    AgingPolicy, JobId, OutboundCompletion, OutboundEnqueueMode, OutboundLaneKey, OutboundLimits,
    OutboundMeta, OutboundScope,
};
use vstd::prelude::*;

verus! {

broadcast use vstd::multiset::group_multiset_axioms;

impl SchedulerView {
    pub proof fn lemma_cancel_orderly(self, id: JobId, from: Instant, now: Instant)
        requires
            self.inv(),
            self.orderly(from),
            from.nanos <= now.nanos,
        ensures
            self.cancel(id).orderly(now),
            self.cancel_at(id, now).orderly(now),
    {
        self.lemma_opens_nothing(self.cancel(id), now);
        self.lemma_opens_nothing(self.cancel_at(id, now), now);
        self.lemma_orderly_frame(self.cancel(id), from, now);
        self.lemma_orderly_frame(self.cancel_at(id, now), from, now);
    }

    pub proof fn lemma_start_orderly(self, id: JobId, from: Instant, now: Instant)
        requires
            self.inv(),
            self.orderly(from),
            from.nanos <= now.nanos,
        ensures
            self.start(id, now).orderly(now),
    {
        assert(self.calm(self.start(id, now)));
        self.lemma_calm_orderly(self.start(id, now), from, now);
    }

    pub proof fn lemma_complete_orderly(
        self,
        id: JobId,
        completion: OutboundCompletion,
        from: Instant,
        now: Instant,
    )
        requires
            self.inv(),
            self.orderly(from),
            from.nanos <= now.nanos,
        ensures
            self.complete(id, completion, now).orderly(now),
    {
        let after = self.complete(id, completion, now);
        assert forall|meta: OutboundMeta, t: Instant|
            now.nanos <= t.nanos && self.closed_to(meta, t) implies #[trigger] after.closed_to(
            meta,
            t,
        ) by {
            if let OutboundScope::Chat(chat) = meta.scope {
                assert(after.chat_windows(chat) == self.chat_windows(chat));
            }
        }
        self.lemma_orderly_frame(after, from, now);
    }

    pub proof fn lemma_penalize_orderly(
        self,
        scope: OutboundScope,
        until: Instant,
        from: Instant,
        now: Instant,
    )
        requires
            self.inv(),
            self.orderly(from),
            from.nanos <= now.nanos,
        ensures
            self.penalize(scope, until).orderly(now),
    {
        let after = self.penalize(scope, until);
        assert forall|meta: OutboundMeta, t: Instant|
            now.nanos <= t.nanos && self.closed_to(meta, t) implies #[trigger] after.closed_to(
            meta,
            t,
        ) by {
            if let OutboundScope::Chat(chat) = meta.scope {
                assert(after.chat_windows(chat) == self.chat_windows(chat));
            }
        }
        self.lemma_orderly_frame(after, from, now);
    }

    proof fn lemma_trim_delayed_calm(self)
        ensures
            self.calm(self.trim_delayed()),
        decreases self.delayed.len(),
    {
        if self.delayed.len() > 0 && !self.jobs.contains_key(
            heap::first_of(self.delayed).job.value,
        ) {
            heap::lemma_first_exists(self.delayed);
            model::lemma_remove_shrinks(self.delayed, heap::first_of(self.delayed));
            let after = SchedulerView {
                delayed: self.delayed.remove(heap::first_of(self.delayed)),
                stale_delayed: super::lane::less(self.stale_delayed, 1),
                ..self
            };
            after.lemma_trim_delayed_calm();
            self.lemma_calm_trans(after, self.trim_delayed());
        }
    }

    proof fn lemma_trim_blocked_calm(self)
        ensures
            self.calm(self.trim_blocked()),
        decreases self.blocked.len(),
    {
        if self.blocked.len() > 0 && !model::reference_alive(
            heap::first_of(self.blocked).reference,
            self.jobs,
            self.lanes,
        ) {
            heap::lemma_first_exists(self.blocked);
            let entry = heap::first_of(self.blocked);
            model::lemma_remove_shrinks(self.blocked, entry);
            let after = SchedulerView { blocked: self.blocked.remove(entry), ..self };
            assert(self.calm(after)) by {
                assert forall|e: BlockedJob| #[trigger] after.blocked.contains(
                    e,
                ) implies self.blocked.contains(e) by {}
            }
            after.lemma_trim_blocked_calm();
            self.lemma_calm_trans(after, self.trim_blocked());
        }
    }

    proof fn lemma_trim_aging_calm(self)
        ensures
            self.calm(self.trim_aging()),
        decreases self.aging_events.len(),
    {
        if self.aging_events.len() > 0 && !self.is_candidate(
            heap::first_of(self.aging_events).reference,
        ) {
            heap::lemma_first_exists(self.aging_events);
            model::lemma_remove_shrinks(self.aging_events, heap::first_of(self.aging_events));
            let after = SchedulerView {
                aging_events: self.aging_events.remove(heap::first_of(self.aging_events)),
                ..self
            };
            after.lemma_trim_aging_calm();
            self.lemma_calm_trans(after, self.trim_aging());
        }
    }

    pub proof fn lemma_trimmed_orderly(self, from: Instant, now: Instant)
        requires
            self.inv(),
            self.orderly(from),
            from.nanos <= now.nanos,
        ensures
            self.trimmed().orderly(now),
    {
        let a = self.trim_delayed();
        let b = a.trim_blocked();
        self.lemma_trim_delayed_calm();
        a.lemma_trim_blocked_calm();
        b.lemma_trim_aging_calm();
        self.lemma_calm_trans(a, b);
        self.lemma_calm_trans(b, self.trimmed());
        self.lemma_calm_orderly(self.trimmed(), from, now);
    }

    // ---------- new limits ----------

    proof fn lemma_wake_blocked_all(self, now: Instant)
        ensures
            self.wake_blocked(Instant { nanos: u64::MAX }, now).blocked.len() == 0,
        decreases self.blocked.len(),
    {
        if self.blocked.len() > 0 {
            let entry = heap::first_of(self.blocked);
            heap::lemma_first_exists(self.blocked);
            model::lemma_remove_shrinks(self.blocked, entry);
            let rest = SchedulerView { blocked: self.blocked.remove(entry), ..self };
            rest.lemma_blocked_step_keeps_queues(entry.reference, now);
            rest.blocked_step(entry.reference, now).lemma_wake_blocked_all(now);
        }
    }

    proof fn lemma_push_references_quiet(self, references: Seq<CandidateRef>, now: Instant)
        ensures
            self.push_references(references, now).blocked == self.blocked,
            self.push_references(references, now).reservations == self.reservations,
        decreases references.len(),
    {
        if references.len() > 0 {
            self.lemma_push_references_quiet(references.drop_last(), now);
        }
    }

    proof fn lemma_wake_parked_quiet(self, holds: Seq<ReservationView>, now: Instant)
        ensures
            self.wake_parked(holds, now).blocked == self.blocked,
            self.wake_parked(holds, now).reservations == self.reservations,
        decreases holds.len(),
    {
        if holds.len() > 0 {
            self.lemma_wake_parked_quiet(holds.drop_last(), now);
            self.wake_parked(holds.drop_last(), now).lemma_push_references_quiet(
                holds.last().queue,
                now,
            );
        }
    }

    pub proof fn lemma_set_limits_orderly(self, limits: OutboundLimits, from: Instant, now: Instant)
        requires
            self.inv(),
            self.orderly(from),
            from.nanos <= now.nanos,
        ensures
            self.set_limits(limits, now).orderly(now),
    {
        if self.limits_refusal(limits) is Some {
            assert(self.calm(self));
            self.lemma_calm_orderly(self, from, now);
        } else {
            let start = self.relimited(limits);
            let woken = start.wake_blocked(Instant { nanos: u64::MAX }, now);
            start.lemma_wake_blocked_all(now);
            let empty = SchedulerView { reservations: Seq::empty(), ..woken };
            empty.lemma_wake_parked_quiet(woken.reservations, now);
            let after = self.set_limits(limits, now);
            assert forall|e: BlockedJob| !#[trigger] after.blocked.contains(e) by {
                if after.blocked.contains(e) {
                    model::lemma_remove_shrinks(after.blocked, e);
                }
            }
        }
    }

    // ---------- enqueue ----------

    // Renumbering keeps the order of age.
    proof fn lemma_rebase_same_ages(self)
        requires
            self.inv(),
            self.next_job_id < u64::MAX,
        ensures
            self.same_ages(self.rebase_sequences()),
    {
        let after = self.rebase_sequences();
        self.lemma_rebase_inv();
        assert forall|k: u64| #[trigger] after.jobs.contains_key(k) implies self.jobs.contains_key(
            k,
        ) && after.jobs[k].meta == self.jobs[k].meta by {
            assert(after.jobs.dom().contains(k));
            assert(self.jobs.dom().contains(k));
            assert(self.jobs.contains_key(k));
        }
        assert forall|j: u64, k: u64|
            #![trigger after.jobs.contains_key(j), after.jobs.contains_key(k)]
            after.jobs.contains_key(j) && after.jobs.contains_key(k) && self.jobs.contains_key(j)
                && self.jobs.contains_key(k) && self.jobs[j].sequence
                <= self.jobs[k].sequence implies after.jobs[j].sequence
            <= after.jobs[k].sequence by {}
    }

    pub proof fn lemma_accept_orderly(
        self,
        meta: OutboundMeta,
        mode: OutboundEnqueueMode,
        not_before: Option<Instant>,
        from: Instant,
        now: Instant,
    )
        requires
            self.inv(),
            self.orderly(from),
            from.nanos <= now.nanos,
            self.next_job_id < u64::MAX,
            self.refusal(meta, mode) is None,
        ensures
            self.accept(meta, mode, not_before, now).orderly(now),
    {
        self.lemma_before_insert(meta, mode, not_before, now);
        let old = self.replaced_by(meta, mode);
        let ready = self.before_insert(meta, mode);
        let id = JobId { value: ready.next_job_id };
        let job = self.new_job(meta, mode, not_before, now);
        self.lemma_opens_nothing(ready, now);
        if old is None && self.next_sequence == u64::MAX {
            self.lemma_rebase_same_ages();
        }
        self.lemma_orderly_frame(ready, from, now);
        let recorded = SchedulerView {
            jobs: ready.jobs.insert(id.value, job),
            next_job_id: (ready.next_job_id + 1) as u64,
            delayed: match not_before {
                Some(until) => ready.delayed.insert(
                    DelayedJob { not_before: until, sequence: job.sequence, job: id },
                ),
                None => ready.delayed,
            },
            ..ready
        };
        let after = self.accept(meta, mode, not_before, now);
        match meta.lane {
            Some(key) => {
                laws::lemma_entered(recorded, key, id, job.lane_order, old, now);
                recorded.lemma_enter_lane_quiet(key, id, job.lane_order, old, now);
            },
            None => {},
        }
        assert forall|k: u64| #[trigger] after.jobs.contains_key(k) implies {
            ||| ready.jobs.contains_key(k) && after.jobs[k].meta == ready.jobs[k].meta
                && after.jobs[k].sequence == ready.jobs[k].sequence
            ||| k >= ready.next_job_id
        } by {
            assert(after.jobs.dom().contains(k));
            assert(recorded.jobs.contains_key(k));
        }
        assert(ready.same_ages(after));
        ready.lemma_opens_nothing(after, now);
        ready.lemma_orderly_frame(after, now, now);
    }

    proof fn lemma_enter_lane_quiet(
        self,
        key: OutboundLaneKey,
        id: JobId,
        inherited: Option<u64>,
        old: Option<JobId>,
        now: Instant,
    )
        ensures
            ({
                let after = self.enter_lane(key, id, inherited, old, now);
                &&& after.blocked == self.blocked
                &&& after.reservations == self.reservations
                &&& after.penalties == self.penalties
                &&& after.global_windows == self.global_windows
                &&& after.chat_window_sets == self.chat_window_sets
                &&& after.chat_limits == self.chat_limits
            }),
    {
    }
}

/// Every operation keeps whoever sleeps in order: no window is held twice, a
/// hold concerns everybody parked behind it, unlaned jobs are parked in order
/// of age, and an unlaned job is blocked no longer than it has a reason to.
pub proof fn law_sleepers_stay_in_order(
    s: SchedulerView,
    earlier: Instant,
    meta: OutboundMeta,
    mode: OutboundEnqueueMode,
    not_before: Option<Instant>,
    id: JobId,
    completion: OutboundCompletion,
    scope: OutboundScope,
    until: Instant,
    limits: OutboundLimits,
    aging: AgingPolicy,
    now: Instant,
)
    requires
        s.inv(),
        s.next_job_id < u64::MAX,
        s.orderly(earlier),
        earlier.nanos <= now.nanos,
    ensures
        SchedulerView::fresh(limits, aging).orderly(now),
        s.enqueue(meta, mode, not_before, now).orderly(now),
        s.cancel(id).orderly(now),
        s.cancel_at(id, now).orderly(now),
        s.grant_ready(now).orderly(now),
        s.start(id, now).orderly(now),
        s.complete(id, completion, now).orderly(now),
        s.penalize(scope, until).orderly(now),
        s.trimmed().orderly(now),
        s.set_limits(limits, now).orderly(now),
{
    if s.refusal(meta, mode) is None {
        s.lemma_accept_orderly(meta, mode, not_before, earlier, now);
    } else {
        assert(s.calm(s));
        s.lemma_calm_orderly(s, earlier, now);
    }
    s.lemma_cancel_orderly(id, earlier, now);
    s.lemma_grant_ready_orderly(earlier, now);
    s.lemma_start_orderly(id, earlier, now);
    s.lemma_complete_orderly(id, completion, earlier, now);
    s.lemma_penalize_orderly(scope, until, earlier, now);
    s.lemma_trimmed_orderly(earlier, now);
    s.lemma_set_limits_orderly(limits, earlier, now);
}

} // verus!
