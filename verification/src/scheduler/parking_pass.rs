//! Grant passes keep whoever sleeps in order.

use super::entries::{Admission, BlockedJob, Candidate, CandidateRef};
use super::model::SchedulerView;
use super::{fairness, model, parking, picking, soundness};
use crate::time::Instant;
use crate::types::{OutboundMeta, OutboundScope};
use crate::window;
use vstd::prelude::*;

verus! {

broadcast use vstd::multiset::group_multiset_axioms;

impl SchedulerView {
    // Looking at windows opens nothing from then on.
    proof fn lemma_after_admission_opens_nothing(self, c: Candidate, now: Instant)
        ensures
            self.opens_nothing(self.after_admission(c, now), now),
    {
        let after = self.after_admission(c, now);
        assert forall|meta: OutboundMeta, t: Instant|
            now.nanos <= t.nanos && self.closed_to(meta, t) implies #[trigger] after.closed_to(
            meta,
            t,
        ) by {
            parking::lemma_full_pruned(self.global_windows, meta.weight@, now, t);
            if let OutboundScope::Chat(chat) = meta.scope {
                parking::lemma_full_pruned(self.chat_windows(chat), meta.weight@, now, t);
            }
        }
    }

    // Granting debits windows and opens nothing.
    proof fn lemma_grant_opens_nothing(self, c: Candidate, now: Instant)
        ensures
            self.opens_nothing(self.grant(c, now), now),
    {
        let after = self.grant(c, now);
        let used = self.jobs[c.job.value].meta.weight@;
        assert forall|meta: OutboundMeta, t: Instant|
            now.nanos <= t.nanos && self.closed_to(meta, t) implies #[trigger] after.closed_to(
            meta,
            t,
        ) by {
            if parking::full(self.global_windows, meta.weight@, t) {
                parking::lemma_full_consumed(self.global_windows, meta.weight@, now, used, t);
            } else if let OutboundScope::Chat(chat) = meta.scope {
                if parking::full(self.chat_windows(chat), meta.weight@, t) {
                    parking::lemma_full_consumed(
                        self.chat_windows(chat),
                        meta.weight@,
                        now,
                        used,
                        t,
                    );
                }
            }
        }
    }

    // A refused candidate is closed until the moment it is blocked for.
    proof fn lemma_blocked_until_closed(self, c: Candidate, meta: OutboundMeta, now: Instant)
        requires
            meta.scope == c.scope,
            meta.weight == c.weight,
        ensures
            forall|t: Instant|
                now.nanos <= t.nanos < self.blocked_until(c, now).nanos
                    ==> #[trigger] self.closed_to(meta, t),
    {
        assert forall|t: Instant|
            now.nanos <= t.nanos < self.blocked_until(c, now).nanos implies #[trigger] self.closed_to(
            meta,
            t,
        ) by {
            let weight = c.weight@;
            let global = window::prune_all(self.global_windows, now);
            parking::lemma_full_pruned(self.global_windows, weight, now, t);
            if SchedulerView::room_at(global, now, weight).nanos > t.nanos {
                parking::lemma_full_until(global, weight, now, t);
            }
            if let OutboundScope::Chat(chat) = c.scope {
                let chats = window::prune_all(self.chat_windows(chat), now);
                parking::lemma_full_pruned(self.chat_windows(chat), weight, now, t);
                if SchedulerView::room_at(chats, now, weight).nanos > t.nanos {
                    parking::lemma_full_until(chats, weight, now, t);
                }
            }
        }
    }

    proof fn lemma_block_orderly(
        self,
        c: Candidate,
        until: Instant,
        reserve: Option<OutboundScope>,
        now: Instant,
    )
        requires
            self.inv(),
            self.orderly(now),
            self.jobs.contains_key(c.job.value),
            forall|t: Instant|
                now.nanos <= t.nanos < until.nanos ==> #[trigger] self.closed_to(
                    self.jobs[c.job.value].meta,
                    t,
                ),
        ensures
            self.block(c, until, reserve).orderly(now),
    {
        let reference = self.reference_of(c.job);
        let held = match reserve {
            Some(scope) => self.hold(scope, until, reference),
            None => self,
        };
        self.lemma_opens_nothing(held, now);
        if let Some(scope) = reserve {
            fairness::lemma_find_bounds(self.reservations, scope);
            let at = model::find(self.reservations, scope);
            if at >= self.reservations.len() {
                assert forall|i: int| 0 <= i < held.reservations.len() implies parking::well_parked(
                    #[trigger] held.reservations[i],
                    held.jobs,
                ) by {
                    if i < self.reservations.len() {
                        assert(held.reservations[i] == self.reservations[i]);
                    }
                }
                assert(parking::held_once(held.reservations)) by {
                    assert forall|i: int, j: int|
                        0 <= i < j < held.reservations.len() implies (
                    #[trigger] held.reservations[i]).window != (
                    #[trigger] held.reservations[j]).window by {
                        assert(held.reservations[i] == self.reservations[i]);
                        if j < self.reservations.len() {
                            assert(held.reservations[j] == self.reservations[j]);
                        }
                    }
                }
                assert forall|e: BlockedJob| #[trigger] held.blocked.contains(
                    e,
                ) implies held.blocked_with_reason(e, now) by {
                    self.lemma_reason_stays(held, e, now);
                }
            } else {
                self.lemma_orderly_frame(held, now, now);
            }
        }
        assert(held.orderly(now));
        let after = self.block(c, until, reserve);
        held.lemma_opens_nothing(after, now);
        let entry = BlockedJob { until, reference };
        assert(after.blocked_with_reason(entry, now)) by {
            if let CandidateRef::Job(id) = reference {
                let meta = after.jobs[id.value].meta;
                assert forall|t: Instant|
                    now.nanos <= t.nanos < until.nanos implies #[trigger] after.closed_to(
                    meta,
                    t,
                ) by {
                    assert(self.closed_to(meta, t));
                    assert(held.closed_to(meta, t));
                }
            }
        }
        assert forall|e: BlockedJob| #[trigger] after.blocked.contains(
            e,
        ) implies after.blocked_with_reason(e, now) by {
            if e != entry {
                assert(held.blocked.contains(e));
                held.lemma_reason_stays(after, e, now);
            }
        }
    }

    proof fn lemma_reason_stays(self, after: SchedulerView, e: BlockedJob, now: Instant)
        requires
            self.orderly(now),
            self.blocked.contains(e),
            after.jobs == self.jobs,
            self.opens_nothing(after, now),
        ensures
            after.blocked_with_reason(e, now),
    {
        assert(self.blocked_with_reason(e, now));
        if let CandidateRef::Job(id) = e.reference {
            if after.jobs.contains_key(id.value) {
                let meta = after.jobs[id.value].meta;
                assert forall|t: Instant|
                    now.nanos <= t.nanos < e.until.nanos implies #[trigger] after.closed_to(
                    meta,
                    t,
                ) by {
                    assert(self.closed_to(meta, t));
                }
            }
        }
    }

    proof fn lemma_park_orderly(self, c: Candidate, now: Instant)
        requires
            self.inv(),
            self.orderly(now),
            self.jobs.contains_key(c.job.value),
            self.jobs[c.job.value].meta.scope == c.scope,
            self.held_back(c.scope, now),
        ensures
            self.park(c, now).orderly(now),
    {
        let after = self.park(c, now);
        let scope = self.parking_window(c.scope, now);
        fairness::lemma_find_bounds(self.reservations, scope);
        let at = model::find(self.reservations, scope) as int;
        let r = self.reservations[at];
        let reference = self.reference_of(c.job);
        let place = model::parking_place(r.queue, self.jobs, reference) as int;
        picking::lemma_parking_place_bounds(r.queue, self.jobs, reference);
        parking::lemma_parked_in_order(r.queue, self.jobs, reference);
        self.lemma_opens_nothing(after, now);
        assert forall|i: int| 0 <= i < after.reservations.len() implies parking::well_parked(
            #[trigger] after.reservations[i],
            after.jobs,
        ) by {
            if i == at {
                let queue = after.reservations[i].queue;
                assert forall|j: int| 0 <= j < queue.len() implies parking::rightly_parked(
                    r.window,
                    #[trigger] queue[j],
                    after.jobs,
                ) by {
                    if j < place {
                        assert(queue[j] == r.queue[j]);
                    } else if j > place {
                        assert(queue[j] == r.queue[j - 1]);
                    }
                }
            } else {
                assert(after.reservations[i] == self.reservations[i]);
            }
        }
        assert(parking::held_once(after.reservations)) by {
            assert forall|i: int, j: int| 0 <= i < j < after.reservations.len() implies (
            #[trigger] after.reservations[i]).window != (#[trigger] after.reservations[j]).window by {
                assert(self.reservations[i].window != self.reservations[j].window);
            }
        }
        assert forall|e: BlockedJob| #[trigger] after.blocked.contains(
            e,
        ) implies after.blocked_with_reason(e, now) by {
            self.lemma_reason_stays(after, e, now);
        }
    }

    pub proof fn lemma_dispose_orderly(self, c: Candidate, now: Instant)
        requires
            self.inv(),
            self.orderly(now),
            self.grantable(c, now),
            self.jobs[c.job.value].meta.scope == c.scope,
            self.jobs[c.job.value].meta.weight == c.weight,
        ensures
            self.dispose(c, now).orderly(now),
    {
        let checked = self.after_admission(c, now);
        self.lemma_after_admission_opens_nothing(c, now);
        self.lemma_after_admission_inv(c, now);
        self.lemma_orderly_frame(checked, now, now);
        match self.admission(c, now) {
            Admission::Pass => {
                let granted = checked.grant(c, now);
                checked.lemma_grant_opens_nothing(c, now);
                checked.lemma_orderly_frame(granted, now, now);
                checked.lemma_grant_inv(c, now);
                let after = self.dispose(c, now);
                granted.lemma_rearm_queues(c.scope, now);
                granted.lemma_opens_nothing(after, now);
                granted.lemma_orderly_frame(after, now, now);
            },
            Admission::Blocked { until, reserve } => {
                let meta = self.jobs[c.job.value].meta;
                self.lemma_blocked_until_closed(c, meta, now);
                assert forall|t: Instant|
                    now.nanos <= t.nanos < until.nanos implies #[trigger] checked.closed_to(
                    checked.jobs[c.job.value].meta,
                    t,
                ) by {
                    assert(self.closed_to(meta, t));
                }
                checked.lemma_block_orderly(c, until, reserve, now);
            },
            Admission::Reserved => {
                assert(checked.reservations == self.reservations);
                checked.lemma_park_orderly(c, now);
            },
        }
    }

    // Extending holds moves nobody.
    pub proof fn lemma_rearm_queues(self, scope: OutboundScope, now: Instant)
        ensures
            ({
                let after = self.rearm_reservations(scope, now);
                &&& after == (SchedulerView { reservations: after.reservations, ..self })
                &&& after.reservations.len() == self.reservations.len()
                &&& forall|i: int|
                    0 <= i < self.reservations.len() ==> (#[trigger] after.reservations[i]).window
                        == self.reservations[i].window && after.reservations[i].queue
                        == self.reservations[i].queue
            }),
    {
        fairness::lemma_find_bounds(self.reservations, OutboundScope::Global);
        let global = self.rearm_window(OutboundScope::Global, now);
        assert(global =~= (SchedulerView { reservations: global.reservations, ..self }));
        fairness::lemma_find_bounds(global.reservations, scope);
        let after = self.rearm_reservations(scope, now);
        assert(after =~= (SchedulerView { reservations: after.reservations, ..self }));
    }

    pub proof fn lemma_wake_next_orderly(self, scope: OutboundScope, now: Instant)
        requires
            self.inv(),
            self.orderly(now),
        ensures
            self.wake_next(scope, now).orderly(now),
    {
        let at = model::find(self.reservations, scope);
        if at < self.reservations.len() {
            self.lemma_wake_at_orderly(at as int, now, now);
        }
    }

    pub proof fn lemma_settle_orderly(self, c: Candidate, now: Instant)
        requires
            self.inv(),
            self.orderly(now),
            self.grantable(c, now),
            self.jobs[c.job.value].meta.scope == c.scope,
            self.jobs[c.job.value].meta.weight == c.weight,
        ensures
            self.settle(c, now).orderly(now),
    {
        self.lemma_dispose_orderly(c, now);
        self.lemma_dispose_inv(c, now);
        let after = self.dispose(c, now);
        after.lemma_wake_next_inv(OutboundScope::Global, now);
        after.lemma_wake_next_orderly(OutboundScope::Global, now);
        after.wake_next(OutboundScope::Global, now).lemma_wake_next_orderly(c.scope, now);
    }

    pub proof fn lemma_pick_orderly(self, now: Instant)
        requires
            self.inv(),
            self.orderly(now),
        ensures
            self.pick(now).0.orderly(now),
        decreases model::lingering(self.reservations, now),
    {
        self.lemma_woken_lingers_no_more(now);
        self.lemma_pop_candidate_inv(now);
        self.lemma_pop_candidate_calm(now);
        let (popped, found) = self.pop_candidate(now);
        self.lemma_calm_orderly(popped, now, now);
        match found {
            None => {
                let at = popped.first_lingering(now);
                if at < popped.reservations.len() {
                    popped.lemma_wake_at_inv(at as int, now);
                    popped.lemma_wake_at_orderly(at as int, now, now);
                    popped.wake_at(at as int, now).lemma_pick_orderly(now);
                }
            },
            Some(c) => {
                let at = popped.first_overtaken(c, now);
                if at < popped.reservations.len() {
                    let woken = popped.wake_at(at as int, now);
                    let back = woken.push_job_candidate(c.job, now);
                    let own = CandidateRef::Job(c.job);
                    popped.lemma_overtaking_is_unlaned(c, now);
                    popped.lemma_wake_at_inv(at as int, now);
                    popped.lemma_wake_at_waits(at as int, now);
                    popped.lemma_wake_at_orderly(at as int, now, now);
                    assert(popped.jobs.contains_key(c.job.value));
                    assert(woken.jobs.contains_key(c.job.value));
                    assert(woken.ref_ok(own));
                    woken.lemma_push_reference_inv(own, now);
                    assert(woken.calm(back));
                    woken.lemma_calm_orderly(back, now, now);
                    back.lemma_pick_orderly(now);
                }
            },
        }
    }

    proof fn lemma_loop_step_orderly(self, now: Instant)
        requires
            self.inv(),
            self.orderly(now),
        ensures
            self.pick(now).0.inv(),
            self.pick(now).0.orderly(now),
            self.pick(now).1 matches Some(c) ==> {
                &&& self.pick(now).0.settle(c, now).inv()
                &&& self.pick(now).0.settle(c, now).orderly(now)
            },
    {
        self.lemma_pick_inv(now);
        self.lemma_picked_describes(now);
        self.lemma_pick_orderly(now);
        let (popped, found) = self.pick(now);
        if let Some(c) = found {
            popped.lemma_settle_inv(c, now);
            popped.lemma_settle_orderly(c, now);
        }
    }

    proof fn lemma_grant_loop_orderly(self, now: Instant)
        requires
            self.inv(),
            self.orderly(now),
        ensures
            self.grant_loop(now).0.orderly(now),
            self.grant_loop(now).0.inv(),
        decreases
            self.jobs.dom().len(),
            model::lingering(self.reservations, now),
            self.disorder(now),
            self.candidates.len(),
    {
        self.lemma_loop_step_orderly(now);
        if let Some(c) = self.pick(now).1 {
            self.lemma_settle_decreases(now);
            self.pick(now).0.settle(c, now).lemma_grant_loop_orderly(now);
        }
    }

    // Forgetting what is over opens nothing from then on.
    proof fn lemma_prune_opens_nothing(self, now: Instant)
        requires
            self.windows_inv(),
        ensures
            self.opens_nothing(self.prune_penalties(now).prune_chats(now), now),
    {
        let after = self.prune_penalties(now).prune_chats(now);
        assert forall|meta: OutboundMeta, t: Instant|
            now.nanos <= t.nanos && self.closed_to(meta, t) implies #[trigger] after.closed_to(
            meta,
            t,
        ) by {
            if let OutboundScope::Chat(chat) = meta.scope {
                if self.chat_window_sets.contains_key(chat.value) {
                    let set = self.chat_window_sets[chat.value];
                    let kept = window::prune_all(set, now);
                    parking::lemma_full_pruned(set, meta.weight@, now, t);
                    if window::all_idle(kept) {
                        let limits = window::applicable(self.chat_limits, chat.value);
                        assert(soundness::windows_match(set, limits));
                        let fresh = window::fresh_all(limits);
                        assert forall|i: int| 0 <= i < kept.len() implies kept[i] == fresh[i] by {
                            assert(set[i].capacity == limits[i].capacity);
                            assert(kept[i].history =~= Seq::empty());
                        }
                        assert(kept =~= fresh);
                    }
                }
            }
        }
    }

    pub proof fn lemma_grant_ready_orderly(self, from: Instant, now: Instant)
        requires
            self.inv(),
            self.orderly(from),
            from.nanos <= now.nanos,
        ensures
            self.grant_ready(now).orderly(now),
    {
        self.lemma_promote_inv(now);
        self.lemma_promote_orderly(from, now);
        let mid = self.promote(now);
        mid.lemma_grant_loop_orderly(now);
        let end = mid.grant_loop(now).0;
        end.lemma_prune_opens_nothing(now);
        end.lemma_orderly_frame(self.grant_ready(now), now, now);
    }
}

} // verus!
