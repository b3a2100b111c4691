//! What a grant pass hands out and what it leaves waiting.

use super::entries::{BlockedJob, Candidate, DelayedJob, Job};
use super::model::{ReservationView, SchedulerView};
use super::{
    arbitration, coverage, entries, fairness, laws, model, order, parking, picking, soundness,
    wakeups,
};
use crate::heap;
use crate::time::Instant;
use crate::types::{Grant, JobId, OutboundChatKey, OutboundScope, SchedulerWakeup};
use crate::window;
use crate::window::WindowView;
use vstd::prelude::*;

verus! {

broadcast use vstd::multiset::group_multiset_axioms;

/// The weight that a job asks of the global windows, or of those of a chat.
pub open spec fn share(job: Job, chat: Option<OutboundChatKey>) -> nat {
    match chat {
        None => job.meta.weight@ as nat,
        Some(key) => if job.meta.scope == OutboundScope::Chat(key) {
            job.meta.weight@ as nat
        } else {
            0
        },
    }
}

/// The weight that jobs ask for together.
pub open spec fn load(ids: Set<u64>, jobs: Map<u64, Job>, chat: Option<OutboundChatKey>) -> nat
    decreases ids.len(),
    when ids.finite()
{
    if ids.len() == 0 {
        0
    } else {
        let one = ids.choose();
        share(jobs[one], chat) + load(ids.remove(one), jobs, chat)
    }
}

proof fn lemma_load_remove(
    ids: Set<u64>,
    jobs: Map<u64, Job>,
    chat: Option<OutboundChatKey>,
    id: u64,
)
    requires
        ids.finite(),
        ids.contains(id),
    ensures
        load(ids, jobs, chat) == share(jobs[id], chat) + load(ids.remove(id), jobs, chat),
    decreases ids.len(),
{
    let one = ids.choose();
    assert(ids.contains(one));
    if one != id {
        lemma_load_remove(ids.remove(one), jobs, chat, id);
        lemma_load_remove(ids.remove(id), jobs, chat, one);
        assert(ids.remove(one).remove(id) =~= ids.remove(id).remove(one));
    }
}

proof fn lemma_load_same(
    ids: Set<u64>,
    jobs: Map<u64, Job>,
    other: Map<u64, Job>,
    chat: Option<OutboundChatKey>,
)
    requires
        ids.finite(),
        forall|k: u64| #[trigger] ids.contains(k) ==> jobs[k].meta == other[k].meta,
    ensures
        load(ids, jobs, chat) == load(ids, other, chat),
    decreases ids.len(),
{
    if ids.len() > 0 {
        let one = ids.choose();
        assert(ids.contains(one));
        lemma_load_same(ids.remove(one), jobs, other, chat);
    }
}

/// Whether every window of a set has room for this much at `now`.
pub open spec fn has_room(windows: Seq<WindowView>, weight: nat, now: Instant) -> bool {
    forall|i: int|
        0 <= i < windows.len() ==> window::total((#[trigger] windows[i]).prune(now).history)
            + weight <= windows[i].capacity
}

// What has room fits, and has room for the rest once it is used.
proof fn lemma_room_used(windows: Seq<WindowView>, now: Instant, weight: u32, rest: nat)
    requires
        has_room(windows, weight as nat + rest, now),
    ensures
        window::all_fit(window::prune_all(windows, now), weight),
        has_room(
            window::consume_all(window::prune_all(windows, now), now, weight),
            rest,
            now,
        ),
{
    let kept = window::prune_all(windows, now);
    let spent = window::consume_all(kept, now, weight);
    assert forall|i: int| 0 <= i < kept.len() implies (#[trigger] kept[i]).fits(weight) by {
        assert(kept[i] == windows[i].prune(now));
    }
    assert forall|i: int| 0 <= i < spent.len() implies window::total(
        (#[trigger] spent[i]).prune(now).history,
    ) + rest <= spent[i].capacity by {
        assert(kept[i] == windows[i].prune(now));
        window::lemma_total_push(kept[i].history, (now, weight));
        window::lemma_pruned_total(spent[i].history, spent[i].window, now);
    }
}

impl SchedulerView {
    /// Whether all windows together have room for all waiting jobs.
    pub open spec fn room_for_all(self, now: Instant) -> bool {
        &&& has_room(self.global_windows, load(self.jobs.dom(), self.jobs, None), now)
        &&& forall|k: u64| #[trigger] self.jobs.contains_key(k) ==> self.chat_room_for(k, now)
    }

    /// Whether the chat of a job has room for all its waiting jobs.
    pub open spec fn chat_room_for(self, id: u64, now: Instant) -> bool {
        self.jobs[id].meta.scope matches OutboundScope::Chat(chat) ==> has_room(
            self.chat_windows(chat),
            load(self.jobs.dom(), self.jobs, Some(chat)),
            now,
        )
    }

    /// Whether nothing holds the waiting jobs back but room: no window is
    /// held, no penalty on them goes on, nobody is in a lane, and all delays
    /// are over.
    pub open spec fn open_to_all(self, now: Instant) -> bool {
        &&& self.reservations.len() == 0
        &&& !self.penalty_active(OutboundScope::Global, now)
        &&& forall|k: u64| #[trigger]
            self.jobs.contains_key(k) ==> {
                &&& self.jobs[k].meta.lane is None
                &&& !entries::delayed_at(self.jobs[k], now)
                &&& !self.penalty_active(self.jobs[k].meta.scope, now)
            }
    }

    // Whether, besides, all have been readied and nobody sleeps.
    spec fn undisturbed(self, now: Instant) -> bool {
        &&& self.open_to_all(now)
        &&& forall|k: u64| #[trigger]
            self.jobs.contains_key(k) ==> arbitration::at_large(self.jobs[k])
                && !coverage::blocked_in(self.blocked, coverage::job_ref(k))
    }

    // ---------- nobody is left behind ----------

    proof fn lemma_pick_leaves_nobody(self, now: Instant)
        ensures
            self.pick(now).1 is None ==> self.pick(now).0.first_lingering(now) >= self.pick(
                now,
            ).0.reservations.len(),
        decreases model::lingering(self.reservations, now),
    {
        self.lemma_woken_lingers_no_more(now);
        let (popped, found) = self.pop_candidate(now);
        match found {
            None => {
                let at = popped.first_lingering(now);
                if at < popped.reservations.len() {
                    popped.wake_at(at as int, now).lemma_pick_leaves_nobody(now);
                }
            },
            Some(c) => {
                let at = popped.first_overtaken(c, now);
                if at < popped.reservations.len() {
                    popped.wake_at(at as int, now).push_job_candidate(
                        c.job,
                        now,
                    ).lemma_pick_leaves_nobody(now);
                }
            },
        }
    }

    proof fn lemma_loop_leaves_nobody(self, now: Instant)
        requires
            self.jobs.dom().finite(),
        ensures
            ({
                let end = self.grant_loop(now).0;
                end.first_lingering(now) >= end.reservations.len()
            }),
        decreases
            self.jobs.dom().len(),
            model::lingering(self.reservations, now),
            self.disorder(now),
            self.candidates.len(),
    {
        self.lemma_pick_leaves_nobody(now);
        if let Some(c) = self.pick(now).1 {
            self.lemma_settle_decreases(now);
            self.pick(now).0.settle(c, now).lemma_loop_leaves_nobody(now);
        }
    }

    /// After a pass, nobody is parked behind a hold that has ended.
    pub proof fn lemma_pass_leaves_nobody(self, now: Instant)
        requires
            self.inv(),
        ensures
            forall|i: int|
                0 <= i < self.grant_ready(now).reservations.len() && (
                #[trigger] self.grant_ready(now).reservations[i]).queue.len() > 0
                    ==> self.grant_ready(now).reservations[i].until.nanos > now.nanos,
    {
        self.lemma_promote_inv(now);
        self.promote(now).lemma_loop_leaves_nobody(now);
        let end = self.promote(now).grant_loop(now).0;
        picking::lemma_first_where(
            end.reservations,
            |r: ReservationView| model::lingers(r, now),
        );
        assert forall|i: int|
            0 <= i < self.grant_ready(now).reservations.len() && (
            #[trigger] self.grant_ready(now).reservations[i]).queue.len() > 0 implies
            self.grant_ready(now).reservations[i].until.nanos > now.nanos by {
            assert(!model::lingers(end.reservations[i], now));
        }
    }

    // ---------- room for all ----------

    // Who sleeps for nothing is woken when a pass begins, and whose delay is
    // over is readied.
    proof fn lemma_promote_undisturbed(self, earlier: Instant, now: Instant)
        requires
            self.inv(),
            self.orderly(earlier),
            earlier.nanos <= now.nanos,
            wakeups::spans_every_level(self.aging),
            self.open_to_all(now),
            self.room_for_all(now),
        ensures
            self.promote(now).undisturbed(now),
            self.promote(now).room_for_all(now),
    {
        let mid = self.promote(now);
        self.lemma_promote_inv(now);
        self.lemma_promote_waits(now);
        self.lemma_promote_ahead(now);
        self.lemma_promote_orderly(earlier, now);
        self.lemma_promote_holds_nothing(now);
        self.lemma_same_load(mid, None);
        assert forall|k: u64| #[trigger] mid.jobs.contains_key(k) implies arbitration::at_large(
            mid.jobs[k],
        ) && mid.chat_room_for(k, now) && !mid.penalty_active(mid.jobs[k].meta.scope, now) by {
            assert(mid.jobs.dom().contains(k));
            assert(self.jobs.contains_key(k));
            assert(self.chat_room_for(k, now));
            assert(!self.penalty_active(self.jobs[k].meta.scope, now));
            if let OutboundScope::Chat(chat) = mid.jobs[k].meta.scope {
                self.lemma_same_load(mid, Some(chat));
            }
            if mid.jobs[k].not_before is Some {
                assert(soundness::has_entry(mid.delayed, k));
                let entry = choose|entry: DelayedJob| #[trigger]
                    mid.delayed.contains(entry) && entry.job.value == k;
                assert(mid.jobs[k].not_before == Some(entry.not_before));
            }
        }
        assert(mid.room_for_all(now));
        assert(!mid.penalty_active(OutboundScope::Global, now));
        assert forall|k: u64| #[trigger] mid.jobs.contains_key(k) implies !coverage::blocked_in(
            mid.blocked,
            coverage::job_ref(k),
        ) by {
            if coverage::blocked_in(mid.blocked, coverage::job_ref(k)) {
                let e = choose|e: BlockedJob| #[trigger]
                    mid.blocked.contains(e) && e.reference == coverage::job_ref(k);
                assert(mid.blocked_with_reason(e, now));
                assert(mid.closed_to(mid.jobs[k].meta, now));
                mid.lemma_room_is_open(k, now);
            }
        }
    }

    proof fn lemma_promote_holds_nothing(self, now: Instant)
        requires
            self.reservations.len() == 0,
        ensures
            self.promote(now).reservations.len() == 0,
    {
        let start = SchedulerView {
            aging_events: model::later_events(self.aging_events, now),
            ..self
        };
        start.lemma_aging_steps_calm(model::due_events(self.aging_events, now), now);
        let a = self.promote_aging(now);
        a.lemma_promote_delayed_calm(now);
        let b = a.promote_delayed(now);
        b.lemma_wake_blocked_calm(now, now);
        let c = b.wake_blocked(now, now);
        assert(model::expired_windows(c.reservations, now).len() == 0);
    }

    // Where there is room for all, no window is closed to anybody.
    proof fn lemma_room_is_open(self, id: u64, now: Instant)
        requires
            self.jobs.dom().finite(),
            self.open_to_all(now),
            self.room_for_all(now),
            self.jobs.contains_key(id),
        ensures
            !self.closed_to(self.jobs[id].meta, now),
    {
        let ids = self.jobs.dom();
        let weight = self.jobs[id].meta.weight@;
        assert(ids.contains(id));
        lemma_load_remove(ids, self.jobs, None, id);
        lemma_room_used(self.global_windows, now, weight, load(ids.remove(id), self.jobs, None));
        if let OutboundScope::Chat(chat) = self.jobs[id].meta.scope {
            lemma_load_remove(ids, self.jobs, Some(chat), id);
            assert(self.chat_room_for(id, now));
            lemma_room_used(
                self.chat_windows(chat),
                now,
                weight,
                load(ids.remove(id), self.jobs, Some(chat)),
            );
        }
    }

    proof fn lemma_same_load(self, after: SchedulerView, chat: Option<OutboundChatKey>)
        requires
            self.jobs.dom().finite(),
            after.jobs.dom() == self.jobs.dom(),
            forall|k: u64| #[trigger]
                after.jobs.contains_key(k) ==> after.jobs[k].meta == self.jobs[k].meta,
        ensures
            load(after.jobs.dom(), after.jobs, chat) == load(self.jobs.dom(), self.jobs, chat),
    {
        assert forall|k: u64| #[trigger] self.jobs.dom().contains(k) implies self.jobs[k].meta
            == after.jobs[k].meta by {
            assert(after.jobs.dom().contains(k));
            assert(after.jobs.contains_key(k));
        }
        lemma_load_same(self.jobs.dom(), self.jobs, after.jobs, chat);
    }

    // A candidate for which there is room among all others passes, and there
    // is room for the rest.
    proof fn lemma_settle_roomy(self, c: Candidate, now: Instant)
        requires
            self.jobs.dom().finite(),
            self.undisturbed(now),
            self.room_for_all(now),
            self.jobs.contains_key(c.job.value),
            self.jobs[c.job.value].meta.scope == c.scope,
            self.jobs[c.job.value].meta.weight == c.weight,
        ensures
            self.admission(c, now) is Pass,
            self.settle(c, now).undisturbed(now),
            self.settle(c, now).room_for_all(now),
            self.settle(c, now).jobs == self.jobs.remove(c.job.value),
    {
        let id = c.job.value;
        let ids = self.jobs.dom();
        let weight = c.weight@;
        assert(ids.contains(id));
        lemma_load_remove(ids, self.jobs, None, id);
        lemma_room_used(self.global_windows, now, weight, load(ids.remove(id), self.jobs, None));
        if let OutboundScope::Chat(chat) = c.scope {
            lemma_load_remove(ids, self.jobs, Some(chat), id);
            assert(self.chat_room_for(id, now));
            lemma_room_used(
                self.chat_windows(chat),
                now,
                weight,
                load(ids.remove(id), self.jobs, Some(chat)),
            );
        }
        assert(!self.penalty_active(OutboundScope::Global, now));
        assert(!self.penalty_active(c.scope, now));
        assert(self.admission(c, now) is Pass);
        let after = self.settle(c, now);
        assert(after.jobs =~= self.jobs.remove(id));
        assert(after.jobs.dom() =~= ids.remove(id));
        assert(after.reservations =~= Seq::empty());
        lemma_load_same(ids.remove(id), self.jobs, after.jobs, None);
        assert forall|k: u64| #[trigger] after.jobs.contains_key(k) implies after.chat_room_for(
            k,
            now,
        ) by {
            assert(self.jobs.contains_key(k));
            assert(self.chat_room_for(k, now));
            if let OutboundScope::Chat(chat) = after.jobs[k].meta.scope {
                lemma_load_same(ids.remove(id), self.jobs, after.jobs, Some(chat));
                lemma_load_remove(ids, self.jobs, Some(chat), id);
                if c.scope != OutboundScope::Chat(chat) {
                    assert(after.chat_windows(chat) == self.chat_windows(chat));
                }
            }
        }
        assert forall|k: u64| #[trigger] after.jobs.contains_key(k) implies !after.penalty_active(
            after.jobs[k].meta.scope,
            now,
        ) && !coverage::blocked_in(after.blocked, coverage::job_ref(k)) by {
            assert(self.jobs.contains_key(k));
            assert(!self.penalty_active(self.jobs[k].meta.scope, now));
        }
    }

    // With nothing parked, picking is taking out the best candidate.
    proof fn lemma_pick_undisturbed(self, now: Instant)
        requires
            self.inv(),
            self.undisturbed(now),
            self.room_for_all(now),
        ensures
            self.pick(now) == self.pop_candidate(now),
            self.pick(now).0.undisturbed(now),
            self.pick(now).0.room_for_all(now),
            self.pick(now).0.jobs.dom() == self.jobs.dom(),
    {
        self.lemma_pop_candidate_keeps(now);
        self.lemma_pop_candidate_waits(now);
        self.lemma_pop_candidate_blocked(now);
        let (popped, found) = self.pop_candidate(now);
        assert(popped.reservations.len() == 0);
        assert(self.pick(now) == (popped, found));
        assert forall|k: u64| #[trigger] popped.jobs.contains_key(k) implies arbitration::at_large(
            popped.jobs[k],
        ) && popped.chat_room_for(k, now) by {
            assert(popped.jobs.dom().contains(k));
            assert(self.jobs.contains_key(k));
            assert(self.chat_room_for(k, now));
            if let OutboundScope::Chat(chat) = popped.jobs[k].meta.scope {
                self.lemma_same_load(popped, Some(chat));
            }
        }
        self.lemma_same_load(popped, None);
        assert forall|k: u64| #[trigger] popped.jobs.contains_key(k) implies !popped.penalty_active(
            popped.jobs[k].meta.scope,
            now,
        ) && !coverage::blocked_in(popped.blocked, coverage::job_ref(k)) by {
            assert(popped.jobs.dom().contains(k));
            assert(self.jobs.contains_key(k));
            assert(!self.penalty_active(self.jobs[k].meta.scope, now));
        }
    }

    proof fn lemma_pop_candidate_blocked(self, now: Instant)
        ensures
            self.pop_candidate(now).0.blocked == self.blocked,
        decreases self.disorder(now), self.candidates.len(),
    {
        self.lemma_pop_step_decreases(now);
        let (after, step) = self.pop_step(now);
        if step is Again {
            after.lemma_pop_candidate_blocked(now);
        }
    }

    // Nobody waits where nobody is a candidate and nobody sleeps.
    proof fn lemma_nobody_waits(self, now: Instant)
        requires
            self.covered(),
            self.undisturbed(now),
            self.candidates.len() == 0,
        ensures
            forall|k: u64| !#[trigger] self.jobs.contains_key(k),
    {
        assert forall|k: u64| !#[trigger] self.jobs.contains_key(k) by {
            if self.jobs.contains_key(k) {
                assert(self.job_kept(k));
                if self.jobs[k].in_candidate_heap {
                    model::lemma_remove_shrinks(self.candidates, self.key_of(k));
                }
            }
        }
    }

    proof fn lemma_step_roomy(self, now: Instant)
        requires
            self.inv(),
            self.covered(),
            self.undisturbed(now),
            self.room_for_all(now),
        ensures
            match self.pick(now).1 {
                None => forall|k: u64| !#[trigger] self.pick(now).0.jobs.contains_key(k),
                Some(c) => {
                    let popped = self.pick(now).0;
                    let after = popped.settle(c, now);
                    &&& popped.admission(c, now) is Pass
                    &&& after.inv()
                    &&& after.covered()
                    &&& after.undisturbed(now)
                    &&& after.room_for_all(now)
                    &&& after.jobs.dom() == self.jobs.dom().remove(c.job.value)
                },
            },
            self.pick(now).0.jobs.dom() == self.jobs.dom(),
    {
        self.lemma_pick_inv(now);
        self.lemma_pick_covered(now);
        self.lemma_picked_describes(now);
        self.lemma_pick_undisturbed(now);
        let (popped, found) = self.pick(now);
        match found {
            None => popped.lemma_nobody_waits(now),
            Some(c) => {
                popped.lemma_settle_roomy(c, now);
                popped.lemma_settle_inv(c, now);
                popped.lemma_dispose_covered(c, now);
                popped.lemma_settle_covered(c, now);
                assert(popped.settle(c, now).jobs.dom() =~= self.jobs.dom().remove(c.job.value));
            },
        }
    }

    proof fn lemma_loop_grants_all(self, now: Instant)
        requires
            self.inv(),
            self.covered(),
            self.undisturbed(now),
            self.room_for_all(now),
        ensures
            forall|k: u64| !#[trigger] self.grant_loop(now).0.jobs.contains_key(k),
            forall|k: u64| #[trigger]
                self.jobs.contains_key(k) ==> laws::names(self.grant_loop(now).1, k),
        decreases
            self.jobs.dom().len(),
            model::lingering(self.reservations, now),
            self.disorder(now),
            self.candidates.len(),
    {
        self.lemma_step_roomy(now);
        match self.pick(now).1 {
            None => {
                assert forall|k: u64| #[trigger] self.jobs.contains_key(k) implies laws::names(
                    self.grant_loop(now).1,
                    k,
                ) by {
                    assert(self.pick(now).0.jobs.dom().contains(k));
                    assert(self.pick(now).0.jobs.contains_key(k));
                }
            },
            Some(c) => {
                self.lemma_settle_decreases(now);
                let after = self.pick(now).0.settle(c, now);
                after.lemma_loop_grants_all(now);
                assert forall|k: u64| #[trigger] self.jobs.contains_key(k) implies laws::names(
                    self.grant_loop(now).1,
                    k,
                ) by {
                    order::lemma_names_joined(c.job, after.grant_loop(now).1, k);
                    if k != c.job.value {
                        assert(after.jobs.dom().contains(k));
                        assert(after.jobs.contains_key(k));
                    }
                }
            },
        }
    }
}

// The deadline of the holds is not after any of them that is active.
proof fn lemma_earliest_hold_is_least(
    found: Option<Instant>,
    reservations: Seq<ReservationView>,
    now: Instant,
)
    ensures
        match model::earliest_hold(found, reservations, now) {
            None => {
                &&& found is None
                &&& forall|i: int|
                    0 <= i < reservations.len() ==> (#[trigger] reservations[i]).until.nanos
                        <= now.nanos
            },
            Some(at) => {
                &&& found matches Some(other) ==> at.nanos <= other.nanos
                &&& forall|i: int|
                    0 <= i < reservations.len() ==> (#[trigger] reservations[i]).until.nanos
                        <= now.nanos || at.nanos <= reservations[i].until.nanos
            },
        },
    decreases reservations.len(),
{
    if reservations.len() > 0 {
        let rest = reservations.drop_last();
        lemma_earliest_hold_is_least(found, rest, now);
        assert forall|i: int| 0 <= i < rest.len() implies #[trigger] reservations[i]
            == rest[i] by {}
    }
}

proof fn lemma_expired_windows_ended(
    reservations: Seq<ReservationView>,
    now: Instant,
    window: OutboundScope,
)
    requires
        model::expired_windows(reservations, now).contains(window),
    ensures
        exists|i: int|
            0 <= i < reservations.len() && (#[trigger] reservations[i]).window == window
                && reservations[i].until.nanos <= now.nanos,
    decreases reservations.len(),
{
    if reservations.len() > 0 {
        let rest = reservations.drop_last();
        let windows = model::expired_windows(reservations, now);
        let before = model::expired_windows(rest, now);
        let k = choose|k: int| 0 <= k < windows.len() && windows[k] == window;
        if k < before.len() {
            assert(before[k] == window);
            lemma_expired_windows_ended(rest, now, window);
            let i = choose|i: int|
                0 <= i < rest.len() && (#[trigger] rest[i]).window == window
                    && rest[i].until.nanos <= now.nanos;
            assert(reservations[i] == rest[i]);
        } else {
            assert(reservations[reservations.len() - 1].window == window);
        }
    }
}

impl SchedulerView {
    // Holds that have ended and keep nobody go away without waking anybody.
    proof fn lemma_empty_holds_go(self, windows: Seq<OutboundScope>, now: Instant)
        requires
            parking::held_once(self.reservations),
            forall|k: int|
                0 <= k < windows.len() ==> model::expired_windows(
                    self.reservations,
                    now,
                ).contains(#[trigger] windows[k]),
            forall|i: int|
                0 <= i < self.reservations.len() ==> (
                #[trigger] self.reservations[i]).until.nanos > now.nanos
                    || self.reservations[i].queue.len() == 0,
        ensures
            ({
                let after = self.reservation_steps(windows, now);
                &&& after == (SchedulerView { reservations: after.reservations, ..self })
                &&& forall|j: int|
                    0 <= j < after.reservations.len() ==> self.reservations.contains(
                        #[trigger] after.reservations[j],
                    )
            }),
        decreases windows.len(),
    {
        if windows.len() > 0 {
            let before = windows.drop_last();
            let window = windows.last();
            assert forall|k: int| 0 <= k < before.len() implies model::expired_windows(
                self.reservations,
                now,
            ).contains(#[trigger] before[k]) by {
                assert(before[k] == windows[k]);
            }
            self.lemma_empty_holds_go(before, now);
            let mid = self.reservation_steps(before, now);
            let at = model::find(mid.reservations, window) as int;
            fairness::lemma_find_bounds(mid.reservations, window);
            if at < mid.reservations.len() {
                assert(windows[windows.len() - 1] == window);
                lemma_expired_windows_ended(self.reservations, now, window);
                let i = choose|i: int|
                    0 <= i < self.reservations.len() && (
                    #[trigger] self.reservations[i]).window == window
                        && self.reservations[i].until.nanos <= now.nanos;
                assert(self.reservations.contains(mid.reservations[at]));
                let j = choose|j: int|
                    0 <= j < self.reservations.len() && self.reservations[j]
                        == mid.reservations[at];
                if i != j {
                    assert(self.reservations[i].window != self.reservations[j].window);
                }
                assert(mid.reservations[at].queue.len() == 0);
                let after = mid.wake_at(at, now);
                assert(after == (SchedulerView {
                    reservations: mid.reservations.remove(at),
                    ..mid
                }));
                assert forall|k: int| 0 <= k < after.reservations.len() implies
                    self.reservations.contains(#[trigger] after.reservations[k]) by {
                    if k < at {
                        assert(after.reservations[k] == mid.reservations[k]);
                    } else {
                        assert(after.reservations[k] == mid.reservations[k + 1]);
                    }
                }
            }
        } else {
            assert forall|j: int| 0 <= j < self.reservations.len() implies
                self.reservations.contains(#[trigger] self.reservations[j]) by {}
        }
    }

    // Where nobody is a candidate, nothing is due and nobody is parked
    // behind an ended hold, nothing is granted.
    proof fn lemma_nothing_due_nothing_granted(self, now: Instant)
        requires
            self.jobs.dom().finite(),
            parking::held_once(self.reservations),
            self.candidates.len() == 0,
            self.delayed.len() > 0 ==> heap::first_of(self.delayed).not_before.nanos > now.nanos,
            self.blocked.len() > 0 ==> heap::first_of(self.blocked).until.nanos > now.nanos,
            self.aging_events.len() > 0 ==> heap::first_of(self.aging_events).at.nanos > now.nanos,
            forall|i: int|
                0 <= i < self.reservations.len() ==> (
                #[trigger] self.reservations[i]).until.nanos > now.nanos
                    || self.reservations[i].queue.len() == 0,
        ensures
            self.grants(now).len() == 0,
    {
        let windows = model::expired_windows(self.reservations, now);
        assert forall|k: int| 0 <= k < windows.len() implies windows.contains(
            #[trigger] windows[k],
        ) by {}
        assert(self.promote_aging(now) == self);
        assert(self.promote_delayed(now) == self);
        assert(self.wake_blocked(now, now) == self);
        self.lemma_empty_holds_go(windows, now);
        let mid = self.promote(now);
        assert(mid.candidates == self.candidates);
        assert(mid.pop_candidate(now) == (mid, None::<Candidate>));
        picking::lemma_first_where(mid.reservations, |r: ReservationView| model::lingers(r, now));
        let at = mid.first_lingering(now) as int;
        if at < mid.reservations.len() {
            assert(self.reservations.contains(mid.reservations[at]));
        }
        assert(mid.pick(now).1 is None);
        assert(mid.jobs == self.jobs);
    }
}

/// Nothing is granted before the deadline that a pass leaves behind: from
/// the pass until the moment to wait for, or for ever if there is none,
/// another pass grants nothing.
pub proof fn law_nothing_is_granted_before_the_deadline(
    s: SchedulerView,
    earlier: Instant,
    now: Instant,
    soon: Instant,
)
    requires
        s.inv(),
        s.covered(),
        s.orderly(earlier),
        earlier.nanos <= now.nanos <= soon.nanos,
        match s.grant_ready(now).wakeup(now) {
            SchedulerWakeup::Immediate => false,
            SchedulerWakeup::At(at) => soon.nanos < at.nanos,
            SchedulerWakeup::ExternalEvent => true,
        },
    ensures
        s.grant_ready(now).trimmed().grants(soon).len() == 0,
{
    let done = s.grant_ready(now);
    let after = done.trimmed();
    s.lemma_grant_ready_inv(now);
    s.lemma_grant_ready_covered(now);
    s.lemma_grant_ready_orderly(earlier, now);
    s.lemma_pass_leaves_nobody(now);
    laws::lemma_trimmed_keeps_jobs(done);
    let a = if after.delayed.len() > 0 {
        Some(heap::first_of(after.delayed).not_before)
    } else {
        None
    };
    let b = if after.blocked.len() > 0 {
        model::sooner(a, heap::first_of(after.blocked).until)
    } else {
        a
    };
    let c = if after.aging_events.len() > 0 {
        model::sooner(b, heap::first_of(after.aging_events).at)
    } else {
        b
    };
    lemma_earliest_hold_is_least(c, after.reservations, now);
    assert forall|i: int| 0 <= i < after.reservations.len() implies (
    #[trigger] after.reservations[i]).until.nanos > soon.nanos || after.reservations[i].queue.len()
        == 0 by {
        assert(after.reservations[i] == done.reservations[i]);
    }
    after.lemma_nothing_due_nothing_granted(soon);
}

/// A pass grants whatever fits: an unlaned job without a delay that still
/// waits after a pass does not pass at its moment, and nobody is parked
/// behind a hold that has ended.
pub proof fn law_a_pass_grants_whatever_fits(
    s: SchedulerView,
    earlier: Instant,
    id: u64,
    now: Instant,
)
    requires
        s.inv(),
        s.covered(),
        s.orderly(earlier),
        earlier.nanos <= now.nanos,
        now.nanos < u64::MAX,
        wakeups::spans_every_level(s.aging),
        s.windows_used_by(now),
        s.grant_ready(now).jobs.contains_key(id),
        arbitration::at_large(s.grant_ready(now).jobs[id]),
    ensures
        ({
            let after = s.grant_ready(now);
            &&& !after.jobs[id].in_candidate_heap
            &&& after.admission(order::as_candidate(after.jobs[id], id), now) !is Pass
            &&& !order::left_behind(after.reservations, id, now)
        }),
{
    let after = s.grant_ready(now);
    s.lemma_grant_ready_covered(now);
    s.lemma_grant_ready_orderly(earlier, now);
    s.lemma_pass_leaves_nobody(now);
    s.lemma_pass_leaves_nothing_due(now);
    let own = coverage::job_ref(id);
    assert(after.job_kept(id));
    if after.jobs[id].in_candidate_heap {
        model::lemma_remove_shrinks(after.candidates, after.key_of(id));
    }
    assert(after.sleeps(own));
    if coverage::blocked_in(after.blocked, own) {
        let e = choose|e: BlockedJob| #[trigger]
            after.blocked.contains(e) && e.reference == own;
        assert(after.blocked_with_reason(e, now));
        assert(after.closed_to(after.jobs[id].meta, now));
    } else {
        let i = choose|i: int|
            0 <= i < after.reservations.len() && (#[trigger] after.reservations[i]).queue.contains(
                own,
            );
        after.lemma_parked_is_fair(id, i, now);
    }
}

/// A job as it is once its delay is over: it has been ready since the pass
/// that finds it so.
pub open spec fn readied(job: Job, now: Instant) -> Job {
    if job.not_before is Some {
        Job { not_before: None, ready_at: now, ..job }
    } else {
        job
    }
}

/// Whether the waiting job `a` goes before `b` at `now` once both are ready:
/// by its effective priority, and among equals by its age.
pub open spec fn goes_before_when_ready(s: SchedulerView, a: u64, b: u64, now: Instant) -> bool {
    let first = entries::effective(readied(s.jobs[a], now), s.aging, now);
    let second = entries::effective(readied(s.jobs[b], now), s.aging, now);
    first > second || first == second && s.jobs[a].sequence < s.jobs[b].sequence
}

/// Where there is room for everybody, everybody is granted: with no window
/// held, no penalty going on, nobody in a lane, every delay over, and room
/// for all waiting jobs in every window they ask for, a pass grants exactly
/// the waiting jobs, by effective priority and among equals by age. That some
/// were delayed, or were blocked by a penalty that is over, makes no
/// difference.
pub proof fn law_room_for_all_grants_all(s: SchedulerView, earlier: Instant, now: Instant)
    requires
        s.inv(),
        s.covered(),
        s.in_rank(earlier),
        s.orderly(earlier),
        earlier.nanos <= now.nanos,
        wakeups::spans_every_level(s.aging),
        s.open_to_all(now),
        s.room_for_all(now),
    ensures
        forall|k: u64| #[trigger] s.jobs.contains_key(k) <==> laws::names(s.grants(now), k),
        forall|k: u64| !#[trigger] s.grant_ready(now).jobs.contains_key(k),
        forall|i: int, j: int|
            0 <= i < j < s.grants(now).len() ==> goes_before_when_ready(
                s,
                #[trigger] s.grants(now)[i].job.value,
                #[trigger] s.grants(now)[j].job.value,
                now,
            ),
{
    let mid = s.promote(now);
    s.lemma_promote_inv(now);
    s.lemma_promote_waits(now);
    s.lemma_promote_covered(now);
    s.lemma_promote_undisturbed(earlier, now);
    mid.lemma_loop_grants_all(now);
    laws::lemma_loop_moves(mid, now);
    assert forall|k: u64| #[trigger] s.jobs.contains_key(k) <==> laws::names(s.grants(now), k) by {
        assert(s.jobs.dom().contains(k) <==> mid.jobs.dom().contains(k));
        assert(s.jobs.contains_key(k) <==> mid.jobs.contains_key(k));
        if laws::names(s.grants(now), k) {
            let grants = s.grants(now);
            let at = choose|at: int|
                0 <= at < grants.len() && grants[at] == (Grant { job: JobId { value: k } });
            assert(laws::may_be_granted(mid, grants[at].job.value, now));
        }
    }
    assert forall|i: int, j: int| 0 <= i < j < s.grants(now).len() implies goes_before_when_ready(
        s,
        #[trigger] s.grants(now)[i].job.value,
        #[trigger] s.grants(now)[j].job.value,
        now,
    ) by {
        let a = s.grants(now)[i].job.value;
        let b = s.grants(now)[j].job.value;
        assert(laws::may_be_granted(mid, mid.grant_loop(now).1[i].job.value, now));
        assert(laws::may_be_granted(mid, mid.grant_loop(now).1[j].job.value, now));
        assert(mid.jobs.contains_key(a) && mid.jobs.contains_key(b));
        assert(mid.jobs.dom().contains(a) && mid.jobs.dom().contains(b));
        assert(s.jobs.contains_key(a) && s.jobs.contains_key(b));
        assert(mid.job_kept(b));
        fairness::law_grants_come_in_turn(s, earlier, now, i, j);
        lemma_promote_readies(s, a, now);
        lemma_promote_readies(s, b, now);
    }
}

proof fn lemma_promote_readies(s: SchedulerView, id: u64, now: Instant)
    requires
        s.inv(),
        s.delayed_once(),
        s.jobs.contains_key(id),
        !entries::delayed_at(s.jobs[id], now),
    ensures
        s.promote(now).jobs[id].ready_at == readied(s.jobs[id], now).ready_at,
{
    if s.jobs[id].not_before is None {
        s.lemma_promote_standing(id, now);
    } else {
        assert(soundness::has_entry(s.delayed, id));
        s.lemma_promote_rouses(id, now);
    }
}

} // verus!
