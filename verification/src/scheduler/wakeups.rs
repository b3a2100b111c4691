//! What waits for time after a grant pass waits for the future.

use super::entries::{
    Admission, AgingEvent, BlockedJob, Candidate, CandidateRef, DelayedJob, Job,
};
use super::model::{ReservationView, SchedulerView};
use super::{entries, lane, model, soundness, soundness_grant};
use crate::time::Instant;
use crate::types::{AgingPolicy, OutboundScope, WindowLimit, HIGHEST_LEVEL};
use crate::window::WindowView;
use crate::{heap, window};
use vstd::prelude::*;

verus! {

broadcast use vstd::multiset::group_multiset_axioms;

/// Whether aging lifts a job from the lowest to the highest level.
pub open spec fn spans_every_level(aging: AgingPolicy) -> bool {
    aging.quantum.nanos > 0 && aging.max_boost >= HIGHEST_LEVEL
}

/// Whether a history lists its grants in the order of time, none after `now`.
pub open spec fn recorded_by(history: Seq<(Instant, u32)>, now: Instant) -> bool {
    &&& window::in_time_order(history)
    &&& forall|i: int| 0 <= i < history.len() ==> (#[trigger] history[i]).0.nanos <= now.nanos
}

/// Whether every window of a set has been used in the order of time, not
/// after `now`.
pub open spec fn used_by(windows: Seq<WindowView>, now: Instant) -> bool {
    forall|i: int| 0 <= i < windows.len() ==> recorded_by((#[trigger] windows[i]).history, now)
}

proof fn lemma_pruned_by(
    history: Seq<(Instant, u32)>,
    span: crate::time::Duration,
    at: Instant,
    now: Instant,
)
    requires
        recorded_by(history, now),
    ensures
        recorded_by(window::pruned(history, span, at), now),
        forall|i: int|
            0 <= i < window::pruned(history, span, at).len() ==> !window::expired(
                (#[trigger] window::pruned(history, span, at)[i]).0,
                span,
                at,
            ),
    decreases history.len(),
{
    if history.len() > 0 && window::expired(history[0].0, span, at) {
        let rest = history.drop_first();
        assert(recorded_by(rest, now)) by {
            assert forall|i: int, j: int| 0 <= i <= j < rest.len() implies (
            #[trigger] rest[i]).0.nanos <= (#[trigger] rest[j]).0.nanos by {
                assert(history[i + 1].0.nanos <= history[j + 1].0.nanos);
            }
            assert forall|i: int| 0 <= i < rest.len() implies (#[trigger] rest[i]).0.nanos
                <= now.nanos by {
                assert(history[i + 1].0.nanos <= now.nanos);
            }
        }
        lemma_pruned_by(rest, span, at, now);
    } else {
        assert forall|i: int| 0 <= i < history.len() implies !window::expired(
            (#[trigger] history[i]).0,
            span,
            at,
        ) by {
            assert(history[0].0.nanos <= history[i].0.nanos);
        }
    }
}

proof fn lemma_used_later(windows: Seq<WindowView>, now: Instant, later: Instant)
    requires
        used_by(windows, now),
        now.nanos <= later.nanos,
    ensures
        used_by(windows, later),
{
    assert forall|i: int| 0 <= i < windows.len() implies recorded_by(
        (#[trigger] windows[i]).history,
        later,
    ) by {
        assert(recorded_by(windows[i].history, now));
    }
}

/// Windows under new limits have been used when the old ones were.
pub proof fn lemma_relimit_used(windows: Seq<WindowView>, limits: Seq<WindowLimit>, now: Instant)
    requires
        used_by(windows, now),
    ensures
        used_by(window::relimit(windows, limits), now),
{
    if windows.len() > 0 {
        lemma_longest_in_range(windows);
        assert(recorded_by(windows[window::longest(windows)].history, now));
    }
}

proof fn lemma_longest_in_range(windows: Seq<WindowView>)
    requires
        windows.len() > 0,
    ensures
        0 <= window::longest(windows) < windows.len(),
    decreases windows.len(),
{
    if windows.len() > 1 {
        lemma_longest_in_range(windows.drop_last());
    }
}

proof fn lemma_prune_used(windows: Seq<WindowView>, now: Instant)
    requires
        used_by(windows, now),
    ensures
        used_by(window::prune_all(windows, now), now),
{
    let after = window::prune_all(windows, now);
    assert forall|i: int| 0 <= i < after.len() implies recorded_by(
        (#[trigger] after[i]).history,
        now,
    ) by {
        assert(recorded_by(windows[i].history, now));
        lemma_pruned_by(windows[i].history, windows[i].window, now, now);
    }
}

proof fn lemma_consume_used(windows: Seq<WindowView>, now: Instant, weight: u32)
    requires
        used_by(windows, now),
    ensures
        used_by(window::consume_all(windows, now, weight), now),
{
    let after = window::consume_all(windows, now, weight);
    assert forall|i: int| 0 <= i < after.len() implies recorded_by(
        (#[trigger] after[i]).history,
        now,
    ) by {
        assert(recorded_by(windows[i].history, now));
    }
}

// The moment an unexpired history makes room lies ahead.
proof fn lemma_release_ahead(
    history: Seq<(Instant, u32)>,
    span: crate::time::Duration,
    capacity: u32,
    weight: u32,
    now: Instant,
)
    requires
        now.nanos < u64::MAX,
        forall|i: int|
            0 <= i < history.len() ==> !window::expired((#[trigger] history[i]).0, span, now),
        window::release(history, span, capacity, weight) is Some,
    ensures
        window::release(history, span, capacity, weight)->0.nanos > now.nanos,
    decreases history.len(),
{
    assert(!window::expired(history[0].0, span, now));
    if window::total(history.drop_first()) + weight > capacity {
        let rest = history.drop_first();
        assert forall|i: int| 0 <= i < rest.len() implies !window::expired(
            (#[trigger] rest[i]).0,
            span,
            now,
        ) by {
            assert(rest[i] == history[i + 1]);
        }
        lemma_release_ahead(rest, span, capacity, weight, now);
    }
}

// A set without room has room at a moment that lies ahead.
proof fn lemma_room_ahead(windows: Seq<WindowView>, weight: u32, now: Instant)
    requires
        now.nanos < u64::MAX,
        used_by(windows, now),
        forall|i: int| 0 <= i < windows.len() ==> weight <= (#[trigger] windows[i]).capacity,
    ensures
        ({
            let pruned = window::prune_all(windows, now);
            &&& window::earliest_for_all(pruned, now, weight) is Some
            &&& window::earliest_for_all(pruned, now, weight)->0.nanos >= now.nanos
            &&& !window::all_fit(pruned, weight) ==> window::earliest_for_all(
                pruned,
                now,
                weight,
            )->0.nanos > now.nanos
        }),
    decreases windows.len(),
{
    let pruned = window::prune_all(windows, now);
    if windows.len() > 0 {
        let front = windows.drop_last();
        assert(window::prune_all(front, now) =~= pruned.drop_last());
        assert(used_by(front, now)) by {
            assert forall|i: int| 0 <= i < front.len() implies recorded_by(
                (#[trigger] front[i]).history,
                now,
            ) by {
                assert(front[i] == windows[i]);
            }
        }
        assert forall|i: int| 0 <= i < front.len() implies weight <= (
        #[trigger] front[i]).capacity by {
            assert(front[i] == windows[i]);
        }
        lemma_room_ahead(front, weight, now);
        let last = windows[windows.len() - 1];
        assert(weight <= last.capacity);
        assert(recorded_by(last.history, now));
        lemma_pruned_by(last.history, last.window, now, now);
        let kept = last.prune(now);
        assert(pruned.last() == kept);
        window::law_fitting_weight_has_a_release(kept, now, weight);
        if !kept.fits(weight) {
            lemma_release_ahead(kept.history, kept.window, kept.capacity, weight, now);
        }
        if !window::all_fit(pruned, weight) && kept.fits(weight) {
            let i = choose|i: int| 0 <= i < pruned.len() && !(#[trigger] pruned[i]).fits(weight);
            assert(pruned.drop_last()[i] == pruned[i]);
            assert(!window::all_fit(pruned.drop_last(), weight));
        }
    }
}

// A weight that no limit is too small for fits every capacity.
proof fn lemma_capacities(windows: Seq<WindowView>, limits: Seq<WindowLimit>, weight: u32)
    requires
        soundness::windows_match(windows, limits),
        model::too_small(limits, weight) is None,
    ensures
        forall|i: int| 0 <= i < windows.len() ==> weight <= (#[trigger] windows[i]).capacity,
    decreases limits.len(),
{
    if limits.len() > 0 {
        let rest = windows.drop_first();
        let fewer = limits.drop_first();
        assert(soundness::windows_match(rest, fewer)) by {
            assert forall|i: int| 0 <= i < rest.len() implies (#[trigger] rest[i]).capacity
                == fewer[i].capacity && rest[i].window == fewer[i].window by {
                assert(windows[i + 1].capacity == limits[i + 1].capacity);
            }
        }
        lemma_capacities(rest, fewer, weight);
        assert forall|i: int| 0 <= i < windows.len() implies weight <= (
        #[trigger] windows[i]).capacity by {
            if i > 0 {
                assert(rest[i - 1] == windows[i]);
            }
        }
    }
}

// The next rise of a priority lies ahead.
pub proof fn lemma_rise_ahead(job: Job, aging: AgingPolicy, now: Instant)
    requires
        spans_every_level(aging),
    ensures
        ({
            let level = entries::effective(job, aging, now);
            &&& job.meta.priority.value <= level
            &&& level < HIGHEST_LEVEL ==> job.ready_at.nanos + (level + 1
                - job.meta.priority.value) * entries::quantum_nanos(aging) > now.nanos
        }),
{
    let q = entries::quantum_nanos(aging) as int;
    let level = entries::effective(job, aging, now);
    let base = job.meta.priority.value;
    let waited = if now.nanos > job.ready_at.nanos {
        now.nanos - job.ready_at.nanos
    } else {
        0
    };
    let levels = waited / q;
    assert(levels >= 0 && (levels + 1) * q > waited) by (nonlinear_arith)
        requires
            levels == waited / q,
            q >= 1,
            waited >= 0,
    ;
    if level < HIGHEST_LEVEL {
        assert(level == base + levels);
        assert((level + 1 - base) * q == (levels + 1) * q) by (nonlinear_arith)
            requires
                level == base + levels,
        ;
        assert((levels + 1) * q >= 1) by (nonlinear_arith)
            requires
                levels >= 0,
                q >= 1,
        ;
    }
}

impl SchedulerView {
    /// Whether every aging moment lies ahead.
    pub open spec fn rises_ahead(self, now: Instant) -> bool {
        forall|event: AgingEvent| #[trigger]
            self.aging_events.contains(event) ==> event.at.nanos > now.nanos
    }

    /// Whether every delay deadline lies ahead.
    pub open spec fn delays_ahead(self, now: Instant) -> bool {
        forall|entry: DelayedJob| #[trigger]
            self.delayed.contains(entry) ==> entry.not_before.nanos > now.nanos
    }

    /// Whether every blocked candidate sleeps until a moment that lies ahead.
    pub open spec fn blocks_ahead(self, now: Instant) -> bool {
        forall|entry: BlockedJob| #[trigger]
            self.blocked.contains(entry) ==> entry.until.nanos > now.nanos
    }

    /// Whether all windows have been used in the order of time, not after
    /// `now`.
    pub open spec fn windows_used_by(self, now: Instant) -> bool {
        &&& used_by(self.global_windows, now)
        &&& forall|chat: u64| #[trigger]
            self.chat_window_sets.contains_key(chat) ==> used_by(self.chat_window_sets[chat], now)
    }

    pub proof fn lemma_windows_used_later(self, now: Instant, later: Instant)
        requires
            self.windows_used_by(now),
            now.nanos <= later.nanos,
        ensures
            self.windows_used_by(later),
    {
        lemma_used_later(self.global_windows, now, later);
        assert forall|chat: u64| #[trigger] self.chat_window_sets.contains_key(
            chat,
        ) implies used_by(self.chat_window_sets[chat], later) by {
            lemma_used_later(self.chat_window_sets[chat], now, later);
        }
    }

    proof fn lemma_push_key_ahead(self, reference: CandidateRef, job: Job, now: Instant)
        requires
            spans_every_level(self.aging),
            self.rises_ahead(now),
        ensures
            self.push_key(reference, job, now).rises_ahead(now),
            self.schedule_aging(
                reference,
                entries::effective(job, self.aging, now),
                job.meta.priority.value,
                job.ready_at,
            ).rises_ahead(now),
    {
        lemma_rise_ahead(job, self.aging, now);
        let after = self.push_key(reference, job, now);
        assert forall|event: AgingEvent| #[trigger]
            after.aging_events.contains(event) implies event.at.nanos > now.nanos by {
            if !self.aging_events.contains(event) {
                assert(event.reference == reference);
            }
        }
        assert(after.aging_events == self.schedule_aging(
            reference,
            entries::effective(job, self.aging, now),
            job.meta.priority.value,
            job.ready_at,
        ).aging_events);
    }

    pub proof fn lemma_push_ahead(self, reference: CandidateRef, now: Instant)
        requires
            spans_every_level(self.aging),
            self.rises_ahead(now),
        ensures
            self.push_reference(reference, now).rises_ahead(now),
    {
        match reference {
            CandidateRef::Job(id) => {
                if self.jobs.contains_key(id.value) {
                    let job = self.jobs[id.value];
                    let noted = SchedulerView {
                        jobs: self.jobs.insert(
                            id.value,
                            Job {
                                in_candidate_heap: true,
                                candidate_effective: entries::effective(job, self.aging, now),
                                ..job
                            },
                        ),
                        ..self
                    };
                    noted.lemma_push_key_ahead(reference, job, now);
                }
            },
            CandidateRef::Lane(key) => {
                if self.lanes.contains_key(key.value) && self.lanes[key.value].in_flight is None {
                    let drained = self.lanes[key.value].drained(self.jobs);
                    if drained.pending.len() > 0 {
                        let job = self.jobs[drained.pending[0].1.value];
                        let noted = SchedulerView {
                            lanes: self.lanes.insert(
                                key.value,
                                lane::LaneView {
                                    in_candidate_heap: true,
                                    candidate_effective: entries::effective(
                                        job,
                                        self.aging,
                                        now,
                                    ),
                                    ..drained
                                },
                            ),
                            ..self
                        };
                        noted.lemma_push_key_ahead(reference, job, now);
                    }
                }
            },
        }
    }

    proof fn lemma_aging_step_ahead(self, reference: CandidateRef, now: Instant)
        requires
            spans_every_level(self.aging),
            self.rises_ahead(now),
        ensures
            self.aging_step(reference, now).rises_ahead(now),
            self.aging_step(reference, now).aging == self.aging,
    {
        match reference {
            CandidateRef::Job(id) => {
                if self.jobs.contains_key(id.value) {
                    let job = self.jobs[id.value];
                    let level = entries::effective(job, self.aging, now);
                    let noted = SchedulerView {
                        jobs: self.jobs.insert(
                            id.value,
                            Job { candidate_effective: level, ..job },
                        ),
                        ..self
                    };
                    noted.lemma_push_key_ahead(reference, job, now);
                }
            },
            CandidateRef::Lane(key) => {
                if self.lanes.contains_key(key.value) && self.lanes[key.value].pending.len() > 0 {
                    let l = self.lanes[key.value];
                    let job = self.jobs[l.pending[0].1.value];
                    let level = entries::effective(job, self.aging, now);
                    let noted = SchedulerView {
                        lanes: self.lanes.insert(
                            key.value,
                            lane::LaneView { candidate_effective: level, ..l },
                        ),
                        ..self
                    };
                    noted.lemma_push_key_ahead(reference, job, now);
                    self.lemma_push_key_ahead(reference, job, now);
                }
            },
        }
    }

    proof fn lemma_aging_steps_ahead(self, due: Seq<AgingEvent>, now: Instant)
        requires
            spans_every_level(self.aging),
            self.rises_ahead(now),
        ensures
            self.aging_steps(due, now).rises_ahead(now),
            self.aging_steps(due, now).aging == self.aging,
        decreases due.len(),
    {
        if due.len() > 0 {
            self.lemma_aging_steps_ahead(due.drop_last(), now);
            self.aging_steps(due.drop_last(), now).lemma_aging_step_ahead(
                due.last().reference,
                now,
            );
        }
    }

    proof fn lemma_promote_delayed_ahead(self, now: Instant)
        requires
            spans_every_level(self.aging),
            self.rises_ahead(now),
        ensures
            self.promote_delayed(now).rises_ahead(now),
            self.promote_delayed(now).delays_ahead(now),
            self.promote_delayed(now).aging == self.aging,
        decreases self.delayed.len(),
    {
        if self.delayed.len() == 0 {
            assert forall|entry: DelayedJob| !self.delayed.contains(entry) by {
                assert(self.delayed.count(entry) <= self.delayed.len());
            }
        } else {
            heap::lemma_first_exists(self.delayed);
            let entry = heap::first_of(self.delayed);
            if entry.not_before.nanos > now.nanos {
                assert forall|e: DelayedJob| #[trigger] self.delayed.contains(e) implies
                    e.not_before.nanos > now.nanos by {
                    assert(!heap::rank_lt(
                        heap::Ranked::rank(e),
                        heap::Ranked::rank(entry),
                    ));
                }
            } else {
                let rest = SchedulerView { delayed: self.delayed.remove(entry), ..self };
                model::lemma_remove_shrinks(self.delayed, entry);
                rest.lemma_steps_keep_queues(entry, now);
                if rest.jobs.contains_key(entry.job.value) {
                    let job = rest.jobs[entry.job.value];
                    let ready = SchedulerView {
                        jobs: rest.jobs.insert(
                            entry.job.value,
                            Job { ready_at: now, not_before: None, ..job },
                        ),
                        ..rest
                    };
                    match job.meta.lane {
                        Some(key) => ready.lemma_push_ahead(CandidateRef::Lane(key), now),
                        None => ready.lemma_push_ahead(CandidateRef::Job(entry.job), now),
                    }
                }
                rest.delayed_step(entry, now).lemma_promote_delayed_ahead(now);
            }
        }
    }

    proof fn lemma_wake_blocked_ahead(self, now: Instant)
        requires
            spans_every_level(self.aging),
            self.rises_ahead(now),
        ensures
            self.wake_blocked(now, now).rises_ahead(now),
            self.wake_blocked(now, now).blocks_ahead(now),
            self.wake_blocked(now, now).delayed == self.delayed,
            self.wake_blocked(now, now).aging == self.aging,
        decreases self.blocked.len(),
    {
        if self.blocked.len() == 0 {
            assert forall|entry: BlockedJob| !self.blocked.contains(entry) by {
                assert(self.blocked.count(entry) <= self.blocked.len());
            }
        } else {
            heap::lemma_first_exists(self.blocked);
            let entry = heap::first_of(self.blocked);
            if entry.until.nanos > now.nanos {
                assert forall|e: BlockedJob| #[trigger] self.blocked.contains(e) implies
                    e.until.nanos > now.nanos by {
                    assert(!heap::rank_lt(
                        heap::Ranked::rank(e),
                        heap::Ranked::rank(entry),
                    ));
                }
            } else {
                let rest = SchedulerView { blocked: self.blocked.remove(entry), ..self };
                model::lemma_remove_shrinks(self.blocked, entry);
                rest.lemma_blocked_step_keeps_queues(entry.reference, now);
                rest.lemma_push_ahead(entry.reference, now);
                rest.blocked_step(entry.reference, now).lemma_wake_blocked_ahead(now);
            }
        }
    }

    proof fn lemma_reservation_steps_ahead(self, windows: Seq<OutboundScope>, now: Instant)
        requires
            spans_every_level(self.aging),
            self.rises_ahead(now),
        ensures
            self.reservation_steps(windows, now).rises_ahead(now),
            self.reservation_steps(windows, now).delayed == self.delayed,
            self.reservation_steps(windows, now).blocked == self.blocked,
            self.reservation_steps(windows, now).aging == self.aging,
        decreases windows.len(),
    {
        if windows.len() > 0 {
            self.lemma_reservation_steps_ahead(windows.drop_last(), now);
            let mid = self.reservation_steps(windows.drop_last(), now);
            let at = model::find(mid.reservations, windows.last());
            if at < mid.reservations.len() {
                mid.lemma_wake_at_ahead(at as int, now);
            }
        }
    }

    pub proof fn lemma_wake_at_ahead(self, at: int, now: Instant)
        requires
            spans_every_level(self.aging),
            self.rises_ahead(now),
        ensures
            self.wake_at(at, now).rises_ahead(now),
            self.wake_at(at, now).delayed == self.delayed,
            self.wake_at(at, now).blocked == self.blocked,
            self.wake_at(at, now).aging == self.aging,
    {
        let r = self.reservations[at];
        let queue = model::live_queue(r.queue, self.jobs, self.lanes);
        if queue.len() > 0 {
            let rest = SchedulerView {
                reservations: self.reservations.update(
                    at,
                    ReservationView { queue: queue.drop_first(), ..r },
                ),
                ..self
            };
            rest.lemma_push_ahead(queue[0], now);
        }
    }

    pub proof fn lemma_pick_ahead(self, now: Instant)
        requires
            spans_every_level(self.aging),
            self.rises_ahead(now),
        ensures
            self.pick(now).0.rises_ahead(now),
            self.pick(now).0.delayed == self.delayed,
            self.pick(now).0.blocked == self.blocked,
            self.pick(now).0.aging == self.aging,
        decreases model::lingering(self.reservations, now),
    {
        self.lemma_woken_lingers_no_more(now);
        self.lemma_pop_candidate_ahead(now);
        self.lemma_pop_candidate_waits(now);
        let (popped, found) = self.pop_candidate(now);
        match found {
            None => {
                let at = popped.first_lingering(now);
                if at < popped.reservations.len() {
                    popped.lemma_wake_at_ahead(at as int, now);
                    popped.wake_at(at as int, now).lemma_pick_ahead(now);
                }
            },
            Some(c) => {
                let at = popped.first_overtaken(c, now);
                if at < popped.reservations.len() {
                    popped.lemma_wake_at_ahead(at as int, now);
                    let woken = popped.wake_at(at as int, now);
                    woken.lemma_push_ahead(CandidateRef::Job(c.job), now);
                    woken.push_job_candidate(c.job, now).lemma_pick_ahead(now);
                }
            },
        }
    }

    pub proof fn lemma_wake_next_ahead(self, scope: OutboundScope, now: Instant)
        requires
            spans_every_level(self.aging),
            self.rises_ahead(now),
        ensures
            self.wake_next(scope, now).rises_ahead(now),
            self.wake_next(scope, now).delayed == self.delayed,
            self.wake_next(scope, now).blocked == self.blocked,
            self.wake_next(scope, now).aging == self.aging,
    {
        self.lemma_wake_at_ahead(model::find(self.reservations, scope) as int, now);
    }

    pub proof fn lemma_promote_ahead(self, now: Instant)
        requires
            spans_every_level(self.aging),
        ensures
            self.promote(now).rises_ahead(now),
            self.promote(now).delays_ahead(now),
            self.promote(now).blocks_ahead(now),
    {
        soundness_grant::lemma_events_split(self.aging_events, now);
        let start = SchedulerView {
            aging_events: model::later_events(self.aging_events, now),
            ..self
        };
        start.lemma_aging_steps_ahead(model::due_events(self.aging_events, now), now);
        let a = self.promote_aging(now);
        a.lemma_promote_delayed_ahead(now);
        let b = a.promote_delayed(now);
        b.lemma_wake_blocked_ahead(now);
        let c = b.wake_blocked(now, now);
        c.lemma_reservation_steps_ahead(model::expired_windows(c.reservations, now), now);
    }

    pub proof fn lemma_pop_step_ahead(self, now: Instant)
        requires
            spans_every_level(self.aging),
            self.rises_ahead(now),
        ensures
            self.pop_step(now).0.rises_ahead(now),
            self.pop_step(now).0.delayed == self.delayed,
            self.pop_step(now).0.blocked == self.blocked,
            self.pop_step(now).0.aging == self.aging,
    {
        if self.candidates.len() > 0 {
            let key = heap::first_of(self.candidates);
            let rest = SchedulerView { candidates: self.candidates.remove(key), ..self };
            if let CandidateRef::Lane(lane_key) = key.reference {
                if rest.lanes.contains_key(lane_key.value) {
                    let taken = lane::LaneView {
                        in_candidate_heap: false,
                        ..rest.lanes[lane_key.value]
                    };
                    let thinner = SchedulerView {
                        lanes: rest.lanes.insert(lane_key.value, taken.drained(rest.jobs)),
                        ..rest
                    };
                    thinner.lemma_push_ahead(key.reference, now);
                }
            }
        }
    }

    pub proof fn lemma_pop_candidate_ahead(self, now: Instant)
        requires
            spans_every_level(self.aging),
            self.rises_ahead(now),
        ensures
            self.pop_candidate(now).0.rises_ahead(now),
            self.pop_candidate(now).0.delayed == self.delayed,
            self.pop_candidate(now).0.blocked == self.blocked,
        decreases self.disorder(now), self.candidates.len(),
    {
        self.lemma_pop_step_decreases(now);
        self.lemma_pop_step_ahead(now);
        let (after, step) = self.pop_step(now);
        if step is Again {
            after.lemma_pop_candidate_ahead(now);
        }
    }

    // A candidate that does not pass sleeps until a moment that lies ahead.
    proof fn lemma_blocked_until_ahead(self, c: Candidate, now: Instant)
        requires
            self.inv(),
            now.nanos < u64::MAX,
            self.windows_used_by(now),
            self.jobs.contains_key(c.job.value),
            c.scope == self.jobs[c.job.value].meta.scope,
            c.weight == self.jobs[c.job.value].meta.weight,
            self.admission(c, now) is Blocked,
        ensures
            self.blocked_until(c, now).nanos > now.nanos,
    {
        let weight = c.weight@;
        lemma_capacities(self.global_windows, self.global_limits, weight);
        lemma_room_ahead(self.global_windows, weight, now);
        if let OutboundScope::Chat(chat) = c.scope {
            let windows = self.chat_windows(chat);
            let limits = window::applicable(self.chat_limits, chat.value);
            assert(soundness::windows_match(windows, limits)) by {
                if !self.chat_window_sets.contains_key(chat.value) {
                    assert(windows == window::fresh_all(limits));
                }
            }
            assert(used_by(windows, now));
            lemma_capacities(windows, limits, weight);
            lemma_room_ahead(windows, weight, now);
        }
    }

    proof fn lemma_dispose_ahead(self, c: Candidate, now: Instant)
        requires
            self.inv(),
            now.nanos < u64::MAX,
            self.windows_used_by(now),
            self.jobs.contains_key(c.job.value),
            c.scope == self.jobs[c.job.value].meta.scope,
            c.weight == self.jobs[c.job.value].meta.weight,
            self.rises_ahead(now),
            self.delays_ahead(now),
            self.blocks_ahead(now),
        ensures
            self.dispose(c, now).rises_ahead(now),
            self.dispose(c, now).delays_ahead(now),
            self.dispose(c, now).blocks_ahead(now),
            self.dispose(c, now).windows_used_by(now),
    {
        let checked = self.after_admission(c, now);
        let after = self.dispose(c, now);
        lemma_prune_used(self.global_windows, now);
        if let OutboundScope::Chat(chat) = c.scope {
            assert(used_by(self.chat_windows(chat), now));
            lemma_prune_used(self.chat_windows(chat), now);
        }
        assert(checked.windows_used_by(now));
        match self.admission(c, now) {
            Admission::Pass => {
                let weight = c.weight@;
                lemma_consume_used(checked.global_windows, now, weight);
                if let OutboundScope::Chat(chat) = c.scope {
                    assert(used_by(checked.chat_windows(chat), now));
                    lemma_consume_used(checked.chat_windows(chat), now, weight);
                }
                let granted = checked.grant(c, now);
                assert(granted.windows_used_by(now));
                assert(after.global_windows == granted.global_windows);
                assert(after.chat_window_sets == granted.chat_window_sets);
            },
            Admission::Blocked { until, reserve } => {
                self.lemma_blocked_until_ahead(c, now);
                assert forall|e: BlockedJob| #[trigger] after.blocked.contains(e) implies
                    e.until.nanos > now.nanos by {
                    if !self.blocked.contains(e) {
                        assert(e.until == until);
                    }
                }
            },
            Admission::Reserved => {},
        }
    }

    proof fn lemma_grant_loop_ahead(self, now: Instant)
        requires
            self.inv(),
            now.nanos < u64::MAX,
            spans_every_level(self.aging),
            self.windows_used_by(now),
            self.rises_ahead(now),
            self.delays_ahead(now),
            self.blocks_ahead(now),
        ensures
            self.grant_loop(now).0.rises_ahead(now),
            self.grant_loop(now).0.delays_ahead(now),
            self.grant_loop(now).0.blocks_ahead(now),
            self.grant_loop(now).0.windows_used_by(now),
        decreases
            self.jobs.dom().len(),
            model::lingering(self.reservations, now),
            self.disorder(now),
            self.candidates.len(),
    {
        self.lemma_pick_inv(now);
        self.lemma_pick_waits(now);
        self.lemma_picked_describes(now);
        self.lemma_pick_ahead(now);
        let (popped, found) = self.pick(now);
        if let Some(c) = found {
            self.lemma_settle_decreases(now);
            popped.lemma_settle_inv(c, now);
            popped.lemma_settle_waits(c, now);
            popped.lemma_dispose_waits(c, now);
            assert(popped.jobs.contains_key(c.job.value));
            popped.lemma_dispose_ahead(c, now);
            let done = popped.dispose(c, now);
            done.lemma_wake_next_ahead(OutboundScope::Global, now);
            done.wake_next(OutboundScope::Global, now).lemma_wake_next_ahead(c.scope, now);
            popped.settle(c, now).lemma_grant_loop_ahead(now);
        }
    }

    proof fn lemma_trim_delayed_ahead(self, now: Instant)
        requires
            self.rises_ahead(now),
            self.delays_ahead(now),
            self.blocks_ahead(now),
        ensures
            self.trim_delayed().rises_ahead(now),
            self.trim_delayed().delays_ahead(now),
            self.trim_delayed().blocks_ahead(now),
        decreases self.delayed.len(),
    {
        if self.delayed.len() > 0 && !self.jobs.contains_key(
            heap::first_of(self.delayed).job.value,
        ) {
            heap::lemma_first_exists(self.delayed);
            model::lemma_remove_shrinks(self.delayed, heap::first_of(self.delayed));
            let after = SchedulerView {
                delayed: self.delayed.remove(heap::first_of(self.delayed)),
                stale_delayed: lane::less(self.stale_delayed, 1),
                ..self
            };
            assert forall|e: DelayedJob| #[trigger] after.delayed.contains(e) implies self.delayed.contains(
                e,
            ) by {}
            after.lemma_trim_delayed_ahead(now);
        }
    }

    proof fn lemma_trim_blocked_ahead(self, now: Instant)
        requires
            self.rises_ahead(now),
            self.delays_ahead(now),
            self.blocks_ahead(now),
        ensures
            self.trim_blocked().rises_ahead(now),
            self.trim_blocked().delays_ahead(now),
            self.trim_blocked().blocks_ahead(now),
        decreases self.blocked.len(),
    {
        if self.blocked.len() > 0 && !model::reference_alive(
            heap::first_of(self.blocked).reference,
            self.jobs,
            self.lanes,
        ) {
            heap::lemma_first_exists(self.blocked);
            model::lemma_remove_shrinks(self.blocked, heap::first_of(self.blocked));
            let after = SchedulerView {
                blocked: self.blocked.remove(heap::first_of(self.blocked)),
                ..self
            };
            assert forall|e: BlockedJob| #[trigger] after.blocked.contains(e) implies self.blocked.contains(
                e,
            ) by {}
            after.lemma_trim_blocked_ahead(now);
        }
    }

    proof fn lemma_trim_aging_ahead(self, now: Instant)
        requires
            self.rises_ahead(now),
            self.delays_ahead(now),
            self.blocks_ahead(now),
        ensures
            self.trim_aging().rises_ahead(now),
            self.trim_aging().delays_ahead(now),
            self.trim_aging().blocks_ahead(now),
        decreases self.aging_events.len(),
    {
        if self.aging_events.len() > 0 && !self.is_candidate(
            heap::first_of(self.aging_events).reference,
        ) {
            heap::lemma_first_exists(self.aging_events);
            model::lemma_remove_shrinks(self.aging_events, heap::first_of(self.aging_events));
            let after = SchedulerView {
                aging_events: self.aging_events.remove(heap::first_of(self.aging_events)),
                ..self
            };
            assert forall|e: AgingEvent| #[trigger] after.aging_events.contains(e) implies self.aging_events.contains(
                e,
            ) by {}
            after.lemma_trim_aging_ahead(now);
        }
    }

    /// After a grant pass nothing that waits for time is due, and the windows
    /// have been used in the order of time.
    pub proof fn lemma_pass_leaves_nothing_due(self, now: Instant)
        requires
            self.inv(),
            now.nanos < u64::MAX,
            spans_every_level(self.aging),
            self.windows_used_by(now),
        ensures
            self.grant_ready(now).rises_ahead(now),
            self.grant_ready(now).delays_ahead(now),
            self.grant_ready(now).blocks_ahead(now),
            self.grant_ready(now).windows_used_by(now),
            !(self.grant_ready(now).wakeup(now) is Immediate),
    {
        self.lemma_promote_inv(now);
        self.lemma_promote_waits(now);
        self.lemma_promote_ahead(now);
        let mid = self.promote(now);
        mid.lemma_grant_loop_ahead(now);
        let end = mid.grant_loop(now).0;
        let after = self.grant_ready(now);
        assert forall|chat: u64| #[trigger] after.chat_window_sets.contains_key(
            chat,
        ) implies used_by(after.chat_window_sets[chat], now) by {
            assert(end.chat_window_sets.contains_key(chat));
            lemma_prune_used(end.chat_window_sets[chat], now);
        }
        after.lemma_trim_delayed_ahead(now);
        after.trim_delayed().lemma_trim_blocked_ahead(now);
        after.trim_delayed().trim_blocked().lemma_trim_aging_ahead(now);
        let trimmed = after.trimmed();
        if trimmed.delayed.len() > 0 {
            heap::lemma_first_exists(trimmed.delayed);
        }
        if trimmed.blocked.len() > 0 {
            heap::lemma_first_exists(trimmed.blocked);
        }
        if trimmed.aging_events.len() > 0 {
            heap::lemma_first_exists(trimmed.aging_events);
        }
        let a = if trimmed.delayed.len() > 0 {
            Some(heap::first_of(trimmed.delayed).not_before)
        } else {
            None
        };
        let b = if trimmed.blocked.len() > 0 {
            model::sooner(a, heap::first_of(trimmed.blocked).until)
        } else {
            a
        };
        let c = if trimmed.aging_events.len() > 0 {
            model::sooner(b, heap::first_of(trimmed.aging_events).at)
        } else {
            b
        };
        lemma_holds_ahead(c, trimmed.reservations, now);
    }
}

proof fn lemma_holds_ahead(
    found: Option<Instant>,
    reservations: Seq<ReservationView>,
    now: Instant,
)
    requires
        found matches Some(at) ==> at.nanos > now.nanos,
    ensures
        model::earliest_hold(found, reservations, now) matches Some(at) ==> at.nanos > now.nanos,
    decreases reservations.len(),
{
    if reservations.len() > 0 {
        lemma_holds_ahead(found, reservations.drop_last(), now);
    }
}

} // verus!
