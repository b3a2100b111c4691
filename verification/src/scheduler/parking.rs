//! Whoever sleeps has a reason to, and whoever is parked keeps its turn.

use super::entries::{AgingEvent, BlockedJob, CandidateRef, Job};
use super::model::{ReservationView, SchedulerView};
use super::{model, picking, soundness_grant};
use crate::heap;
use crate::time::{Duration, Instant};
use crate::types::{OutboundMeta, OutboundScope};
use crate::window;
use crate::window::WindowView;
use vstd::prelude::*;

verus! {

broadcast use vstd::multiset::group_multiset_axioms;

// ---------- windows without room ----------

proof fn lemma_pruned_later(
    history: Seq<(Instant, u32)>,
    span: Duration,
    now: Instant,
    later: Instant,
)
    requires
        now.nanos <= later.nanos,
    ensures
        window::pruned(window::pruned(history, span, now), span, later) == window::pruned(
            history,
            span,
            later,
        ),
    decreases history.len(),
{
    if history.len() > 0 && window::expired(history[0].0, span, now) {
        lemma_pruned_later(history.drop_first(), span, now, later);
    }
}

proof fn lemma_pruned_push(
    history: Seq<(Instant, u32)>,
    span: Duration,
    at: Instant,
    entry: (Instant, u32),
)
    ensures
        window::total(window::pruned(history.push(entry), span, at)) >= window::total(
            window::pruned(history, span, at),
        ),
    decreases history.len(),
{
    let longer = history.push(entry);
    if history.len() > 0 && window::expired(history[0].0, span, at) {
        assert(longer.drop_first() =~= history.drop_first().push(entry));
        lemma_pruned_push(history.drop_first(), span, at, entry);
    } else {
        window::lemma_total_push(history, entry);
        if history.len() == 0 {
            assert(window::total(history) == 0);
        }
    }
}

// Before the moment at which a weight fits again, it does not fit.
proof fn lemma_full_before_release(
    history: Seq<(Instant, u32)>,
    span: Duration,
    capacity: u32,
    weight: u32,
    t: Instant,
)
    requires
        window::total(history) + weight > capacity,
        window::release(history, span, capacity, weight) matches Some(at) && t.nanos < at.nanos,
    ensures
        window::total(window::pruned(history, span, t)) + weight > capacity,
    decreases history.len(),
{
    if window::expired(history[0].0, span, t) {
        lemma_full_before_release(history.drop_first(), span, capacity, weight, t);
    }
}

/// Whether a set of windows has no room for the weight at a moment.
pub open spec fn full(windows: Seq<WindowView>, weight: u32, t: Instant) -> bool {
    !window::all_fit(window::prune_all(windows, t), weight)
}

pub proof fn lemma_full_pruned(windows: Seq<WindowView>, weight: u32, now: Instant, t: Instant)
    requires
        now.nanos <= t.nanos,
    ensures
        full(window::prune_all(windows, now), weight, t) == full(windows, weight, t),
{
    assert forall|i: int| 0 <= i < windows.len() implies (#[trigger] windows[i]).prune(now).prune(
        t,
    ) == windows[i].prune(t) by {
        lemma_pruned_later(windows[i].history, windows[i].window, now, t);
    }
    assert(window::prune_all(window::prune_all(windows, now), t) =~= window::prune_all(windows, t));
}

pub proof fn lemma_full_consumed(
    windows: Seq<WindowView>,
    weight: u32,
    now: Instant,
    used: u32,
    t: Instant,
)
    requires
        full(windows, weight, t),
    ensures
        full(window::consume_all(windows, now, used), weight, t),
{
    let kept = window::prune_all(windows, t);
    let i = choose|i: int| 0 <= i < kept.len() && !(#[trigger] kept[i]).fits(weight);
    let spent = window::prune_all(window::consume_all(windows, now, used), t);
    lemma_pruned_push(windows[i].history, windows[i].window, t, (now, used));
    assert(!spent[i].fits(weight));
}

pub proof fn lemma_full_until(windows: Seq<WindowView>, weight: u32, now: Instant, t: Instant)
    requires
        window::earliest_for_all(windows, now, weight) matches Some(at) && t.nanos < at.nanos,
        now.nanos <= t.nanos,
    ensures
        full(windows, weight, t),
    decreases windows.len(),
{
    let rest = windows.drop_last();
    let last = windows.last();
    let after = window::prune_all(windows, t);
    let a = window::earliest_for_all(rest, now, weight)->0;
    if t.nanos < a.nanos {
        lemma_full_until(rest, weight, now, t);
        let kept = window::prune_all(rest, t);
        let i = choose|i: int| 0 <= i < kept.len() && !(#[trigger] kept[i]).fits(weight);
        assert(after[i] == kept[i]);
    } else {
        lemma_full_before_release(last.history, last.window, last.capacity, weight, t);
        assert(!after[windows.len() - 1].fits(weight));
    }
}

// ---------- parked in order ----------

/// Whether the hold on a window concerns the requests of a scope.
pub open spec fn concerns(window: OutboundScope, scope: OutboundScope) -> bool {
    window is Global || window == scope
}

/// Whether a waiting unlaned job parked behind a hold is concerned by it.
pub open spec fn rightly_parked(
    window: OutboundScope,
    reference: CandidateRef,
    jobs: Map<u64, Job>,
) -> bool {
    reference matches CandidateRef::Job(id) ==> jobs.contains_key(id.value) ==> concerns(
        window,
        jobs[id.value].meta.scope,
    )
}

/// Whether the waiting unlaned jobs of a queue stand in order of age.
pub open spec fn in_order_of_age(queue: Seq<CandidateRef>, jobs: Map<u64, Job>) -> bool {
    forall|j: int, k: int|
        0 <= j < k < queue.len() && model::age_of(#[trigger] queue[j], jobs) is Some
            && model::age_of(#[trigger] queue[k], jobs) is Some ==> model::age_of(
            queue[j],
            jobs,
        )->0 <= model::age_of(queue[k], jobs)->0
}

/// Whether a hold concerns everybody parked behind it, and they stand in
/// order of age.
pub open spec fn well_parked(r: ReservationView, jobs: Map<u64, Job>) -> bool {
    &&& forall|j: int|
        0 <= j < r.queue.len() ==> rightly_parked(r.window, #[trigger] r.queue[j], jobs)
    &&& in_order_of_age(r.queue, jobs)
}

/// Whether no window is held twice.
pub open spec fn held_once(reservations: Seq<ReservationView>) -> bool {
    forall|i: int, j: int|
        0 <= i < j < reservations.len() ==> (#[trigger] reservations[i]).window != (
        #[trigger] reservations[j]).window
}

// Where a job is put, the younger ones stand behind and the others in front.
proof fn lemma_place_before(
    queue: Seq<CandidateRef>,
    jobs: Map<u64, Job>,
    age: u64,
    place: nat,
)
    requires
        in_order_of_age(queue, jobs),
        queue.len() <= place,
    ensures
        ({
            let at = model::place_before(queue, jobs, age, place);
            &&& at <= place
            &&& at == place || at < queue.len()
            &&& forall|j: int|
                0 <= j < queue.len() && model::age_of(#[trigger] queue[j], jobs) is Some ==> (
                model::age_of(queue[j], jobs)->0 <= age <==> j < at)
        }),
    decreases queue.len(),
{
    if queue.len() > 0 {
        let rest = queue.drop_last();
        let last = queue.last();
        assert(in_order_of_age(rest, jobs)) by {
            assert forall|j: int, k: int|
                0 <= j < k < rest.len() && model::age_of(#[trigger] rest[j], jobs) is Some
                    && model::age_of(#[trigger] rest[k], jobs) is Some implies model::age_of(
                rest[j],
                jobs,
            )->0 <= model::age_of(rest[k], jobs)->0 by {
                assert(rest[j] == queue[j] && rest[k] == queue[k]);
            }
        }
        lemma_place_before(rest, jobs, age, rest.len());
        lemma_place_before(rest, jobs, age, place);
        let at = model::place_before(queue, jobs, age, place);
        assert forall|j: int|
            0 <= j < queue.len() && model::age_of(#[trigger] queue[j], jobs) is Some implies (
        model::age_of(queue[j], jobs)->0 <= age <==> j < at) by {
            if j < rest.len() {
                assert(rest[j] == queue[j]);
                if model::age_of(last, jobs) is Some {
                    assert(model::age_of(queue[j], jobs)->0 <= model::age_of(
                        queue[queue.len() - 1],
                        jobs,
                    )->0);
                }
            }
        }
    }
}

pub proof fn lemma_parked_in_order(
    queue: Seq<CandidateRef>,
    jobs: Map<u64, Job>,
    reference: CandidateRef,
)
    requires
        in_order_of_age(queue, jobs),
    ensures
        in_order_of_age(
            queue.insert(model::parking_place(queue, jobs, reference) as int, reference),
            jobs,
        ),
{
    let place = model::parking_place(queue, jobs, reference) as int;
    picking::lemma_parking_place_bounds(queue, jobs, reference);
    let longer = queue.insert(place, reference);
    if let Some(age) = model::age_of(reference, jobs) {
        lemma_place_before(queue, jobs, age, queue.len());
        assert forall|j: int|
            0 <= j < queue.len() && model::age_of(#[trigger] queue[j], jobs) is Some implies (
        j < place ==> model::age_of(queue[j], jobs)->0 <= age) && (j >= place
            ==> model::age_of(queue[j], jobs)->0 >= age) by {
            if place == 0 && j > 0 && model::age_of(queue[0], jobs) is Some {
                assert(model::age_of(queue[0], jobs)->0 <= model::age_of(queue[j], jobs)->0);
            }
        }
    }
    assert forall|j: int, k: int|
        0 <= j < k < longer.len() && model::age_of(#[trigger] longer[j], jobs) is Some
            && model::age_of(#[trigger] longer[k], jobs) is Some implies model::age_of(
        longer[j],
        jobs,
    )->0 <= model::age_of(longer[k], jobs)->0 by {
        let a = if j < place {
            j
        } else {
            j - 1
        };
        let b = if k < place {
            k
        } else {
            k - 1
        };
        if j != place {
            assert(longer[j] == queue[a]);
        }
        if k != place {
            assert(longer[k] == queue[b]);
        }
    }
}

// Whoever stands in an orderly queue and goes first is found there.
pub proof fn lemma_someone_is_found(
    queue: Seq<CandidateRef>,
    jobs: Map<u64, Job>,
    job: Job,
    j: int,
)
    requires
        in_order_of_age(queue, jobs),
        0 <= j < queue.len(),
        model::is_ahead(queue[j], jobs, job),
    ensures
        model::someone_ahead(queue, jobs, job),
    decreases queue.len(),
{
    if j > 0 {
        let rest = queue.drop_first();
        assert(in_order_of_age(rest, jobs)) by {
            assert forall|i: int, k: int|
                0 <= i < k < rest.len() && model::age_of(#[trigger] rest[i], jobs) is Some
                    && model::age_of(#[trigger] rest[k], jobs) is Some implies model::age_of(
                rest[i],
                jobs,
            )->0 <= model::age_of(rest[k], jobs)->0 by {
                assert(rest[i] == queue[i + 1] && rest[k] == queue[k + 1]);
            }
        }
        assert(rest[j - 1] == queue[j]);
        lemma_someone_is_found(rest, jobs, job, j - 1);
        if model::age_of(queue[0], jobs) is Some {
            assert(model::age_of(queue[0], jobs)->0 <= model::age_of(queue[j], jobs)->0);
        }
    }
}

impl SchedulerView {
    /// Whether a request does not pass at a moment, whatever is held: a
    /// penalty is on its scope, or a window has no room.
    pub open spec fn closed_to(self, meta: OutboundMeta, t: Instant) -> bool {
        ||| self.penalty_active(OutboundScope::Global, t)
        ||| self.penalty_active(meta.scope, t)
        ||| full(self.global_windows, meta.weight@, t)
        ||| meta.scope matches OutboundScope::Chat(chat) && full(
            self.chat_windows(chat),
            meta.weight@,
            t,
        )
    }

    /// Whether a blocked unlaned job cannot pass from `from` on until it
    /// wakes.
    pub open spec fn blocked_with_reason(self, entry: BlockedJob, from: Instant) -> bool {
        entry.reference matches CandidateRef::Job(id) ==> self.jobs.contains_key(id.value)
            ==> forall|t: Instant|
            from.nanos <= t.nanos < entry.until.nanos ==> #[trigger] self.closed_to(
                self.jobs[id.value].meta,
                t,
            )
    }

    /// Whether no window is held twice, everybody parked is rightly so and
    /// in order of age, and everybody blocked has a reason from `from` on.
    pub open spec fn orderly(self, from: Instant) -> bool {
        &&& held_once(self.reservations)
        &&& forall|i: int|
            0 <= i < self.reservations.len() ==> well_parked(
                #[trigger] self.reservations[i],
                self.jobs,
            )
        &&& forall|e: BlockedJob| #[trigger]
            self.blocked.contains(e) ==> self.blocked_with_reason(e, from)
    }

    /// Whether the jobs of `after` are those of `self`, in the same order, or
    /// new ones.
    pub open spec fn same_ages(self, after: SchedulerView) -> bool {
        &&& forall|k: u64| #[trigger]
            after.jobs.contains_key(k) ==> {
                ||| self.jobs.contains_key(k) && after.jobs[k].meta == self.jobs[k].meta
                ||| k >= self.next_job_id
            }
        &&& forall|j: u64, k: u64|
            #![trigger after.jobs.contains_key(j), after.jobs.contains_key(k)]
            after.jobs.contains_key(j) && after.jobs.contains_key(k) && self.jobs.contains_key(j)
                && self.jobs.contains_key(k) && self.jobs[j].sequence <= self.jobs[k].sequence
                ==> after.jobs[j].sequence <= after.jobs[k].sequence
    }

    /// Whether whatever is closed from `from` on is closed in `after` too.
    pub open spec fn opens_nothing(self, after: SchedulerView, from: Instant) -> bool {
        forall|meta: OutboundMeta, t: Instant|
            from.nanos <= t.nanos && self.closed_to(meta, t) ==> #[trigger] after.closed_to(
                meta,
                t,
            )
    }

    pub proof fn lemma_opens_nothing(self, after: SchedulerView, from: Instant)
        requires
            after.penalties == self.penalties,
            after.global_windows == self.global_windows,
            after.chat_window_sets == self.chat_window_sets,
            after.chat_limits == self.chat_limits,
        ensures
            self.opens_nothing(after, from),
    {
        assert forall|meta: OutboundMeta, t: Instant|
            from.nanos <= t.nanos && self.closed_to(meta, t) implies #[trigger] after.closed_to(
            meta,
            t,
        ) by {
            if let OutboundScope::Chat(chat) = meta.scope {
                assert(after.chat_windows(chat) == self.chat_windows(chat));
            }
        }
    }

    // A queue, or what is left of it, is in order under the same ages.
    proof fn lemma_well_parked(
        self,
        after: SchedulerView,
        r: ReservationView,
        left: ReservationView,
        cut: int,
    )
        requires
            self.same_ages(after),
            well_parked(r, self.jobs),
            left.window == r.window,
            0 <= cut <= r.queue.len(),
            left.queue == r.queue.skip(cut),
            forall|j: int| 0 <= j < r.queue.len() ==> self.ref_ok(#[trigger] r.queue[j]),
        ensures
            well_parked(left, after.jobs),
    {
        assert forall|j: int| 0 <= j < left.queue.len() implies rightly_parked(
            left.window,
            #[trigger] left.queue[j],
            after.jobs,
        ) by {
            assert(left.queue[j] == r.queue[j + cut]);
            assert(self.ref_ok(r.queue[j + cut]));
            assert(rightly_parked(r.window, r.queue[j + cut], self.jobs));
        }
        assert forall|j: int, k: int|
            0 <= j < k < left.queue.len() && model::age_of(
                #[trigger] left.queue[j],
                after.jobs,
            ) is Some && model::age_of(
                #[trigger] left.queue[k],
                after.jobs,
            ) is Some implies model::age_of(left.queue[j], after.jobs)->0 <= model::age_of(
            left.queue[k],
            after.jobs,
        )->0 by {
            let a = r.queue[j + cut];
            let b = r.queue[k + cut];
            assert(left.queue[j] == a && left.queue[k] == b);
            assert(self.ref_ok(a) && self.ref_ok(b));
            assert(after.jobs.contains_key(a->Job_0.value));
            assert(after.jobs.contains_key(b->Job_0.value));
            assert(model::age_of(a, self.jobs) is Some);
            assert(model::age_of(b, self.jobs) is Some);
            assert(model::age_of(a, self.jobs)->0 <= model::age_of(b, self.jobs)->0);
        }
    }

    /// Order is kept where queues stay, jobs keep their ages, nobody new is
    /// blocked without a reason, and nothing is opened.
    pub proof fn lemma_orderly_frame(self, after: SchedulerView, from: Instant, to: Instant)
        requires
            self.inv(),
            self.orderly(from),
            from.nanos <= to.nanos,
            self.same_ages(after),
            self.opens_nothing(after, to),
            after.reservations.len() == self.reservations.len(),
            forall|i: int|
                0 <= i < self.reservations.len() ==> (#[trigger] after.reservations[i]).window
                    == self.reservations[i].window && after.reservations[i].queue
                    == self.reservations[i].queue,
            forall|e: BlockedJob| #[trigger]
                after.blocked.contains(e) ==> {
                    ||| self.blocked.contains(e)
                    ||| e.reference is Lane
                    ||| after.blocked_with_reason(e, to)
                },
        ensures
            after.orderly(to),
    {
        assert(held_once(after.reservations)) by {
            assert forall|i: int, j: int| 0 <= i < j < after.reservations.len() implies (
            #[trigger] after.reservations[i]).window != (#[trigger] after.reservations[j]).window by {
                assert(self.reservations[i].window != self.reservations[j].window);
            }
        }
        assert forall|i: int| 0 <= i < after.reservations.len() implies well_parked(
            #[trigger] after.reservations[i],
            after.jobs,
        ) by {
            let r = self.reservations[i];
            assert(r.queue.skip(0) =~= r.queue);
            assert forall|j: int| 0 <= j < r.queue.len() implies self.ref_ok(
                #[trigger] r.queue[j],
            ) by {
                assert(self.ref_ok(self.reservations[i].queue[j]));
            }
            self.lemma_well_parked(after, r, after.reservations[i], 0);
        }
        assert forall|e: BlockedJob| #[trigger] after.blocked.contains(
            e,
        ) implies after.blocked_with_reason(e, to) by {
            if self.blocked.contains(e) {
                assert(self.blocked_with_reason(e, from));
                assert(self.ref_ok(e.reference));
                if let CandidateRef::Job(id) = e.reference {
                    if after.jobs.contains_key(id.value) {
                        let meta = after.jobs[id.value].meta;
                        assert forall|t: Instant|
                            to.nanos <= t.nanos < e.until.nanos implies #[trigger] after.closed_to(
                            meta,
                            t,
                        ) by {
                            assert(self.closed_to(self.jobs[id.value].meta, t));
                        }
                    }
                }
            }
        }
    }

    // ---------- steps that change no queue ----------

    /// Whether `after` has the same queues, windows and penalties, and its
    /// jobs have their ages. Somebody may have been unblocked.
    pub open spec fn calm(self, after: SchedulerView) -> bool {
        &&& forall|k: u64| #[trigger]
            after.jobs.contains_key(k) ==> self.jobs.contains_key(k) && after.jobs[k].meta
                == self.jobs[k].meta && after.jobs[k].sequence == self.jobs[k].sequence
        &&& after.reservations == self.reservations
        &&& forall|e: BlockedJob| #[trigger]
            after.blocked.contains(e) ==> self.blocked.contains(e) || e.reference is Lane
        &&& after.penalties == self.penalties
        &&& after.global_windows == self.global_windows
        &&& after.chat_window_sets == self.chat_window_sets
        &&& after.chat_limits == self.chat_limits
    }

    pub proof fn lemma_calm_orderly(self, after: SchedulerView, from: Instant, to: Instant)
        requires
            self.inv(),
            self.orderly(from),
            from.nanos <= to.nanos,
            self.calm(after),
        ensures
            after.orderly(to),
    {
        self.lemma_opens_nothing(after, to);
        self.lemma_orderly_frame(after, from, to);
    }

    pub proof fn lemma_calm_trans(self, mid: SchedulerView, after: SchedulerView)
        requires
            self.calm(mid),
            mid.calm(after),
        ensures
            self.calm(after),
    {
        assert forall|k: u64| #[trigger] after.jobs.contains_key(k) implies self.jobs.contains_key(
            k,
        ) && after.jobs[k].meta == self.jobs[k].meta && after.jobs[k].sequence
            == self.jobs[k].sequence by {
            assert(mid.jobs.contains_key(k));
        }
        assert forall|e: BlockedJob| #[trigger] after.blocked.contains(
            e,
        ) implies self.blocked.contains(e) || e.reference is Lane by {
            if !(e.reference is Lane) {
                assert(mid.blocked.contains(e));
            }
        }
    }

    pub proof fn lemma_aging_steps_calm(self, due: Seq<AgingEvent>, now: Instant)
        ensures
            self.calm(self.aging_steps(due, now)),
        decreases due.len(),
    {
        if due.len() > 0 {
            let mid = self.aging_steps(due.drop_last(), now);
            self.lemma_aging_steps_calm(due.drop_last(), now);
            let after = mid.aging_step(due.last().reference, now);
            assert(mid.calm(after));
            self.lemma_calm_trans(mid, after);
        }
    }

    pub proof fn lemma_promote_delayed_calm(self, now: Instant)
        ensures
            self.calm(self.promote_delayed(now)),
        decreases self.delayed.len(),
    {
        if self.delayed.len() > 0 && heap::first_of(self.delayed).not_before.nanos <= now.nanos {
            let entry = heap::first_of(self.delayed);
            heap::lemma_first_exists(self.delayed);
            model::lemma_remove_shrinks(self.delayed, entry);
            let rest = SchedulerView { delayed: self.delayed.remove(entry), ..self };
            rest.lemma_steps_keep_queues(entry, now);
            let mid = rest.delayed_step(entry, now);
            assert(self.calm(mid));
            mid.lemma_promote_delayed_calm(now);
            self.lemma_calm_trans(mid, self.promote_delayed(now));
        }
    }

    pub proof fn lemma_wake_blocked_calm(self, bound: Instant, now: Instant)
        ensures
            self.calm(self.wake_blocked(bound, now)),
        decreases self.blocked.len(),
    {
        if self.blocked.len() > 0 && heap::first_of(self.blocked).until.nanos <= bound.nanos {
            let entry = heap::first_of(self.blocked);
            heap::lemma_first_exists(self.blocked);
            model::lemma_remove_shrinks(self.blocked, entry);
            let rest = SchedulerView { blocked: self.blocked.remove(entry), ..self };
            rest.lemma_blocked_step_keeps_queues(entry.reference, now);
            let mid = rest.blocked_step(entry.reference, now);
            assert(self.calm(mid)) by {
                assert forall|e: BlockedJob| #[trigger] mid.blocked.contains(
                    e,
                ) implies self.blocked.contains(e) by {
                    assert(rest.blocked.contains(e));
                }
            }
            mid.lemma_wake_blocked_calm(bound, now);
            self.lemma_calm_trans(mid, self.wake_blocked(bound, now));
        }
    }

    pub proof fn lemma_pop_candidate_calm(self, now: Instant)
        ensures
            self.calm(self.pop_candidate(now).0),
        decreases self.disorder(now), self.candidates.len(),
    {
        self.lemma_pop_step_decreases(now);
        let (after, step) = self.pop_step(now);
        assert(self.calm(after));
        if step is Again {
            after.lemma_pop_candidate_calm(now);
            self.lemma_calm_trans(after, self.pop_candidate(now).0);
        }
    }

    // ---------- serving a queue ----------

    pub proof fn lemma_wake_at_orderly(self, at: int, from: Instant, now: Instant)
        requires
            self.inv(),
            self.orderly(from),
            from.nanos <= now.nanos,
            0 <= at < self.reservations.len(),
        ensures
            self.wake_at(at, now).orderly(now),
    {
        let r = self.reservations[at];
        let queue = model::live_queue(r.queue, self.jobs, self.lanes);
        soundness_grant::lemma_live_queue_is_suffix(r.queue, self.jobs, self.lanes);
        let cut = r.queue.len() - queue.len();
        let left = ReservationView { queue: queue.drop_first(), ..r };
        let after = if queue.len() == 0 {
            SchedulerView { reservations: self.reservations.remove(at), ..self }
        } else {
            SchedulerView { reservations: self.reservations.update(at, left), ..self }
        };
        self.lemma_opens_nothing(after, now);
        if queue.len() > 0 {
            assert(queue.drop_first() =~= r.queue.skip(cut + 1));
            assert forall|j: int| 0 <= j < r.queue.len() implies self.ref_ok(
                #[trigger] r.queue[j],
            ) by {
                assert(self.ref_ok(self.reservations[at].queue[j]));
            }
            self.lemma_well_parked(after, r, left, cut + 1);
        }
        assert forall|i: int| 0 <= i < after.reservations.len() implies well_parked(
            #[trigger] after.reservations[i],
            after.jobs,
        ) by {
            if queue.len() == 0 && i >= at {
                assert(after.reservations[i] == self.reservations[i + 1]);
            } else if i != at {
                assert(after.reservations[i] == self.reservations[i]);
            }
        }
        assert(held_once(after.reservations)) by {
            assert forall|i: int, j: int| 0 <= i < j < after.reservations.len() implies (
            #[trigger] after.reservations[i]).window != (#[trigger] after.reservations[j]).window by {
                let a = if queue.len() == 0 && i >= at {
                    i + 1
                } else {
                    i
                };
                let b = if queue.len() == 0 && j >= at {
                    j + 1
                } else {
                    j
                };
                assert(self.reservations[a].window != self.reservations[b].window);
            }
        }
        assert forall|e: BlockedJob| #[trigger] after.blocked.contains(
            e,
        ) implies after.blocked_with_reason(e, now) by {
            assert(self.blocked_with_reason(e, from));
            if let CandidateRef::Job(id) = e.reference {
                if after.jobs.contains_key(id.value) {
                    let meta = after.jobs[id.value].meta;
                    assert forall|t: Instant|
                        now.nanos <= t.nanos < e.until.nanos implies #[trigger] after.closed_to(
                        meta,
                        t,
                    ) by {
                        assert(self.closed_to(meta, t));
                    }
                }
            }
        }
        assert(after.orderly(now));
        if queue.len() > 0 {
            assert(after.inv()) by {
                assert forall|i: int, j: int|
                    0 <= i < after.reservations.len() && 0 <= j
                        < after.reservations[i].queue.len() implies self.ref_ok(
                    #[trigger] after.reservations[i].queue[j],
                ) by {
                    if i == at {
                        assert(after.reservations[i].queue[j] == r.queue[cut + 1 + j]);
                        assert(self.ref_ok(self.reservations[i].queue[cut + 1 + j]));
                    } else {
                        assert(self.ref_ok(self.reservations[i].queue[j]));
                    }
                }
                self.lemma_fewer_entries(after);
            }
            assert(after.calm(self.wake_at(at, now)));
            after.lemma_calm_orderly(self.wake_at(at, now), now, now);
        }
    }

    proof fn lemma_reservation_steps_orderly(
        self,
        windows: Seq<OutboundScope>,
        from: Instant,
        now: Instant,
    )
        requires
            self.inv(),
            self.orderly(from),
            from.nanos <= now.nanos,
        ensures
            self.reservation_steps(windows, now).orderly(now),
            self.reservation_steps(windows, now).inv(),
        decreases windows.len(),
    {
        if windows.len() == 0 {
            assert(self.calm(self));
            self.lemma_calm_orderly(self, from, now);
        } else {
            self.lemma_reservation_steps_orderly(windows.drop_last(), from, now);
            let mid = self.reservation_steps(windows.drop_last(), now);
            let at = model::find(mid.reservations, windows.last());
            if at < mid.reservations.len() {
                mid.lemma_wake_at_orderly(at as int, now, now);
                mid.lemma_wake_at_inv(at as int, now);
            }
        }
    }

    pub proof fn lemma_promote_orderly(self, from: Instant, now: Instant)
        requires
            self.inv(),
            self.orderly(from),
            from.nanos <= now.nanos,
        ensures
            self.promote(now).orderly(now),
    {
        let start = SchedulerView {
            aging_events: model::later_events(self.aging_events, now),
            ..self
        };
        start.lemma_aging_steps_calm(model::due_events(self.aging_events, now), now);
        let a = self.promote_aging(now);
        assert(self.calm(start));
        self.lemma_calm_trans(start, a);
        a.lemma_promote_delayed_calm(now);
        let b = a.promote_delayed(now);
        b.lemma_wake_blocked_calm(now, now);
        let c = b.wake_blocked(now, now);
        self.lemma_calm_trans(a, b);
        self.lemma_calm_trans(b, c);
        self.lemma_calm_orderly(c, from, now);
        self.lemma_promote_aging_inv(now);
        a.lemma_promote_delayed_inv(now);
        b.lemma_wake_blocked_inv(now, now);
        c.lemma_reservation_steps_orderly(model::expired_windows(c.reservations, now), now, now);
        let d = c.promote_reservations(now);
        assert(d.calm(d.compact_lanes()));
        d.lemma_calm_orderly(d.compact_lanes(), now, now);
    }
}

} // verus!
