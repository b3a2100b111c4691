//! The order in which the grants of one pass come: a candidate that is held
//! up stays held up, and the others are granted best first.

use super::entries::{Admission, Candidate, CandidateRef, Job};
use super::model::{PopStep, ReservationView, SchedulerView};
use super::{arbitration, fairness, laws, model, picking};
use crate::time::{Duration, Instant};
use crate::types::{Grant, JobId, OutboundScope};
use crate::window;
use crate::window::WindowView;
use vstd::prelude::*;

verus! {

proof fn lemma_pruned_front(history: Seq<(Instant, u32)>, span: Duration, now: Instant)
    ensures
        ({
            let kept = window::pruned(history, span, now);
            kept.len() == 0 || !window::expired(kept[0].0, span, now)
        }),
    decreases history.len(),
{
    if history.len() > 0 && window::expired(history[0].0, span, now) {
        lemma_pruned_front(history.drop_first(), span, now);
    }
}

// A set of windows without room gets none by being looked at, nor by being
// used.
proof fn lemma_stay_full(windows: Seq<WindowView>, now: Instant, weight: u32, used: u32)
    requires
        !window::all_fit(window::prune_all(windows, now), weight),
    ensures
        ({
            let kept = window::prune_all(windows, now);
            &&& !window::all_fit(window::prune_all(kept, now), weight)
            &&& !window::all_fit(
                window::prune_all(window::consume_all(kept, now, used), now),
                weight,
            )
        }),
{
    let kept = window::prune_all(windows, now);
    let i = choose|i: int| 0 <= i < kept.len() && !(#[trigger] kept[i]).fits(weight);
    let span = windows[i].window;
    let history = kept[i].history;
    lemma_pruned_front(windows[i].history, span, now);
    assert(window::pruned(history, span, now) == history);
    assert(window::prune_all(kept, now)[i] == kept[i]);
    let spent = window::consume_all(kept, now, used);
    let after = window::prune_all(spent, now);
    assert(spent[i].history == history.push((now, used)));
    window::lemma_total_push(history, (now, used));
    if history.len() > 0 {
        assert(spent[i].history[0] == history[0]);
        assert(after[i].history == spent[i].history);
    }
    assert(!after[i].fits(weight));
}

// A hold lasts as long as its window stays in place and its end is not
// brought forward.
proof fn lemma_still_held(
    before: Seq<ReservationView>,
    after: Seq<ReservationView>,
    scope: OutboundScope,
)
    requires
        model::find(before, scope) < before.len() <= after.len(),
        forall|i: int| 0 <= i < before.len() ==> (#[trigger] after[i]).window == before[i].window,
    ensures
        model::find(after, scope) == model::find(before, scope),
{
    fairness::lemma_find_bounds(before, scope);
    let at = model::find(before, scope) as int;
    assert(after[at].window == scope);
    assert forall|i: int| 0 <= i < at implies (#[trigger] after[i]).window != scope by {
        assert(after[i].window == before[i].window);
        assert(before[i].window != scope);
    }
    fairness::lemma_found(after, scope, at);
}

impl SchedulerView {
    proof fn lemma_pop_step_keeps(self, now: Instant)
        ensures
            ({
                let (after, step) = self.pop_step(now);
                &&& after.reservations == self.reservations
                &&& after.jobs.dom() == self.jobs.dom()
                &&& step !is Found ==> after.jobs == self.jobs
                &&& step matches PopStep::Found(c) ==> forall|k: u64| #[trigger]
                    self.jobs.contains_key(k) ==> {
                        ||| after.jobs[k] == self.jobs[k]
                        ||| k == c.job.value && after.jobs[k] == (Job {
                            in_candidate_heap: false,
                            ..self.jobs[k]
                        })
                    }
            }),
    {
        if self.candidates.len() > 0 {
            assert(self.pop_step(now).0.jobs.dom() =~= self.jobs.dom());
        }
    }

    // Picking changes no job but for the mark of the picked one.
    pub proof fn lemma_pop_candidate_keeps(self, now: Instant)
        ensures
            ({
                let (after, found) = self.pop_candidate(now);
                &&& after.reservations == self.reservations
                &&& after.jobs.dom() == self.jobs.dom()
                &&& forall|k: u64| #[trigger]
                    self.jobs.contains_key(k) ==> {
                        ||| after.jobs[k] == self.jobs[k]
                        ||| found is Some && k == found->0.job.value && after.jobs[k] == (Job {
                            in_candidate_heap: false,
                            ..self.jobs[k]
                        })
                    }
            }),
        decreases self.disorder(now), self.candidates.len(),
    {
        self.lemma_pop_step_decreases(now);
        self.lemma_pop_step_keeps(now);
        let (after, step) = self.pop_step(now);
        if step is Again {
            after.lemma_pop_candidate_keeps(now);
        }
    }

    proof fn lemma_rearm_keeps_holds(self, rearmed: OutboundScope, scope: OutboundScope, now: Instant)
        requires
            self.reservation_active(scope, now),
            rearmed != scope,
        ensures
            self.rearm_window(rearmed, now).reservation_active(scope, now),
    {
        let after = self.rearm_window(rearmed, now);
        fairness::lemma_find_bounds(self.reservations, rearmed);
        fairness::lemma_find_bounds(self.reservations, scope);
        lemma_still_held(self.reservations, after.reservations, scope);
    }

    // Dealing with a candidate ends no hold.
    proof fn lemma_dispose_keeps_holds(self, d: Candidate, scope: OutboundScope, now: Instant)
        requires
            self.reservation_active(scope, now),
        ensures
            self.dispose(d, now).reservation_active(scope, now),
    {
        let checked = self.after_admission(d, now);
        let after = self.dispose(d, now);
        assert(checked.reservations == self.reservations);
        match self.admission(d, now) {
            Admission::Pass => {
                let granted = checked.grant(d, now);
                assert(granted.reservations == self.reservations);
                assert(granted.reservation_active(scope, now));
                granted.lemma_rearm_keeps_holds(OutboundScope::Global, scope, now);
                let global = granted.rearm_window(OutboundScope::Global, now);
                if d.scope is Chat {
                    global.lemma_rearm_keeps_holds(d.scope, scope, now);
                }
            },
            Admission::Blocked { until, reserve } => {
                fairness::lemma_find_bounds(self.reservations, scope);
                if let Some(held) = reserve {
                    fairness::lemma_find_bounds(self.reservations, held);
                }
                lemma_still_held(self.reservations, after.reservations, scope);
            },
            Admission::Reserved => {
                fairness::lemma_find_bounds(self.reservations, scope);
                fairness::lemma_find_bounds(
                    self.reservations,
                    self.parking_window(d.scope, now),
                );
                lemma_still_held(self.reservations, after.reservations, scope);
            },
        }
    }

    // What is held up is held up as well after another candidate has been
    // dealt with.
    pub proof fn lemma_refused_next(self, c: Candidate, d: Candidate, now: Instant)
        requires
            self.admission(c, now) !is Pass,
            self.jobs[d.job.value].meta.scope == d.scope,
        ensures
            self.dispose(d, now).admission(c, now) !is Pass,
    {
        let after = self.dispose(d, now);
        let used = self.jobs[d.job.value].meta.weight@;
        self.lemma_dispose_waits(d, now);
        if self.held_back(c.scope, now) {
            if self.reservation_active(OutboundScope::Global, now) {
                self.lemma_dispose_keeps_holds(d, OutboundScope::Global, now);
            } else {
                self.lemma_dispose_keeps_holds(d, c.scope, now);
            }
        } else if !self.globally_has_room(c, now) {
            lemma_stay_full(self.global_windows, now, c.weight@, used);
        } else if !self.chat_has_room(c, now) {
            if let OutboundScope::Chat(chat) = c.scope {
                lemma_stay_full(self.chat_windows(chat), now, c.weight@, used);
            }
        }
    }

    // Serving the queue of an ended hold opens nothing.
    pub proof fn lemma_refused_woken(self, c: Candidate, at: int, now: Instant)
        requires
            self.admission(c, now) !is Pass,
            0 <= at < self.reservations.len(),
            model::lingers(self.reservations[at], now),
        ensures
            self.wake_at(at, now).admission(c, now) !is Pass,
    {
        let after = self.wake_at(at, now);
        self.lemma_wake_at_waits(at, now);
        if self.held_back(c.scope, now) {
            if self.reservation_active(OutboundScope::Global, now) {
                self.lemma_woken_keeps_holds(OutboundScope::Global, at, now);
            } else {
                self.lemma_woken_keeps_holds(c.scope, at, now);
            }
        }
    }

    pub proof fn lemma_woken_keeps_holds(self, scope: OutboundScope, at: int, now: Instant)
        requires
            self.reservation_active(scope, now),
            0 <= at < self.reservations.len(),
            model::lingers(self.reservations[at], now),
        ensures
            self.wake_at(at, now).reservation_active(scope, now),
    {
        let after = self.wake_at(at, now).reservations;
        let before = self.reservations;
        fairness::lemma_find_bounds(before, scope);
        let held = model::find(before, scope) as int;
        let queue = model::live_queue(before[at].queue, self.jobs, self.lanes);
        if queue.len() == 0 {
            let place = if at < held {
                held - 1
            } else {
                held
            };
            assert(after[place] == before[held]);
            assert forall|i: int| 0 <= i < place implies (#[trigger] after[i]).window
                != scope by {
                if i < at {
                    assert(after[i] == before[i]);
                } else {
                    assert(after[i] == before[i + 1]);
                }
            }
            fairness::lemma_found(after, scope, place);
        } else {
            lemma_still_held(before, after, scope);
        }
    }

    proof fn lemma_refused_settled(self, c: Candidate, d: Candidate, now: Instant)
        requires
            self.admission(c, now) !is Pass,
            self.jobs[d.job.value].meta.scope == d.scope,
        ensures
            self.settle(d, now).admission(c, now) !is Pass,
    {
        self.lemma_refused_next(c, d, now);
        let done = self.dispose(d, now);
        let first = model::find(done.reservations, OutboundScope::Global) as int;
        if first < done.reservations.len() && model::lingers(done.reservations[first], now) {
            done.lemma_refused_woken(c, first, now);
        }
        let global = done.wake_next(OutboundScope::Global, now);
        let second = model::find(global.reservations, d.scope) as int;
        if second < global.reservations.len() && model::lingers(
            global.reservations[second],
            now,
        ) {
            global.lemma_refused_woken(c, second, now);
        }
    }

    /// What is held up is held up as well when the next candidate has been
    /// picked.
    pub proof fn lemma_refused_picked(self, c: Candidate, now: Instant)
        requires
            self.admission(c, now) !is Pass,
        ensures
            self.pick(now).0.admission(c, now) !is Pass,
        decreases model::lingering(self.reservations, now),
    {
        self.lemma_woken_lingers_no_more(now);
        self.lemma_pop_candidate_waits(now);
        let (popped, found) = self.pop_candidate(now);
        assert(popped.admission(c, now) !is Pass);
        match found {
            None => {
                let at = popped.first_lingering(now);
                picking::lemma_first_where(
                    popped.reservations,
                    |r: ReservationView| model::lingers(r, now),
                );
                if at < popped.reservations.len() {
                    popped.lemma_refused_woken(c, at as int, now);
                    popped.wake_at(at as int, now).lemma_refused_picked(c, now);
                }
            },
            Some(d) => {
                let at = popped.first_overtaken(d, now);
                if at < popped.reservations.len() {
                    popped.lemma_overtaking_is_unlaned(d, now);
                    popped.lemma_refused_woken(c, at as int, now);
                    let woken = popped.wake_at(at as int, now);
                    let back = woken.push_job_candidate(d.job, now);
                    woken.lemma_push_waits(CandidateRef::Job(d.job), now, now);
                    assert(back.admission(c, now) !is Pass);
                    back.lemma_refused_picked(c, now);
                }
            },
        }
    }

    /// A candidate that is not admitted is not granted in what is left of
    /// the pass.
    pub proof fn lemma_refused_throughout(self, c: Candidate, now: Instant)
        requires
            self.inv(),
            self.jobs.contains_key(c.job.value),
            self.jobs[c.job.value].meta.scope == c.scope,
            self.jobs[c.job.value].meta.weight == c.weight,
            self.admission(c, now) !is Pass,
        ensures
            !laws::names(self.grant_loop(now).1, c.job.value),
        decreases
            self.jobs.dom().len(),
            model::lingering(self.reservations, now),
            self.disorder(now),
            self.candidates.len(),
    {
        self.lemma_pick_inv(now);
        self.lemma_pick_waits(now);
        self.lemma_picked_describes(now);
        self.lemma_refused_picked(c, now);
        let (popped, found) = self.pick(now);
        if let Some(d) = found {
            self.lemma_settle_decreases(now);
            assert(popped.jobs.dom().contains(c.job.value));
            assert(popped.jobs.contains_key(c.job.value));
            popped.lemma_settle_inv(d, now);
            popped.lemma_settle_waits(d, now);
            popped.lemma_dispose_frame(d, now);
            popped.lemma_refused_settled(c, d, now);
            let after = popped.settle(d, now);
            if d.job == c.job {
                assert(popped.admission(d, now) !is Pass);
            }
            assert(popped.dispose(d, now).jobs.contains_key(c.job.value));
            assert(after.jobs.dom().contains(c.job.value));
            assert(after.jobs.contains_key(c.job.value));
            after.lemma_refused_throughout(c, now);
            let rest = after.grant_loop(now).1;
            if popped.admission(d, now) is Pass {
                let grants = seq![Grant { job: d.job }] + rest;
                let named = Grant { job: JobId { value: c.job.value } };
                if grants.contains(named) {
                    let at = choose|at: int| 0 <= at < grants.len() && grants[at] == named;
                    assert(at > 0);
                    assert(rest[at - 1] == named);
                }
            }
        }
    }

    /// Whether every job has the same standing in both states: its request,
    /// its place, its age, and its candidate mark if it has one.
    pub open spec fn same_standing(self, after: SchedulerView, but: Set<u64>) -> bool {
        forall|k: u64| #[trigger]
            after.jobs.contains_key(k) ==> {
                &&& self.jobs.contains_key(k)
                &&& after.jobs[k].meta == self.jobs[k].meta
                &&& after.jobs[k].sequence == self.jobs[k].sequence
                &&& after.jobs[k].ready_at == self.jobs[k].ready_at
                &&& after.jobs[k].not_before == self.jobs[k].not_before
                &&& self.jobs[k].in_candidate_heap && !but.contains(k)
                    ==> after.jobs[k].in_candidate_heap
            }
    }

    pub proof fn lemma_settle_standing(self, c: Candidate, now: Instant)
        ensures
            self.same_standing(self.settle(c, now), Set::empty()),
    {
        self.lemma_dispose_frame(c, now);
        let done = self.dispose(c, now);
        assert(self.same_standing(done, Set::empty()));
        let global = done.wake_next(OutboundScope::Global, now);
        assert(done.same_standing(global, Set::empty()));
        assert(global.same_standing(global.wake_next(c.scope, now), Set::empty()));
        assert(self.same_standing(global, Set::empty())) by {
            assert forall|k: u64| #[trigger] global.jobs.contains_key(
                k,
            ) implies done.jobs.contains_key(k) by {}
        }
        let last = global.wake_next(c.scope, now);
        assert forall|k: u64| #[trigger] last.jobs.contains_key(k) implies global.jobs.contains_key(
            k,
        ) by {}
    }

    /// While the next candidate is searched for, the pass goes on and nobody
    /// loses standing.
    pub proof fn lemma_search_goes_on(self, now: Instant)
        requires
            fairness::in_a_pass(self, now),
        ensures
            ({
                let (popped, found) = self.pop_candidate(now);
                match found {
                    None => {
                        let woken = popped.wake_at(popped.first_lingering(now) as int, now);
                        &&& fairness::in_a_pass(popped, now)
                        &&& self.same_standing(popped, Set::empty())
                        &&& popped.first_lingering(now) < popped.reservations.len() ==> {
                            &&& fairness::in_a_pass(woken, now)
                            &&& self.same_standing(woken, Set::empty())
                            &&& woken.jobs.dom() == self.jobs.dom()
                        }
                    },
                    Some(c) => {
                        let woken = popped.wake_at(popped.first_overtaken(c, now) as int, now);
                        let back = woken.push_job_candidate(c.job, now);
                        &&& self.same_standing(popped, Set::empty().insert(c.job.value))
                        &&& popped.first_overtaken(c, now) < popped.reservations.len() ==> {
                            &&& fairness::in_a_pass(back, now)
                            &&& self.same_standing(back, Set::empty())
                            &&& back.jobs.dom() == self.jobs.dom()
                        }
                    },
                }
            }),
    {
        self.lemma_pop_candidate_inv(now);
        self.lemma_pop_candidate_waits(now);
        self.lemma_pop_candidate_keeps(now);
        self.lemma_pop_candidate_covered(now);
        self.lemma_popped_is_unmarked(now);
        self.lemma_pop_candidate_ranked(now);
        self.lemma_pop_candidate_ahead(now);
        self.lemma_popped_describes(now);
        let none = Set::<u64>::empty();
        let (popped, found) = self.pop_candidate(now);
        assert forall|k: u64| #[trigger] popped.jobs.contains_key(k) implies self.jobs.contains_key(
            k,
        ) by {
            assert(popped.jobs.dom().contains(k));
        }
        match found {
            None => {
                let at = popped.first_lingering(now);
                if at < popped.reservations.len() {
                    let woken = popped.wake_at(at as int, now);
                    popped.lemma_wake_at_inv(at as int, now);
                    popped.lemma_wake_at_waits(at as int, now);
                    popped.lemma_wake_at_kept(at as int, now, Set::empty());
                    popped.lemma_wake_at_ranked(at as int, now);
                    popped.lemma_wake_at_ahead(at as int, now);
                    assert(popped.same_standing(woken, none));
                }
            },
            Some(c) => {
                let at = popped.first_overtaken(c, now);
                if at < popped.reservations.len() {
                    let own = CandidateRef::Job(c.job);
                    let woken = popped.wake_at(at as int, now);
                    let back = woken.push_job_candidate(c.job, now);
                    popped.lemma_overtaking_is_unlaned(c, now);
                    popped.lemma_wake_at_inv(at as int, now);
                    popped.lemma_wake_at_waits(at as int, now);
                    assert(popped.jobs.contains_key(c.job.value));
                    assert(popped.reference_of(c.job) == own);
                    popped.lemma_wake_at_kept(at as int, now, Set::empty().insert(own));
                    popped.lemma_wake_at_ranked(at as int, now);
                    popped.lemma_wake_at_ahead(at as int, now);
                    assert(woken.jobs.contains_key(c.job.value));
                    assert(woken.ref_ok(own));
                    woken.lemma_push_reference_inv(own, now);
                    woken.lemma_push_job_kept(c.job, now, Set::empty().insert(own));
                    assert(Set::<CandidateRef>::empty().insert(own).remove(own) =~= Set::empty());
                    woken.lemma_push_ranked(own, now);
                    woken.lemma_push_once(own, now);
                    woken.lemma_push_ahead(own, now);
                    assert(popped.same_standing(woken, none));
                    assert(back.jobs.dom() =~= woken.jobs.dom());
                    assert(self.same_standing(back, none)) by {
                        assert forall|k: u64| #[trigger] back.jobs.contains_key(
                            k,
                        ) implies woken.jobs.contains_key(k) && popped.jobs.contains_key(k) by {}
                    }
                }
            },
        }
    }

    /// The candidate that is picked goes before every unlaned job that stood
    /// as a candidate, and nobody else loses standing.
    pub proof fn lemma_picked_is_best(self, now: Instant)
        requires
            fairness::in_a_pass(self, now),
        ensures
            ({
                let (popped, found) = self.pick(now);
                &&& fairness::in_a_pass(popped, now) || found is Some
                &&& found is None ==> self.same_standing(popped, Set::empty())
                &&& found matches Some(c) ==> {
                    &&& self.same_standing(popped, Set::empty().insert(c.job.value))
                    &&& forall|k: u64| #[trigger]
                        self.jobs.contains_key(k) && arbitration::at_large(self.jobs[k])
                            && self.jobs[k].in_candidate_heap && k != c.job.value
                            ==> fairness::goes_before(self, c.job.value, k, now)
                }
            }),
        decreases model::lingering(self.reservations, now), 0int,
    {
        self.lemma_woken_lingers_no_more(now);
        self.lemma_search_goes_on(now);
        self.lemma_pop_candidate_waits(now);
        self.lemma_pick_is_best(now);
        let (popped, found) = self.pop_candidate(now);
        assert forall|k: u64| #[trigger] self.jobs.contains_key(k) implies popped.jobs.contains_key(
            k,
        ) by {
            assert(self.jobs.dom().contains(k));
        }
        match found {
            None => {
                let at = popped.first_lingering(now);
                if at < popped.reservations.len() {
                    let woken = popped.wake_at(at as int, now);
                    popped.lemma_wake_at_waits(at as int, now);
                    woken.lemma_best_comes_up(now);
                    self.lemma_best_of_earlier(woken, now);
                }
            },
            Some(c) => {
                let at = popped.first_overtaken(c, now);
                if at < popped.reservations.len() {
                    let woken = popped.wake_at(at as int, now);
                    let back = woken.push_job_candidate(c.job, now);
                    popped.lemma_wake_at_waits(at as int, now);
                    back.lemma_best_comes_up(now);
                    self.lemma_best_of_earlier(back, now);
                }
            },
        }
    }

    proof fn lemma_best_comes_up(self, now: Instant)
        requires
            fairness::in_a_pass(self, now),
        ensures
            ({
                let (popped, found) = self.pick(now);
                &&& fairness::in_a_pass(popped, now) || found is Some
                &&& found is None ==> self.same_standing(popped, Set::empty())
                &&& found matches Some(c) ==> {
                    &&& self.jobs.contains_key(c.job.value)
                    &&& self.same_standing(popped, Set::empty().insert(c.job.value))
                    &&& forall|k: u64| #[trigger]
                        self.jobs.contains_key(k) && arbitration::at_large(self.jobs[k])
                            && self.jobs[k].in_candidate_heap && k != c.job.value
                            ==> fairness::goes_before(self, c.job.value, k, now)
                }
            }),
        decreases model::lingering(self.reservations, now), 1int,
    {
        self.lemma_picked_is_best(now);
        self.lemma_pick_waits(now);
        self.lemma_picked_describes(now);
        if let Some(d) = self.pick(now).1 {
            assert(self.pick(now).0.jobs.dom().contains(d.job.value));
            assert(self.jobs.contains_key(d.job.value));
        }
    }

    // What holds of the pick from a later state of the search holds of the
    // earlier one.
    proof fn lemma_best_of_earlier(self, later: SchedulerView, now: Instant)
        requires
            self.same_standing(later, Set::empty()),
            later.aging == self.aging,
            forall|k: u64| #[trigger] self.jobs.contains_key(k) ==> later.jobs.contains_key(k),
            later.pick(now).1 matches Some(c) ==> {
                &&& later.jobs.contains_key(c.job.value)
                &&& later.same_standing(later.pick(now).0, Set::empty().insert(c.job.value))
                &&& forall|k: u64| #[trigger]
                    later.jobs.contains_key(k) && arbitration::at_large(later.jobs[k])
                        && later.jobs[k].in_candidate_heap && k != c.job.value
                        ==> fairness::goes_before(later, c.job.value, k, now)
            },
            later.pick(now).1 is None ==> later.same_standing(later.pick(now).0, Set::empty()),
        ensures
            later.pick(now).1 matches Some(c) ==> {
                &&& self.same_standing(later.pick(now).0, Set::empty().insert(c.job.value))
                &&& forall|k: u64| #[trigger]
                    self.jobs.contains_key(k) && arbitration::at_large(self.jobs[k])
                        && self.jobs[k].in_candidate_heap && k != c.job.value
                        ==> fairness::goes_before(self, c.job.value, k, now)
            },
            later.pick(now).1 is None ==> self.same_standing(later.pick(now).0, Set::empty()),
    {
        let end = later.pick(now).0;
        assert forall|k: u64| #[trigger] end.jobs.contains_key(k) implies later.jobs.contains_key(
            k,
        ) by {}
        if let Some(c) = later.pick(now).1 {
            assert forall|k: u64| #[trigger]
                self.jobs.contains_key(k) && arbitration::at_large(self.jobs[k])
                    && self.jobs[k].in_candidate_heap && k
                    != c.job.value implies fairness::goes_before(self, c.job.value, k, now) by {
                assert(later.jobs.contains_key(k));
                assert(fairness::goes_before(later, c.job.value, k, now));
            }
        }
    }

    /// Of two grants that a pass still makes, the earlier one goes first if
    /// the later one is of an unlaned candidate.
    pub proof fn lemma_loop_in_turn(self, i: int, j: int, now: Instant)
        requires
            fairness::in_a_pass(self, now),
            0 <= i < j < self.grant_loop(now).1.len(),
            arbitration::at_large(self.jobs[self.grant_loop(now).1[j].job.value]),
            self.jobs[self.grant_loop(now).1[j].job.value].in_candidate_heap,
        ensures
            fairness::goes_before(
                self,
                self.grant_loop(now).1[i].job.value,
                self.grant_loop(now).1[j].job.value,
                now,
            ),
        decreases
            self.jobs.dom().len(),
            model::lingering(self.reservations, now),
            self.disorder(now),
            self.candidates.len(),
    {
        let grants = self.grant_loop(now).1;
        let first = grants[i].job.value;
        let second = grants[j].job.value;
        laws::lemma_loop_moves(self, now);
        assert(laws::may_be_granted(self, grants[i].job.value, now));
        assert(laws::may_be_granted(self, grants[j].job.value, now));
        self.lemma_pick_inv(now);
        self.lemma_pick_waits(now);
        self.lemma_picked_describes(now);
        self.lemma_picked_is_best(now);
        fairness::lemma_goes_on_in_a_pass(self, now);
        let (popped, found) = self.pick(now);
        let c = found->0;
        self.lemma_settle_decreases(now);
        assert(popped.jobs.dom().contains(first));
        assert(popped.jobs.dom().contains(second));
        assert(popped.jobs.contains_key(first));
        assert(popped.jobs.contains_key(second));
        popped.lemma_settle_waits(c, now);
        popped.lemma_settle_standing(c, now);
        popped.lemma_dispose_frame(c, now);
        let done = popped.dispose(c, now);
        let after = popped.settle(c, now);
        assert(after.aging == self.aging);
        let rest = after.grant_loop(now).1;
        if popped.admission(c, now) is Pass {
            assert(grants == seq![Grant { job: c.job }] + rest);
            assert(grants[0].job == c.job);
            assert(rest[j - 1] == grants[j]);
            assert(c.job.value != second);
            assert(done.jobs.dom().contains(second));
            assert(after.jobs.contains_key(second));
            if i > 0 {
                assert(rest[i - 1] == grants[i]);
                assert(c.job.value != first);
                assert(done.jobs.dom().contains(first));
                assert(after.jobs.contains_key(first));
                after.lemma_loop_in_turn(i - 1, j - 1, now);
            }
        } else {
            assert(grants == rest);
            assert(done.jobs.dom() =~= popped.jobs.dom());
            assert(after.jobs.contains_key(second));
            assert(after.jobs.contains_key(first));
            if c.job.value == second {
                popped.lemma_refused_settled(c, c, now);
                popped.lemma_settle_inv(c, now);
                after.lemma_refused_throughout(c, now);
                assert(rest.contains(Grant { job: JobId { value: second } })) by {
                    assert(rest[j] == Grant { job: JobId { value: second } });
                }
            }
            after.lemma_loop_in_turn(i, j, now);
        }
    }
}

} // verus!
