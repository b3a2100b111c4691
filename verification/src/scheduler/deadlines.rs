//! What the scheduler waits for.

use super::entries::{AgingEvent, BlockedJob, Candidate, DelayedJob};
use super::model::{ReservationView, SchedulerView};
use super::{laws, model};
use crate::heap;
use crate::time::Instant;
use crate::types::{OutboundScope, SchedulerWakeup};
use crate::window;
use vstd::prelude::*;

verus! {

broadcast use vstd::multiset::group_multiset_axioms;

proof fn lemma_trim_delayed(s: SchedulerView)
    ensures
        ({
            let after = s.trim_delayed();
            &&& after.blocked == s.blocked
            &&& after.aging_events == s.aging_events
            &&& forall|e: DelayedJob| #[trigger]
                after.delayed.contains(e) ==> s.delayed.contains(e)
            &&& forall|e: DelayedJob| #[trigger]
                s.delayed.contains(e) && s.jobs.contains_key(e.job.value)
                    ==> after.delayed.contains(e)
            &&& after.delayed.len() > 0 ==> s.jobs.contains_key(
                heap::first_of(after.delayed).job.value,
            )
        }),
    decreases s.delayed.len(),
{
    if s.delayed.len() > 0 && !s.jobs.contains_key(heap::first_of(s.delayed).job.value) {
        heap::lemma_first_exists(s.delayed);
        model::lemma_remove_shrinks(s.delayed, heap::first_of(s.delayed));
        let rest = s.delayed.remove(heap::first_of(s.delayed));
        assert forall|e: DelayedJob| e != heap::first_of(s.delayed) implies rest.contains(e)
            == #[trigger] s.delayed.contains(e) by {
            assert(rest.count(e) == s.delayed.count(e));
        }
        lemma_trim_delayed(
            SchedulerView {
                delayed: rest,
                stale_delayed: super::lane::less(s.stale_delayed, 1),
                ..s
            },
        );
    }
}

proof fn lemma_trim_blocked(s: SchedulerView)
    ensures
        ({
            let after = s.trim_blocked();
            &&& after.delayed == s.delayed
            &&& after.aging_events == s.aging_events
            &&& forall|e: BlockedJob| #[trigger]
                after.blocked.contains(e) ==> s.blocked.contains(e)
            &&& forall|e: BlockedJob| #[trigger]
                s.blocked.contains(e) && model::reference_alive(e.reference, s.jobs, s.lanes)
                    ==> after.blocked.contains(e)
        }),
    decreases s.blocked.len(),
{
    if s.blocked.len() > 0 && !model::reference_alive(
        heap::first_of(s.blocked).reference,
        s.jobs,
        s.lanes,
    ) {
        heap::lemma_first_exists(s.blocked);
        model::lemma_remove_shrinks(s.blocked, heap::first_of(s.blocked));
        let rest = s.blocked.remove(heap::first_of(s.blocked));
        assert forall|e: BlockedJob| e != heap::first_of(s.blocked) implies rest.contains(e)
            == #[trigger] s.blocked.contains(e) by {
            assert(rest.count(e) == s.blocked.count(e));
        }
        lemma_trim_blocked(
            SchedulerView { blocked: rest, ..s },
        );
    }
}

proof fn lemma_trim_aging(s: SchedulerView)
    ensures
        s.trim_aging().delayed == s.delayed,
        s.trim_aging().blocked == s.blocked,
        forall|e: AgingEvent| #[trigger]
            s.trim_aging().aging_events.contains(e) ==> s.aging_events.contains(e),
    decreases s.aging_events.len(),
{
    if s.aging_events.len() > 0 && !s.is_candidate(heap::first_of(s.aging_events).reference) {
        heap::lemma_first_exists(s.aging_events);
        model::lemma_remove_shrinks(s.aging_events, heap::first_of(s.aging_events));
        lemma_trim_aging(
            SchedulerView {
                aging_events: s.aging_events.remove(heap::first_of(s.aging_events)),
                ..s
            },
        );
    }
}

proof fn lemma_earliest_hold(
    found: Option<Instant>,
    reservations: Seq<ReservationView>,
    now: Instant,
)
    ensures
        match model::earliest_hold(found, reservations, now) {
            None => found is None,
            Some(at) => found == Some(at) || at.nanos > now.nanos && exists|i: int|
                0 <= i < reservations.len() && (#[trigger] reservations[i]).until == at,
        },
        found matches Some(other) ==> (model::earliest_hold(found, reservations, now) matches Some(
            at,
        ) && at.nanos <= other.nanos),
    decreases reservations.len(),
{
    if reservations.len() > 0 {
        let rest = reservations.drop_last();
        lemma_earliest_hold(found, rest, now);
        assert(reservations[reservations.len() - 1] == reservations.last());
        if let Some(at) = model::earliest_hold(found, rest, now) {
            if found != Some(at) {
                let i = choose|i: int|
                    0 <= i < rest.len() && (#[trigger] rest[i]).until == at;
                assert(reservations[i] == rest[i]);
            }
        }
    }
}

/// What the scheduler waits for is a deadline of its own: the moment of a
/// delayed job that waits, the end of a blocked candidate's sleep, the moment a
/// candidate rises, or the end of a hold. One that has come asks for another
/// look at once. It is never after the moment of a delayed job, nor after the
/// end of the sleep of anybody who waits; where there is such a job or sleeper,
/// there is something to wait for.
pub proof fn law_the_wakeup_is_the_next_deadline(
    s: SchedulerView,
    now: Instant,
    late: DelayedJob,
    asleep: BlockedJob,
)
    ensures
        s.wakeup(now) matches SchedulerWakeup::At(at) ==> {
            &&& at.nanos > now.nanos
            &&& {
                ||| exists|e: DelayedJob| #[trigger]
                    s.delayed.contains(e) && s.jobs.contains_key(e.job.value) && e.not_before == at
                ||| exists|e: BlockedJob| #[trigger] s.blocked.contains(e) && e.until == at
                ||| exists|e: AgingEvent| #[trigger] s.aging_events.contains(e) && e.at == at
                ||| exists|i: int|
                    0 <= i < s.reservations.len() && (#[trigger] s.reservations[i]).until == at
            }
        },
        s.wakeup(now) is Immediate ==> {
            ||| exists|e: DelayedJob| #[trigger]
                s.delayed.contains(e) && s.jobs.contains_key(e.job.value) && e.not_before.nanos
                    <= now.nanos
            ||| exists|e: BlockedJob| #[trigger]
                s.blocked.contains(e) && e.until.nanos <= now.nanos
            ||| exists|e: AgingEvent| #[trigger]
                s.aging_events.contains(e) && e.at.nanos <= now.nanos
        },
        s.delayed.contains(late) && s.jobs.contains_key(late.job.value) ==> match s.wakeup(now) {
            SchedulerWakeup::At(at) => at.nanos <= late.not_before.nanos,
            SchedulerWakeup::Immediate => true,
            SchedulerWakeup::ExternalEvent => false,
        },
        s.blocked.contains(asleep) && model::reference_alive(asleep.reference, s.jobs, s.lanes)
            ==> match s.wakeup(now) {
            SchedulerWakeup::At(at) => at.nanos <= asleep.until.nanos,
            SchedulerWakeup::Immediate => true,
            SchedulerWakeup::ExternalEvent => false,
        },
{
    let one = s.trim_delayed();
    let two = one.trim_blocked();
    let t = s.trimmed();
    lemma_trim_delayed(s);
    laws::lemma_trimmed_keeps_jobs(s);
    laws::lemma_trim_delayed_keeps(s);
    lemma_trim_blocked(one);
    lemma_trim_aging(two);
    let a = if t.delayed.len() > 0 {
        heap::lemma_first_exists(t.delayed);
        Some(heap::first_of(t.delayed).not_before)
    } else {
        None
    };
    let b = if t.blocked.len() > 0 {
        heap::lemma_first_exists(t.blocked);
        model::sooner(a, heap::first_of(t.blocked).until)
    } else {
        a
    };
    let c = if t.aging_events.len() > 0 {
        heap::lemma_first_exists(t.aging_events);
        model::sooner(b, heap::first_of(t.aging_events).at)
    } else {
        b
    };
    lemma_earliest_hold(c, t.reservations, now);
    if s.delayed.contains(late) && s.jobs.contains_key(late.job.value) {
        assert(t.delayed.contains(late));
        assert(t.delayed.count(late) <= t.delayed.len());
        assert(!heap::rank_lt(
            heap::Ranked::rank(late),
            heap::Ranked::rank(heap::first_of(t.delayed)),
        ));
    }
    if s.blocked.contains(asleep) && model::reference_alive(asleep.reference, s.jobs, s.lanes) {
        assert(one.blocked.contains(asleep));
        assert(t.blocked.contains(asleep));
        assert(t.blocked.count(asleep) <= t.blocked.len());
        assert(!heap::rank_lt(
            heap::Ranked::rank(asleep),
            heap::Ranked::rank(heap::first_of(t.blocked)),
        ));
    }
    if t.delayed.len() > 0 {
        assert(s.delayed.contains(heap::first_of(t.delayed)));
    }
    if t.blocked.len() > 0 {
        assert(s.blocked.contains(heap::first_of(t.blocked)));
    }
    if t.aging_events.len() > 0 {
        assert(s.aging_events.contains(heap::first_of(t.aging_events)));
    }
}

proof fn lemma_found_again(
    one: Seq<ReservationView>,
    other: Seq<ReservationView>,
    window: OutboundScope,
)
    requires
        one.len() == other.len(),
        forall|i: int| 0 <= i < one.len() ==> (#[trigger] one[i]).window == other[i].window,
    ensures
        model::find(one, window) == model::find(other, window),
        model::find(one, window) < one.len() ==> one[model::find(one, window) as int].window
            == window,
    decreases one.len(),
{
    if one.len() > 0 {
        let rest = one.drop_first();
        let more = other.drop_first();
        assert forall|i: int| 0 <= i < rest.len() implies (#[trigger] rest[i]).window
            == more[i].window by {
            assert(rest[i] == one[i + 1]);
            assert(more[i] == other[i + 1]);
        }
        lemma_found_again(rest, more, window);
    }
}

/// What a grant leaves of the holds on the windows it used: the window stays
/// held until the first one parked behind the hold fits, so that nobody else
/// uses up what it waits for. Who is parked, and every other hold, stay.
pub proof fn law_a_used_window_stays_held_for_the_next(
    s: SchedulerView,
    candidate: Candidate,
    now: Instant,
    held: OutboundScope,
    i: int,
)
    requires
        s.admission(candidate, now) is Pass,
        held is Global || held == candidate.scope,
    ensures
        ({
            let granted = s.after_admission(candidate, now).grant(candidate, now);
            let after = s.dispose(candidate, now);
            let at = model::find(granted.reservations, held);
            let before = granted.reservations[at as int];
            let windows = match held {
                OutboundScope::Global => granted.global_windows,
                OutboundScope::Chat(chat) => granted.chat_window_sets[chat.value],
            };
            let next = model::reference_weight(before.queue[0], granted.jobs, granted.lanes);
            &&& after.reservations.len() == granted.reservations.len()
            &&& 0 <= i < granted.reservations.len() ==> after.reservations[i].queue
                == granted.reservations[i].queue && after.reservations[i].window
                == granted.reservations[i].window && after.reservations[i].owner
                == granted.reservations[i].owner
            &&& at < granted.reservations.len() && before.queue.len() > 0 && (held is Global
                || granted.chat_window_sets.contains_key(held->0.value)) ==> match next {
                None => after.reservations[at as int].until == before.until,
                Some(weight) => match window::earliest_for_all(windows, now, weight) {
                    None => after.reservations[at as int].until == before.until,
                    Some(fits) => after.reservations[at as int].until.nanos == (if fits.nanos
                        > now.nanos {
                        fits.nanos
                    } else {
                        now.nanos
                    }),
                },
            }
        }),
{
    let granted = s.after_admission(candidate, now).grant(candidate, now);
    let global = granted.rearm_window(OutboundScope::Global, now);
    assert forall|j: int| 0 <= j < granted.reservations.len() implies (
    #[trigger] granted.reservations[j]).window == global.reservations[j].window by {}
    lemma_found_again(granted.reservations, global.reservations, OutboundScope::Global);
    lemma_found_again(granted.reservations, global.reservations, candidate.scope);
}

} // verus!
