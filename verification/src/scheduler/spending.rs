//! What a history of calls spends stays within the limits.

use super::entries::{Candidate, Job};
use super::history::{Call, Step};
use super::model::SchedulerView;
use super::{history, laws, model, soundness};
use crate::time::{Duration, Instant};
use crate::types::{
    AgingPolicy, Grant, OutboundChatKey, OutboundLimits, OutboundScope, WindowLimit,
};
use crate::window;
use crate::window::WindowView;
use vstd::prelude::*;

verus! {

/// Whether an entry lies in the span of a window that ends at `t`.
pub open spec fn in_span(entry: (Instant, u32), span: Duration, t: Instant) -> bool {
    entry.0.nanos <= t.nanos && !window::expired(entry.0, span, t)
}

/// The weight granted in the span of a window that ends at `t`.
pub open spec fn spent_by(ledger: Seq<(Instant, u32)>, span: Duration, t: Instant) -> nat
    decreases ledger.len(),
{
    if ledger.len() == 0 {
        0
    } else {
        let rest = spent_by(ledger.drop_last(), span, t);
        if in_span(ledger.last(), span, t) {
            rest + ledger.last().1 as nat
        } else {
            rest
        }
    }
}

/// Whether no span of the window's length holds more than its capacity.
pub open spec fn bounded(ledger: Seq<(Instant, u32)>, limit: WindowLimit) -> bool {
    forall|t: Instant| #[trigger] spent_by(ledger, limit.window, t) <= limit.capacity
}

/// Whether a window counts the end of the ledger, and what it does not count
/// has left it by `clock`.
pub open spec fn backed(w: WindowView, ledger: Seq<(Instant, u32)>, clock: Instant) -> bool {
    let cut = ledger.len() - w.history.len();
    &&& cut >= 0
    &&& w.history == ledger.skip(cut)
    &&& forall|j: int| 0 <= j < cut ==> window::expired((#[trigger] ledger[j]).0, w.window, clock)
}

/// Whether a ledger is in the order of time, up to `clock`.
pub open spec fn kept_until(ledger: Seq<(Instant, u32)>, clock: Instant) -> bool {
    &&& window::in_time_order(ledger)
    &&& forall|j: int| 0 <= j < ledger.len() ==> (#[trigger] ledger[j]).0.nanos <= clock.nanos
}

proof fn lemma_backed_pruned(
    w: WindowView,
    ledger: Seq<(Instant, u32)>,
    clock: Instant,
    now: Instant,
)
    requires
        backed(w, ledger, clock),
        clock.nanos <= now.nanos,
    ensures
        backed(w.prune(now), ledger, now),
{
    let kept = w.prune(now);
    let cut = ledger.len() - w.history.len();
    window::lemma_pruned_is_suffix(w.history, w.window, now);
    let more = w.history.len() - kept.history.len();
    assert(kept.history =~= ledger.skip(cut + more));
    assert forall|j: int| 0 <= j < cut + more implies window::expired(
        (#[trigger] ledger[j]).0,
        w.window,
        now,
    ) by {
        if j >= cut {
            window::lemma_cut_is_expired(w.history, w.window, now, j - cut);
            assert(w.history[j - cut] == ledger[j]);
        } else {
            assert(window::expired(ledger[j].0, w.window, clock));
        }
    }
}

proof fn lemma_backed_consumed(
    w: WindowView,
    ledger: Seq<(Instant, u32)>,
    now: Instant,
    weight: u32,
)
    requires
        backed(w, ledger, now),
    ensures
        backed(w.consume(now, weight), ledger.push((now, weight)), now),
{
    let longer = ledger.push((now, weight));
    let cut = ledger.len() - w.history.len();
    assert(w.consume(now, weight).history =~= longer.skip(cut));
    assert forall|j: int| 0 <= j < cut implies window::expired(
        (#[trigger] longer[j]).0,
        w.window,
        now,
    ) by {
        assert(longer[j] == ledger[j]);
    }
}

// At a moment not before the clock, what is in the span is counted.
proof fn lemma_spent_is_counted(w: WindowView, ledger: Seq<(Instant, u32)>, now: Instant, t: Instant)
    requires
        backed(w, ledger, now),
        kept_until(ledger, now),
        now.nanos <= t.nanos,
    ensures
        spent_by(ledger, w.window, t) <= window::total(w.history),
    decreases ledger.len(),
{
    if ledger.len() > 0 {
        let rest = ledger.drop_last();
        if w.history.len() == 0 {
            assert(window::expired(ledger[ledger.len() - 1].0, w.window, now));
            lemma_all_out(ledger, w.window, t);
        } else {
            let shorter = WindowView { history: w.history.drop_last(), ..w };
            let cut = ledger.len() - w.history.len();
            assert(shorter.history =~= rest.skip(cut));
            assert forall|j: int| 0 <= j < cut implies window::expired(
                (#[trigger] rest[j]).0,
                w.window,
                now,
            ) by {
                assert(rest[j] == ledger[j]);
            }
            assert(kept_until(rest, now)) by {
                assert forall|j: int| 0 <= j < rest.len() implies (#[trigger] rest[j]).0.nanos
                    <= now.nanos by {
                    assert(rest[j] == ledger[j]);
                }
                assert forall|i: int, j: int| 0 <= i <= j < rest.len() implies (
                #[trigger] rest[i]).0.nanos <= (#[trigger] rest[j]).0.nanos by {
                    assert(rest[i] == ledger[i] && rest[j] == ledger[j]);
                }
            }
            lemma_spent_is_counted(shorter, rest, now, t);
            assert(w.history.last() == ledger.last());
            assert(shorter.history.push(w.history.last()) =~= w.history);
            window::lemma_total_push(shorter.history, w.history.last());
        }
    }
}

// In the order of time, if the last one is out, all are.
proof fn lemma_all_out(ledger: Seq<(Instant, u32)>, span: Duration, t: Instant)
    requires
        window::in_time_order(ledger),
        ledger.len() > 0 ==> window::expired(ledger.last().0, span, t),
    ensures
        spent_by(ledger, span, t) == 0,
    decreases ledger.len(),
{
    if ledger.len() > 0 {
        let rest = ledger.drop_last();
        assert forall|i: int, j: int| 0 <= i <= j < rest.len() implies (
        #[trigger] rest[i]).0.nanos <= (#[trigger] rest[j]).0.nanos by {
            assert(rest[i] == ledger[i] && rest[j] == ledger[j]);
        }
        if rest.len() > 0 {
            assert(rest.last() == ledger[rest.len() - 1]);
            assert(ledger[rest.len() - 1].0.nanos <= ledger[ledger.len() - 1].0.nanos);
        }
        lemma_all_out(rest, span, t);
    }
}

proof fn lemma_bounded_pushed(
    w: WindowView,
    ledger: Seq<(Instant, u32)>,
    limit: WindowLimit,
    now: Instant,
    weight: u32,
)
    requires
        w.window == limit.window,
        w.capacity == limit.capacity,
        backed(w, ledger, now),
        kept_until(ledger, now),
        w.fits(weight),
        bounded(ledger, limit),
    ensures
        bounded(ledger.push((now, weight)), limit),
        kept_until(ledger.push((now, weight)), now),
{
    let longer = ledger.push((now, weight));
    assert(longer.drop_last() =~= ledger);
    assert forall|t: Instant| #[trigger] spent_by(longer, limit.window, t) <= limit.capacity by {
        assert(spent_by(ledger, limit.window, t) <= limit.capacity);
        if in_span((now, weight), limit.window, t) {
            lemma_spent_is_counted(w, ledger, now, t);
        }
    }
    assert forall|i: int, j: int| 0 <= i <= j < longer.len() implies (
    #[trigger] longer[i]).0.nanos <= (#[trigger] longer[j]).0.nanos by {
        if j < ledger.len() {
            assert(longer[i] == ledger[i] && longer[j] == ledger[j]);
        } else if i < ledger.len() {
            assert(longer[i] == ledger[i]);
        }
    }
}

/// What the grants of a pass at `now` add to the ledger of all requests, or
/// to that of a chat.
pub open spec fn debits(
    grants: Seq<Grant>,
    jobs: Map<u64, Job>,
    chat: Option<OutboundChatKey>,
    now: Instant,
) -> Seq<(Instant, u32)>
    decreases grants.len(),
{
    if grants.len() == 0 {
        Seq::empty()
    } else {
        let job = jobs[grants[0].job.value];
        let rest = debits(grants.drop_first(), jobs, chat, now);
        if chat is None || job.meta.scope == OutboundScope::Chat(chat->0) {
            seq![(now, job.meta.weight@)] + rest
        } else {
            rest
        }
    }
}

/// All that a history grants, of all requests or of one chat, with the
/// moments of the grants.
pub open spec fn ledger(
    s: SchedulerView,
    steps: Seq<Step>,
    chat: Option<OutboundChatKey>,
) -> Seq<(Instant, u32)>
    decreases steps.len(),
{
    if steps.len() == 0 {
        Seq::empty()
    } else {
        let before = history::run(s, steps.drop_last());
        ledger(s, steps.drop_last(), chat) + debits(
            history::handed_out(before, steps.last()),
            before.jobs,
            chat,
            steps.last().now,
        )
    }
}

// What one more grant in front adds.
proof fn lemma_debits_joined(
    c: Candidate,
    rest: Seq<Grant>,
    jobs: Map<u64, Job>,
    chat: Option<OutboundChatKey>,
    book: Seq<(Instant, u32)>,
    now: Instant,
)
    requires
        jobs[c.job.value].meta.scope == c.scope,
        jobs[c.job.value].meta.weight == c.weight,
    ensures
        book + debits(seq![Grant { job: c.job }] + rest, jobs, chat, now) == if chat is None
            || c.scope == OutboundScope::Chat(chat->0) {
            book.push((now, c.weight@)) + debits(rest, jobs, chat, now)
        } else {
            book + debits(rest, jobs, chat, now)
        },
{
    let grants = seq![Grant { job: c.job }] + rest;
    assert(grants.drop_first() =~= rest);
    assert(grants[0].job == c.job);
    if chat is None || c.scope == OutboundScope::Chat(chat->0) {
        assert(book.push((now, c.weight@)) + debits(rest, jobs, chat, now) =~= book + debits(
            grants,
            jobs,
            chat,
            now,
        ));
    }
}

impl SchedulerView {
    /// The global windows, or those of a chat.
    pub open spec fn windows_of(self, chat: Option<OutboundChatKey>) -> Seq<WindowView> {
        match chat {
            None => self.global_windows,
            Some(key) => self.chat_windows(key),
        }
    }

    /// The limits of the global windows, or of those of a chat.
    pub open spec fn limits_of(self, chat: Option<OutboundChatKey>) -> Seq<WindowLimit> {
        match chat {
            None => self.global_limits,
            Some(key) => window::applicable(self.chat_limits, key.value),
        }
    }

    /// Whether the windows count what the ledger says, and the ledger keeps
    /// within every limit.
    pub open spec fn accounts_for(
        self,
        book: Seq<(Instant, u32)>,
        chat: Option<OutboundChatKey>,
        clock: Instant,
    ) -> bool {
        let windows = self.windows_of(chat);
        let limits = self.limits_of(chat);
        &&& kept_until(book, clock)
        &&& soundness::windows_match(windows, limits)
        &&& forall|i: int|
            0 <= i < windows.len() ==> backed(#[trigger] windows[i], book, clock)
        &&& forall|i: int| 0 <= i < limits.len() ==> bounded(book, #[trigger] limits[i])
    }

    proof fn lemma_accounts_later(
        self,
        after: SchedulerView,
        book: Seq<(Instant, u32)>,
        chat: Option<OutboundChatKey>,
        clock: Instant,
        now: Instant,
    )
        requires
            self.accounts_for(book, chat, clock),
            clock.nanos <= now.nanos,
            after.windows_of(chat) == self.windows_of(chat) || after.windows_of(chat)
                == window::prune_all(self.windows_of(chat), now),
            after.limits_of(chat) == self.limits_of(chat),
        ensures
            after.accounts_for(book, chat, now),
    {
        let windows = self.windows_of(chat);
        let later = after.windows_of(chat);
        assert forall|i: int| 0 <= i < later.len() implies backed(
            #[trigger] later[i],
            book,
            now,
        ) && later[i].capacity == windows[i].capacity && later[i].window == windows[i].window by {
            assert(backed(windows[i], book, clock));
            lemma_backed_pruned(windows[i], book, clock, now);
            if later == windows {
                let w = windows[i];
                let cut = book.len() - w.history.len();
                assert forall|j: int| 0 <= j < cut implies window::expired(
                    (#[trigger] book[j]).0,
                    w.window,
                    now,
                ) by {
                    assert(window::expired(book[j].0, w.window, clock));
                }
            }
        }
    }

    // Dealing with a candidate is booked.
    proof fn lemma_settle_booked(
        self,
        c: Candidate,
        book: Seq<(Instant, u32)>,
        chat: Option<OutboundChatKey>,
        now: Instant,
    )
        requires
            self.inv(),
            self.accounts_for(book, chat, now),
            self.jobs.contains_key(c.job.value),
            self.jobs[c.job.value].meta.scope == c.scope,
            self.jobs[c.job.value].meta.weight == c.weight,
        ensures
            ({
                let after = self.settle(c, now);
                if self.admission(c, now) is Pass && (chat is None || c.scope
                    == OutboundScope::Chat(chat->0)) {
                    after.accounts_for(book.push((now, c.weight@)), chat, now)
                } else {
                    after.accounts_for(book, chat, now)
                }
            }),
    {
        let done = self.dispose(c, now);
        let after = self.settle(c, now);
        self.lemma_settle_waits(c, now);
        self.lemma_dispose_waits(c, now);
        let windows = self.windows_of(chat);
        let checked = self.after_admission(c, now);
        assert(checked.windows_of(chat) =~= windows || checked.windows_of(chat)
            =~= window::prune_all(windows, now));
        assert(after.windows_of(chat) == done.windows_of(chat));
        self.lemma_accounts_later(checked, book, chat, now, now);
        if self.admission(c, now) is Pass {
            let granted = checked.grant(c, now);
            granted.lemma_rearm_queues(c.scope, now);
            assert(done.windows_of(chat) == granted.windows_of(chat));
            if chat is None || c.scope == OutboundScope::Chat(chat->0) {
                let kept = window::prune_all(windows, now);
                assert(checked.windows_of(chat) =~= kept);
                let spent = window::consume_all(kept, now, c.weight@);
                assert(after.windows_of(chat) =~= spent);
                let limits = self.limits_of(chat);
                let longer = book.push((now, c.weight@));
                assert(kept_until(longer, now)) by {
                    assert forall|i: int, j: int| 0 <= i <= j < longer.len() implies (
                    #[trigger] longer[i]).0.nanos <= (#[trigger] longer[j]).0.nanos by {
                        if j < book.len() {
                            assert(longer[i] == book[i] && longer[j] == book[j]);
                        } else if i < book.len() {
                            assert(longer[i] == book[i]);
                        }
                    }
                }
                assert(window::all_fit(kept, c.weight@));
                assert forall|i: int| 0 <= i < spent.len() implies backed(
                    #[trigger] spent[i],
                    longer,
                    now,
                ) && spent[i].capacity == limits[i].capacity && spent[i].window
                    == limits[i].window by {
                    assert(backed(kept[i], book, now));
                    lemma_backed_consumed(kept[i], book, now, c.weight@);
                }
                assert forall|i: int| 0 <= i < limits.len() implies bounded(
                    longer,
                    #[trigger] limits[i],
                ) by {
                    assert(backed(kept[i], book, now));
                    assert(kept[i].fits(c.weight@));
                    lemma_bounded_pushed(kept[i], book, limits[i], now, c.weight@);
                }
            } else {
                assert(after.windows_of(chat) == checked.windows_of(chat));
            }
        } else {
            assert(after.windows_of(chat) == checked.windows_of(chat));
        }
    }

    proof fn lemma_loop_step_booked(
        self,
        jobs: Map<u64, Job>,
        book: Seq<(Instant, u32)>,
        chat: Option<OutboundChatKey>,
        now: Instant,
    )
        requires
            self.inv(),
            self.accounts_for(book, chat, now),
            forall|k: u64| #[trigger]
                self.jobs.contains_key(k) ==> jobs[k].meta == self.jobs[k].meta,
        ensures
            self.pick(now).1 is None ==> self.pick(now).0.accounts_for(book, chat, now),
            self.pick(now).1 matches Some(c) ==> {
                let popped = self.pick(now).0;
                let after = popped.settle(c, now);
                let counts = popped.admission(c, now) is Pass && (chat is None || c.scope
                    == OutboundScope::Chat(chat->0));
                &&& after.inv()
                &&& counts ==> after.accounts_for(book.push((now, c.weight@)), chat, now)
                &&& !counts ==> after.accounts_for(book, chat, now)
                &&& jobs[c.job.value].meta.scope == c.scope
                &&& jobs[c.job.value].meta.weight == c.weight
                &&& forall|k: u64| #[trigger]
                    after.jobs.contains_key(k) ==> jobs[k].meta == after.jobs[k].meta
            },
    {
        self.lemma_pick_inv(now);
        self.lemma_pick_waits(now);
        self.lemma_picked_describes(now);
        let (popped, found) = self.pick(now);
        assert(popped.windows_of(chat) == self.windows_of(chat));
        self.lemma_accounts_later(popped, book, chat, now, now);
        if let Some(c) = found {
            popped.lemma_settle_inv(c, now);
            popped.lemma_settle_booked(c, book, chat, now);
            popped.lemma_step_metas(c, self.jobs, jobs, now);
            assert(popped.jobs.dom().contains(c.job.value));
            assert(self.jobs.contains_key(c.job.value));
        }
    }

    proof fn lemma_loop_booked(
        self,
        jobs: Map<u64, Job>,
        book: Seq<(Instant, u32)>,
        chat: Option<OutboundChatKey>,
        now: Instant,
    )
        requires
            self.inv(),
            self.accounts_for(book, chat, now),
            forall|k: u64| #[trigger]
                self.jobs.contains_key(k) ==> jobs[k].meta == self.jobs[k].meta,
        ensures
            self.grant_loop(now).0.accounts_for(
                book + debits(self.grant_loop(now).1, jobs, chat, now),
                chat,
                now,
            ),
        decreases
            self.jobs.dom().len(),
            model::lingering(self.reservations, now),
            self.disorder(now),
            self.candidates.len(),
    {
        self.lemma_loop_step_booked(jobs, book, chat, now);
        match self.pick(now).1 {
            None => {
                assert(book + Seq::<(Instant, u32)>::empty() =~= book);
            },
            Some(c) => {
                self.lemma_settle_decreases(now);
                let popped = self.pick(now).0;
                let after = popped.settle(c, now);
                let rest = after.grant_loop(now).1;
                lemma_debits_joined(c, rest, jobs, chat, book, now);
                if popped.admission(c, now) is Pass && (chat is None || c.scope
                    == OutboundScope::Chat(chat->0)) {
                    after.lemma_loop_booked(jobs, book.push((now, c.weight@)), chat, now);
                } else {
                    after.lemma_loop_booked(jobs, book, chat, now);
                }
            },
        }
    }

    proof fn lemma_step_metas(
        self,
        c: Candidate,
        earlier: Map<u64, Job>,
        jobs: Map<u64, Job>,
        now: Instant,
    )
        requires
            self.jobs.dom() == earlier.dom(),
            forall|k: u64| #[trigger]
                self.jobs.contains_key(k) ==> self.jobs[k].meta == earlier[k].meta,
            forall|k: u64| #[trigger] earlier.contains_key(k) ==> jobs[k].meta == earlier[k].meta,
        ensures
            forall|k: u64| #[trigger]
                self.settle(c, now).jobs.contains_key(k) ==> jobs[k].meta == self.settle(
                    c,
                    now,
                ).jobs[k].meta,
    {
        self.lemma_settle_standing(c, now);
        assert forall|k: u64| #[trigger] self.settle(c, now).jobs.contains_key(k) implies
            jobs[k].meta == self.settle(c, now).jobs[k].meta by {
            assert(self.jobs.contains_key(k));
            assert(self.jobs.dom().contains(k));
            assert(earlier.contains_key(k));
        }
    }

    proof fn lemma_pass_booked(
        self,
        book: Seq<(Instant, u32)>,
        chat: Option<OutboundChatKey>,
        clock: Instant,
        now: Instant,
    )
        requires
            self.inv(),
            self.accounts_for(book, chat, clock),
            clock.nanos <= now.nanos,
        ensures
            self.grant_ready(now).accounts_for(
                book + debits(self.grants(now), self.jobs, chat, now),
                chat,
                now,
            ),
    {
        self.lemma_promote_inv(now);
        self.lemma_promote_waits(now);
        let mid = self.promote(now);
        assert(mid.windows_of(chat) == self.windows_of(chat));
        self.lemma_accounts_later(mid, book, chat, clock, now);
        assert forall|k: u64| #[trigger] mid.jobs.contains_key(k) implies self.jobs[k].meta
            == mid.jobs[k].meta by {
            assert(mid.jobs.dom().contains(k));
        }
        mid.lemma_loop_booked(self.jobs, book, chat, now);
        let end = mid.grant_loop(now).0;
        let after = self.grant_ready(now);
        let longer = book + debits(self.grants(now), self.jobs, chat, now);
        if let Some(key) = chat {
            if end.chat_window_sets.contains_key(key.value) {
                let set = end.chat_window_sets[key.value];
                let kept = window::prune_all(set, now);
                if window::all_idle(kept) {
                    let limits = window::applicable(end.chat_limits, key.value);
                    let fresh = window::fresh_all(limits);
                    assert forall|i: int| 0 <= i < kept.len() implies kept[i] == fresh[i] by {
                        assert(set[i].capacity == limits[i].capacity);
                        assert(kept[i].history =~= Seq::empty());
                    }
                    assert(kept =~= fresh);
                }
                assert(after.chat_windows(key) =~= kept);
            } else {
                assert(after.chat_windows(key) == end.chat_windows(key));
            }
        }
        end.lemma_accounts_later(after, longer, chat, now, now);
    }
}

/// Whether no call of a history changes the limits.
pub open spec fn same_limits(steps: Seq<Step>) -> bool {
    forall|i: int| 0 <= i < steps.len() ==> !((#[trigger] steps[i]).call is SetLimits)
}

// Only grants and new limits change windows.
proof fn lemma_step_spends_nothing(s: SchedulerView, one: Step)
    requires
        s.inv(),
        s.next_job_id < u64::MAX,
        !(one.call is SetLimits),
        !(one.call is GrantReady),
    ensures
        ({
            let after = history::step(s, one);
            &&& after.global_windows == s.global_windows
            &&& after.chat_window_sets == s.chat_window_sets
            &&& after.global_limits == s.global_limits
            &&& after.chat_limits == s.chat_limits
        }),
{
    match one.call {
        Call::Enqueue { meta, mode, not_before } => {
            if s.refusal(meta, mode) is None {
                laws::lemma_accepted(s, meta, mode, not_before, one.now);
            }
        },
        Call::NextDeadline => laws::lemma_trimmed_keeps_jobs(s),
        _ => {},
    }
}

proof fn lemma_step_booked(
    s: SchedulerView,
    one: Step,
    book: Seq<(Instant, u32)>,
    chat: Option<OutboundChatKey>,
    clock: Instant,
)
    requires
        s.inv(),
        s.next_job_id < u64::MAX,
        s.accounts_for(book, chat, clock),
        clock.nanos <= one.now.nanos,
        !(one.call is SetLimits),
    ensures
        history::step(s, one).accounts_for(
            book + debits(history::handed_out(s, one), s.jobs, chat, one.now),
            chat,
            one.now,
        ),
        history::step(s, one).limits_of(chat) == s.limits_of(chat),
{
    let after = history::step(s, one);
    if one.call is GrantReady {
        s.lemma_pass_booked(book, chat, clock, one.now);
        laws::law_grant_pass(s, one.now);
    } else {
        assert(book + debits(history::handed_out(s, one), s.jobs, chat, one.now) =~= book);
        lemma_step_spends_nothing(s, one);
        assert(after.windows_of(chat) == s.windows_of(chat));
        s.lemma_accounts_later(after, book, chat, clock, one.now);
    }
}

proof fn lemma_run_booked(
    s: SchedulerView,
    steps: Seq<Step>,
    chat: Option<OutboundChatKey>,
    start: Instant,
)
    requires
        s.inv(),
        s.next_job_id + steps.len() < u64::MAX,
        s.accounts_for(Seq::empty(), chat, start),
        history::in_order(steps),
        same_limits(steps),
        steps.len() > 0 ==> start.nanos <= steps[0].now.nanos,
    ensures
        history::run(s, steps).accounts_for(
            ledger(s, steps, chat),
            chat,
            if steps.len() > 0 {
                steps.last().now
            } else {
                start
            },
        ),
        history::run(s, steps).limits_of(chat) == s.limits_of(chat),
    decreases steps.len(),
{
    if steps.len() > 0 {
        let before = steps.drop_last();
        let one = steps.last();
        assert(history::in_order(before)) by {
            assert forall|i: int, j: int| 0 <= i <= j < before.len() implies (
            #[trigger] before[i]).now.nanos <= (#[trigger] before[j]).now.nanos by {
                assert(before[i] == steps[i] && before[j] == steps[j]);
            }
        }
        assert(same_limits(before)) by {
            assert forall|i: int| 0 <= i < before.len() implies !((
            #[trigger] before[i]).call is SetLimits) by {
                assert(before[i] == steps[i]);
            }
        }
        lemma_run_booked(s, before, chat, start);
        history::lemma_run_inv(s, before);
        let clock = if before.len() > 0 {
            before.last().now
        } else {
            start
        };
        if before.len() > 0 {
            assert(before.last() == steps[before.len() - 1]);
            assert(steps[before.len() - 1].now.nanos <= steps[steps.len() - 1].now.nanos);
        }
        lemma_step_booked(
            history::run(s, before),
            one,
            ledger(s, before, chat),
            chat,
            clock,
        );
    }
}

/// No span of a window's length ever holds more than the window's capacity:
/// whatever calls are made of a new scheduler, in the order of time and with
/// the same limits, the weights granted in any span of that length, of all
/// requests or of a chat that the window applies to, stay within the
/// capacity. Completions refund nothing.
pub proof fn law_no_span_is_overspent(
    limits: OutboundLimits,
    aging: AgingPolicy,
    steps: Seq<Step>,
    chat: OutboundChatKey,
    i: int,
    t: Instant,
)
    requires
        steps.len() < u64::MAX,
        history::in_order(steps),
        same_limits(steps),
    ensures
        ({
            let s = SchedulerView::fresh(limits, aging);
            &&& 0 <= i < limits.global@.len() ==> spent_by(
                ledger(s, steps, None),
                limits.global@[i].window,
                t,
            ) <= limits.global@[i].capacity
            &&& 0 <= i < limits.chat@.len() && limits.chat@[i].applies(chat.value) ==> spent_by(
                ledger(s, steps, Some(chat)),
                limits.chat@[i].window,
                t,
            ) <= limits.chat@[i].capacity
        }),
{
    let s = SchedulerView::fresh(limits, aging);
    let start = Instant { nanos: 0 };
    SchedulerView::lemma_fresh_inv(limits, aging);
    let empty = Seq::<(Instant, u32)>::empty();
    assert forall|one: Option<OutboundChatKey>| #[trigger] s.accounts_for(empty, one, start) by {
        let windows = s.windows_of(one);
        assert forall|j: int| 0 <= j < windows.len() implies backed(
            #[trigger] windows[j],
            empty,
            start,
        ) by {
            assert(windows[j].history =~= empty.skip(0));
        }
    }
    lemma_run_booked(s, steps, None, start);
    lemma_run_booked(s, steps, Some(chat), start);
    if 0 <= i < limits.global@.len() {
        assert(bounded(ledger(s, steps, None), s.limits_of(None)[i]));
    }
    if 0 <= i < limits.chat@.len() && limits.chat@[i].applies(chat.value) {
        let own = s.limits_of(Some(chat));
        window::law_applicable_windows_apply(limits.chat@, chat.value);
        let j = choose|j: int| 0 <= j < own.len() && own[j] == limits.chat@[i];
        assert(bounded(ledger(s, steps, Some(chat)), own[j]));
    }
}

/// What a pass is charged: one entry for every grant, in their order, with the
/// moment of the pass and the weight of the granted request.
pub proof fn law_every_grant_is_charged_its_weight(
    grants: Seq<Grant>,
    jobs: Map<u64, Job>,
    now: Instant,
    i: int,
)
    ensures
        debits(grants, jobs, None, now).len() == grants.len(),
        0 <= i < grants.len() ==> debits(grants, jobs, None, now)[i] == (
            now,
            jobs[grants[i].job.value].meta.weight@,
        ),
    decreases grants.len(),
{
    if grants.len() > 0 {
        let rest = grants.drop_first();
        law_every_grant_is_charged_its_weight(rest, jobs, now, i - 1);
        if 0 < i < grants.len() {
            assert(rest[i - 1] == grants[i]);
        }
    }
}

/// The windows count what was granted, no more and no less: whatever calls are
/// made of a new scheduler, in the order of time and with the same limits,
/// every window of everything, or of a chat, counts the latest of the grants
/// that were made, each with its weight, and every grant that it does not
/// count has left it, the length of the window having gone by.
pub proof fn law_windows_count_what_was_granted(
    limits: OutboundLimits,
    aging: AgingPolicy,
    steps: Seq<Step>,
    chat: Option<OutboundChatKey>,
    i: int,
    j: int,
)
    requires
        0 < steps.len() < u64::MAX,
        history::in_order(steps),
        same_limits(steps),
        0 <= i < history::run(SchedulerView::fresh(limits, aging), steps).windows_of(chat).len(),
    ensures
        ({
            let s = SchedulerView::fresh(limits, aging);
            let counted = history::run(s, steps).windows_of(chat)[i];
            let granted = ledger(s, steps, chat);
            let gone = granted.len() - counted.history.len();
            &&& 0 <= gone
            &&& 0 <= j < counted.history.len() ==> counted.history[j] == granted[j + gone]
            &&& 0 <= j < gone ==> granted[j].0.nanos + counted.window.nanos
                <= steps.last().now.nanos
        }),
{
    let s = SchedulerView::fresh(limits, aging);
    let start = Instant { nanos: 0 };
    SchedulerView::lemma_fresh_inv(limits, aging);
    let empty = Seq::<(Instant, u32)>::empty();
    let windows = s.windows_of(chat);
    assert forall|k: int| 0 <= k < windows.len() implies backed(
        #[trigger] windows[k],
        empty,
        start,
    ) by {
        assert(windows[k].history =~= empty.skip(0));
    }
    lemma_run_booked(s, steps, chat, start);
    let counted = history::run(s, steps).windows_of(chat)[i];
    let granted = ledger(s, steps, chat);
    assert(backed(counted, granted, steps.last().now));
    let gone = granted.len() - counted.history.len();
    if 0 <= j < gone {
        assert(window::expired(granted[j].0, counted.window, steps.last().now));
    }
}

} // verus!
