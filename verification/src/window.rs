//! Sliding-window rate limits.
//!
//! A window admits at most `capacity` units of weight per `window` of time.
//! The budget is debited when a request is granted and never refunded: only
//! the passing of time frees it.

use crate::time::{Duration, Instant};
use crate::types::{OutboundChatKey, WindowLimit};
use std::collections::VecDeque;
use vstd::prelude::*;

verus! {

/// What a rolling window holds: its limit and the grants it still counts,
/// oldest first.
#[verifier::ext_equal]
pub struct WindowView {
    pub capacity: u32,
    pub window: Duration,
    pub history: Seq<(Instant, u32)>,
}

/// The weight of all entries together.
pub open spec fn total(history: Seq<(Instant, u32)>) -> nat
    decreases history.len(),
{
    if history.len() == 0 {
        0
    } else {
        history[0].1 as nat + total(history.drop_first())
    }
}

/// Whether an entry made at `at` has left the window by `now`.
pub open spec fn expired(at: Instant, window: Duration, now: Instant) -> bool {
    at.nanos + window.nanos <= now.nanos
}

/// The history without its leading expired entries.
pub open spec fn pruned(
    history: Seq<(Instant, u32)>,
    window: Duration,
    now: Instant,
) -> Seq<(Instant, u32)>
    decreases history.len(),
{
    if history.len() > 0 && expired(history[0].0, window, now) {
        pruned(history.drop_first(), window, now)
    } else {
        history
    }
}

/// The moment at which enough of the history has left the window for
/// `weight` to fit, if it ever does.
pub open spec fn release(
    history: Seq<(Instant, u32)>,
    window: Duration,
    capacity: u32,
    weight: u32,
) -> Option<Instant>
    decreases history.len(),
{
    if history.len() == 0 {
        None
    } else if total(history.drop_first()) + weight <= capacity {
        Some(history[0].0.plus(window))
    } else {
        release(history.drop_first(), window, capacity, weight)
    }
}

impl WindowView {
    /// The window of `limit` before any grant.
    pub open spec fn fresh(limit: WindowLimit) -> WindowView {
        WindowView { capacity: limit.capacity, window: limit.window, history: Seq::empty() }
    }

    pub open spec fn prune(self, now: Instant) -> WindowView {
        WindowView { history: pruned(self.history, self.window, now), ..self }
    }

    pub open spec fn fits(self, weight: u32) -> bool {
        total(self.history) + weight <= self.capacity
    }

    pub open spec fn consume(self, now: Instant, weight: u32) -> WindowView {
        WindowView { history: self.history.push((now, weight)), ..self }
    }

    pub open spec fn earliest_for(self, now: Instant, weight: u32) -> Option<Instant> {
        if self.fits(weight) {
            Some(now)
        } else {
            release(self.history, self.window, self.capacity, weight)
        }
    }
}

/// Every window of the set, before any grant.
pub open spec fn fresh_all(limits: Seq<WindowLimit>) -> Seq<WindowView> {
    Seq::new(limits.len(), |i: int| WindowView::fresh(limits[i]))
}

/// The windows of a chat: those of every chat and those of its kind.
pub open spec fn applicable(limits: Seq<WindowLimit>, chat: u64) -> Seq<WindowLimit>
    decreases limits.len(),
{
    if limits.len() == 0 {
        Seq::empty()
    } else {
        let before = applicable(limits.drop_last(), chat);
        if limits.last().applies(chat) {
            before.push(limits.last())
        } else {
            before
        }
    }
}

/// The windows of a chat.
pub fn applicable_to(limits: &Vec<WindowLimit>, chat: OutboundChatKey) -> (r: Vec<WindowLimit>)
    ensures
        r@ == applicable(limits@, chat.value),
{
    let mut picked: Vec<WindowLimit> = Vec::new();
    let mut i: usize = 0;
    while i < limits.len()
        invariant
            i <= limits.len(),
            picked@ == applicable(limits@.take(i as int), chat.value),
        decreases limits.len() - i,
    {
        proof {
            assert(limits@.take(i + 1).drop_last() =~= limits@.take(i as int));
        }
        let limit = limits[i];
        if limit.applies_to(chat) {
            picked.push(limit);
        }
        i = i + 1;
    }
    assert(limits@.take(i as int) =~= limits@);
    picked
}

/// The windows of a chat are those of the list that apply to it, no others.
pub proof fn law_applicable_windows_apply(limits: Seq<WindowLimit>, chat: u64)
    ensures
        forall|i: int|
            0 <= i < limits.len() && (#[trigger] limits[i]).applies(chat) ==> applicable(
                limits,
                chat,
            ).contains(limits[i]),
        forall|j: int|
            0 <= j < applicable(limits, chat).len() ==> limits.contains(
                #[trigger] applicable(limits, chat)[j],
            ) && applicable(limits, chat)[j].applies(chat),
        (forall|i: int| 0 <= i < limits.len() ==> (#[trigger] limits[i]).kind is Any)
            ==> applicable(limits, chat) == limits,
    decreases limits.len(),
{
    if limits.len() > 0 {
        let rest = limits.drop_last();
        let before = applicable(rest, chat);
        let all = applicable(limits, chat);
        law_applicable_windows_apply(rest, chat);
        assert(rest.push(limits.last()) =~= limits);
        assert forall|i: int|
            0 <= i < limits.len() && (#[trigger] limits[i]).applies(chat) implies all.contains(
            limits[i],
        ) by {
            if i < rest.len() {
                assert(rest[i] == limits[i]);
                let j = choose|j: int| 0 <= j < before.len() && before[j] == limits[i];
                assert(all[j] == limits[i]);
            } else {
                assert(all[all.len() - 1] == limits[i]);
            }
        }
        assert forall|j: int| 0 <= j < all.len() implies limits.contains(#[trigger] all[j])
            && all[j].applies(chat) by {
            if j < before.len() {
                assert(all[j] == before[j]);
                let i = choose|i: int| 0 <= i < rest.len() && rest[i] == before[j];
                assert(limits[i] == before[j]);
            } else {
                assert(limits[limits.len() - 1] == all[j]);
            }
        }
        if forall|i: int| 0 <= i < limits.len() ==> (#[trigger] limits[i]).kind is Any {
            assert forall|i: int| 0 <= i < rest.len() implies (#[trigger] rest[i]).kind is Any by {
                assert(rest[i] == limits[i]);
            }
            assert(limits[limits.len() - 1].kind is Any);
        }
    } else {
        assert(applicable(limits, chat) =~= limits);
    }
}

pub open spec fn prune_all(windows: Seq<WindowView>, now: Instant) -> Seq<WindowView> {
    Seq::new(windows.len(), |i: int| windows[i].prune(now))
}

/// Whether every window of the set has room for `weight`.
pub open spec fn all_fit(windows: Seq<WindowView>, weight: u32) -> bool {
    forall|i: int| 0 <= i < windows.len() ==> (#[trigger] windows[i]).fits(weight)
}

pub open spec fn consume_all(windows: Seq<WindowView>, now: Instant, weight: u32) -> Seq<
    WindowView,
> {
    Seq::new(windows.len(), |i: int| windows[i].consume(now, weight))
}

/// The moment the last blocking window of the set has room for `weight`, not
/// before `now`.
pub open spec fn earliest_for_all(windows: Seq<WindowView>, now: Instant, weight: u32) -> Option<
    Instant,
>
    decreases windows.len(),
{
    if windows.len() == 0 {
        Some(now)
    } else {
        match (
            earliest_for_all(windows.drop_last(), now, weight),
            windows.last().earliest_for(now, weight),
        ) {
            (Some(a), Some(b)) => Some(a.later(b)),
            _ => None,
        }
    }
}

/// Whether no window of the set counts any grant.
pub open spec fn all_idle(windows: Seq<WindowView>) -> bool {
    forall|i: int| 0 <= i < windows.len() ==> (#[trigger] windows[i]).history.len() == 0
}

/// The position of the longest window of the set, the first of them if
/// several are equally long.
pub open spec fn longest(windows: Seq<WindowView>) -> int
    decreases windows.len(),
{
    if windows.len() <= 1 {
        0
    } else {
        let before = longest(windows.drop_last());
        if windows.last().window.nanos > windows[before].window.nanos {
            windows.len() - 1
        } else {
            before
        }
    }
}

/// The grants the set still remembers: its longest window forgets last.
pub open spec fn ledger(windows: Seq<WindowView>) -> Seq<(Instant, u32)> {
    if windows.len() == 0 {
        Seq::empty()
    } else {
        windows[longest(windows)].history
    }
}

/// The set under new limits: every new window counts what the old set still
/// remembers.
pub open spec fn relimit(windows: Seq<WindowView>, limits: Seq<WindowLimit>) -> Seq<WindowView> {
    Seq::new(
        limits.len(),
        |i: int|
            WindowView {
                capacity: limits[i].capacity,
                window: limits[i].window,
                history: ledger(windows),
            },
    )
}

pub proof fn lemma_total_push(history: Seq<(Instant, u32)>, entry: (Instant, u32))
    ensures
        total(history.push(entry)) == total(history) + entry.1,
    decreases history.len(),
{
    if history.len() == 0 {
        assert(history.push(entry).drop_first() =~= history);
    } else {
        lemma_total_push(history.drop_first(), entry);
        assert(history.push(entry).drop_first() =~= history.drop_first().push(entry));
    }
}

pub proof fn lemma_pruned_total(history: Seq<(Instant, u32)>, window: Duration, now: Instant)
    ensures
        total(pruned(history, window, now)) <= total(history),
        pruned(history, window, now).len() <= history.len(),
    decreases history.len(),
{
    if history.len() > 0 && expired(history[0].0, window, now) {
        lemma_pruned_total(history.drop_first(), window, now);
    }
}

/// Sliding window with weighted entries.
pub struct RollingWindow {
    capacity: u32,
    window: Duration,
    history: VecDeque<(Instant, u32)>,
    used: u64,
}

impl RollingWindow {
    /// The running sum agrees with the history.
    pub closed spec fn wf(&self) -> bool {
        self.used == total(self.history@) && self.used <= u32::MAX
    }

    pub closed spec fn view(&self) -> WindowView {
        WindowView { capacity: self.capacity, window: self.window, history: self.history@ }
    }

    pub fn new(limit: WindowLimit) -> (r: Self)
        ensures
            r.wf(),
            r@ == WindowView::fresh(limit),
    {
        RollingWindow {
            capacity: limit.capacity,
            window: limit.window,
            history: VecDeque::new(),
            used: 0,
        }
    }

    /// Drops the leading entries that have left the window.
    pub fn prune(&mut self, now: Instant)
        requires
            old(self).wf(),
        ensures
            final(self).wf(),
            final(self)@ == old(self)@.prune(now),
    {
        if now.nanos < self.window.nanos {
            assert(pruned(self.history@, self.window, now) == self.history@);
            return;
        }
        let cutoff: u64 = now.nanos - self.window.nanos;
        while self.history.len() > 0
            invariant
                self.wf(),
                self.capacity == old(self).capacity,
                self.window == old(self).window,
                cutoff == now.nanos - self.window.nanos,
                pruned(self.history@, self.window, now) == pruned(
                    old(self).history@,
                    self.window,
                    now,
                ),
            decreases self.history@.len(),
        {
            let entry = self.history[0];
            if entry.0.nanos > cutoff {
                return;
            }
            self.used = self.used - entry.1 as u64;
            let ghost before = self.history@;
            let _ = self.history.pop_front();
            assert(self.history@ =~= before.drop_first());
        }
    }

    /// Whether the window counts nothing at `now`.
    pub fn is_idle(&mut self, now: Instant) -> (r: bool)
        requires
            old(self).wf(),
        ensures
            final(self).wf(),
            final(self)@ == old(self)@.prune(now),
            r == (final(self)@.history.len() == 0),
    {
        self.prune(now);
        self.history.len() == 0
    }

    /// Whether `weight` fits at `now`.
    pub fn can_consume(&mut self, now: Instant, weight: u32) -> (r: bool)
        requires
            old(self).wf(),
        ensures
            final(self).wf(),
            final(self)@ == old(self)@.prune(now),
            r == final(self)@.fits(weight),
    {
        self.prune(now);
        self.used + weight as u64 <= self.capacity as u64
    }

    /// Debits `weight`, which has been found to fit.
    pub fn consume(&mut self, now: Instant, weight: u32)
        requires
            old(self).wf(),
            old(self)@.fits(weight),
        ensures
            final(self).wf(),
            final(self)@ == old(self)@.consume(now, weight),
    {
        proof {
            lemma_total_push(self.history@, (now, weight));
        }
        self.history.push_back((now, weight));
        self.used = self.used + weight as u64;
    }

    /// The earliest moment at which `weight` would fit again.
    ///
    /// The history is not pruned here: an already expired entry yields a
    /// moment in the past.
    pub fn earliest_for(&self, now: Instant, weight: u32) -> (r: Option<Instant>)
        requires
            self.wf(),
        ensures
            r == self@.earliest_for(now, weight),
    {
        if self.used + weight as u64 <= self.capacity as u64 {
            return Some(now);
        }
        let mut remaining: u64 = self.used;
        let mut i: usize = 0;
        assert(self.history@.skip(0) =~= self.history@);
        while i < self.history.len()
            invariant
                i <= self.history@.len(),
                self.used <= u32::MAX,
                remaining <= self.used,
                remaining == total(self.history@.skip(i as int)),
                release(self.history@.skip(i as int), self.window, self.capacity, weight)
                    == release(self.history@, self.window, self.capacity, weight),
                !self@.fits(weight),
            decreases self.history@.len() - i,
        {
            let entry = self.history[i];
            proof {
                let rest = self.history@.skip(i as int);
                assert(rest[0] == entry);
                assert(rest.drop_first() =~= self.history@.skip(i + 1));
            }
            remaining = remaining - entry.1 as u64;
            if remaining + weight as u64 <= self.capacity as u64 {
                return Some(entry.0.plus(self.window));
            }
            i = i + 1;
        }
        assert(self.history@.skip(i as int).len() == 0);
        None
    }

    /// A window of `limit` that counts the grants this one counts.
    pub fn with_limit(&self, limit: WindowLimit) -> (r: Self)
        requires
            self.wf(),
        ensures
            r.wf(),
            r@ == (WindowView {
                capacity: limit.capacity,
                window: limit.window,
                history: self@.history,
            }),
    {
        let mut history: VecDeque<(Instant, u32)> = VecDeque::new();
        let mut i: usize = 0;
        while i < self.history.len()
            invariant
                i <= self.history@.len(),
                history@ == self.history@.take(i as int),
            decreases self.history@.len() - i,
        {
            history.push_back(self.history[i]);
            i = i + 1;
            assert(history@ =~= self.history@.take(i as int));
        }
        assert(history@ =~= self.history@);
        RollingWindow { capacity: limit.capacity, window: limit.window, history, used: self.used }
    }

    /// Whether `weight` fits beside the entries held.
    pub fn fits(&self, weight: u32) -> (r: bool)
        requires
            self.wf(),
        ensures
            r == self@.fits(weight),
    {
        self.used + weight as u64 <= self.capacity as u64
    }

    /// Whether any entry is held.
    pub fn counts_something(&self) -> (r: bool)
        ensures
            r == (self@.history.len() > 0),
    {
        self.history.len() > 0
    }

    /// The length of the window.
    pub fn span(&self) -> (r: Duration)
        ensures
            r == self@.window,
    {
        self.window
    }
}

/// A set of windows a request must pass all at once.
pub struct WindowSet {
    windows: Vec<RollingWindow>,
}

impl WindowSet {
    pub closed spec fn wf(&self) -> bool {
        forall|i: int| 0 <= i < self.windows@.len() ==> (#[trigger] self.windows@[i]).wf()
    }

    pub closed spec fn view(&self) -> Seq<WindowView> {
        Seq::new(self.windows@.len(), |i: int| self.windows@[i]@)
    }

    pub fn new(limits: &Vec<WindowLimit>) -> (r: Self)
        ensures
            r.wf(),
            r@ == fresh_all(limits@),
    {
        let mut windows: Vec<RollingWindow> = Vec::new();
        let mut i: usize = 0;
        while i < limits.len()
            invariant
                i <= limits@.len(),
                windows@.len() == i,
                forall|j: int|
                    0 <= j < i ==> (#[trigger] windows@[j]).wf() && windows@[j]@
                        == WindowView::fresh(limits@[j]),
            decreases limits@.len() - i,
        {
            windows.push(RollingWindow::new(limits[i]));
            i = i + 1;
        }
        let r = WindowSet { windows };
        assert(r@ =~= fresh_all(limits@));
        r
    }

    /// Drops what has left the windows.
    pub fn prune(&mut self, now: Instant)
        requires
            old(self).wf(),
        ensures
            final(self).wf(),
            final(self)@ == prune_all(old(self)@, now),
    {
        let mut i: usize = 0;
        while i < self.windows.len()
            invariant
                i <= self.windows@.len(),
                self.windows@.len() == old(self).windows@.len(),
                self.wf(),
                forall|j: int|
                    0 <= j < i ==> (#[trigger] self.windows@[j])@ == old(self).windows@[j]@.prune(
                        now,
                    ),
                forall|j: int|
                    i <= j < self.windows@.len() ==> (#[trigger] self.windows@[j])@ == old(
                        self,
                    ).windows@[j]@,
            decreases self.windows@.len() - i,
        {
            self.windows[i].prune(now);
            i = i + 1;
        }
        assert(self@ =~= prune_all(old(self)@, now));
    }

    /// Whether `weight` fits every window at `now`.
    pub fn can_consume(&mut self, now: Instant, weight: u32) -> (r: bool)
        requires
            old(self).wf(),
        ensures
            final(self).wf(),
            final(self)@ == prune_all(old(self)@, now),
            r == all_fit(final(self)@, weight),
    {
        self.prune(now);
        let mut i: usize = 0;
        while i < self.windows.len()
            invariant
                i <= self.windows@.len(),
                self.wf(),
                self@ == prune_all(old(self)@, now),
                forall|j: int| 0 <= j < i ==> (#[trigger] self@[j]).fits(weight),
            decreases self.windows@.len() - i,
        {
            let fits = self.windows[i].fits(weight);
            if !fits {
                assert(!self@[i as int].fits(weight));
                return false;
            }
            i = i + 1;
        }
        true
    }

    /// Debits `weight` from every window; it has been found to fit.
    pub fn consume(&mut self, now: Instant, weight: u32)
        requires
            old(self).wf(),
            all_fit(old(self)@, weight),
        ensures
            final(self).wf(),
            final(self)@ == consume_all(old(self)@, now, weight),
    {
        assert(forall|j: int|
            0 <= j < self.windows@.len() ==> self@[j] == (#[trigger] self.windows@[j])@);
        let mut i: usize = 0;
        while i < self.windows.len()
            invariant
                i <= self.windows@.len(),
                self.windows@.len() == old(self).windows@.len(),
                self.wf(),
                forall|j: int|
                    0 <= j < i ==> (#[trigger] self.windows@[j])@ == old(self).windows@[j]@.consume(
                        now,
                        weight,
                    ),
                forall|j: int|
                    i <= j < self.windows@.len() ==> (#[trigger] self.windows@[j])@ == old(
                        self,
                    ).windows@[j]@ && self.windows@[j]@.fits(weight),
            decreases self.windows@.len() - i,
        {
            self.windows[i].consume(now, weight);
            i = i + 1;
        }
        assert(self@ =~= consume_all(old(self)@, now, weight));
    }

    /// The earliest moment the whole set admits `weight`: every window must
    /// allow it, so the set is ready when the last blocking window is.
    pub fn earliest_for(&self, now: Instant, weight: u32) -> (r: Option<Instant>)
        requires
            self.wf(),
        ensures
            r == earliest_for_all(self@, now, weight),
    {
        let mut latest: Option<Instant> = Some(now);
        let mut i: usize = 0;
        assert(self@.take(0) =~= Seq::<WindowView>::empty());
        while i < self.windows.len()
            invariant
                i <= self.windows@.len(),
                self.wf(),
                latest == earliest_for_all(self@.take(i as int), now, weight),
            decreases self.windows@.len() - i,
        {
            let next = self.windows[i].earliest_for(now, weight);
            assert(self@.take(i + 1).drop_last() =~= self@.take(i as int));
            assert(self@.take(i + 1).last() == self.windows@[i as int]@);
            latest = match (latest, next) {
                (Some(a), Some(b)) => Some(a.later(b)),
                _ => None,
            };
            i = i + 1;
        }
        assert(self@.take(i as int) =~= self@);
        latest
    }

    /// Whether no window counts anything at `now`.
    pub fn is_idle(&mut self, now: Instant) -> (r: bool)
        requires
            old(self).wf(),
        ensures
            final(self).wf(),
            final(self)@ == prune_all(old(self)@, now),
            r == all_idle(final(self)@),
    {
        self.prune(now);
        let mut i: usize = 0;
        while i < self.windows.len()
            invariant
                i <= self.windows@.len(),
                self.wf(),
                self@ == prune_all(old(self)@, now),
                forall|j: int| 0 <= j < i ==> (#[trigger] self@[j]).history.len() == 0,
            decreases self.windows@.len() - i,
        {
            if self.windows[i].counts_something() {
                assert(self@[i as int].history.len() > 0);
                return false;
            }
            i = i + 1;
        }
        true
    }

    /// The set under new limits, keeping the grants it still remembers.
    pub fn with_limits(&self, limits: &Vec<WindowLimit>) -> (r: Self)
        requires
            self.wf(),
        ensures
            r.wf(),
            r@ == relimit(self@, limits@),
    {
        if self.windows.len() == 0 {
            let r = WindowSet::new(limits);
            assert(r@ =~= relimit(self@, limits@));
            return r;
        }
        let mut best: usize = 0;
        let mut i: usize = 1;
        assert(self@.take(1).len() == 1);
        while i < self.windows.len()
            invariant
                1 <= i <= self.windows@.len(),
                best < i,
                best == longest(self@.take(i as int)),
            decreases self.windows@.len() - i,
        {
            assert(self@.take(i + 1).drop_last() =~= self@.take(i as int));
            if self.windows[i].span().nanos > self.windows[best].span().nanos {
                best = i;
            }
            i = i + 1;
        }
        assert(self@.take(i as int) =~= self@);
        let mut windows: Vec<RollingWindow> = Vec::new();
        let mut k: usize = 0;
        while k < limits.len()
            invariant
                k <= limits@.len(),
                windows@.len() == k,
                best < self.windows@.len(),
                best == longest(self@),
                self.wf(),
                forall|j: int|
                    0 <= j < k ==> (#[trigger] windows@[j]).wf() && windows@[j]@ == relimit(
                        self@,
                        limits@,
                    )[j],
            decreases limits@.len() - k,
        {
            windows.push(self.windows[best].with_limit(limits[k]));
            k = k + 1;
        }
        let r = WindowSet { windows };
        assert(r@ =~= relimit(self@, limits@));
        r
    }
}

// ---------- laws ----------

/// Whether grants are listed in the order in which they were made.
pub open spec fn in_time_order(history: Seq<(Instant, u32)>) -> bool {
    forall|i: int, j: int|
        0 <= i <= j < history.len() ==> (#[trigger] history[i]).0.nanos <= (
        #[trigger] history[j]).0.nanos
}

/// The weight granted within the last `window` before `now`.
pub open spec fn spent(history: Seq<(Instant, u32)>, window: Duration, now: Instant) -> nat {
    total(history.filter(|entry: (Instant, u32)| !expired(entry.0, window, now)))
}

/// Pruning forgets exactly the grants that have left the window.
pub proof fn law_prune_forgets_exactly_the_expired(
    history: Seq<(Instant, u32)>,
    window: Duration,
    now: Instant,
)
    requires
        in_time_order(history),
    ensures
        pruned(history, window, now) == history.filter(
            |entry: (Instant, u32)| !expired(entry.0, window, now),
        ),
    decreases history.len(),
{
    let live = |entry: (Instant, u32)| !expired(entry.0, window, now);
    if history.len() > 0 {
        let rest = history.drop_first();
        assert(history =~= seq![history[0]] + rest);
        lemma_filter_front(history, live);
        if expired(history[0].0, window, now) {
            assert(in_time_order(rest)) by {
                assert(forall|i: int| 0 <= i < rest.len() ==> rest[i] == history[i + 1]);
            }
            law_prune_forgets_exactly_the_expired(rest, window, now);
        } else {
            assert forall|i: int| 0 <= i < history.len() implies live(#[trigger] history[i]) by {
                assert(history[0].0.nanos <= history[i].0.nanos);
            }
            lemma_filter_all(history, live);
        }
    } else {
        assert(history.filter(live) =~= history) by {
            reveal(Seq::filter);
        }
    }
}

proof fn lemma_filter_front(history: Seq<(Instant, u32)>, keep: spec_fn((Instant, u32)) -> bool)
    requires
        history.len() > 0,
    ensures
        history.filter(keep) == (if keep(history[0]) {
            seq![history[0]] + history.drop_first().filter(keep)
        } else {
            history.drop_first().filter(keep)
        }),
    decreases history.len(),
{
    reveal(Seq::filter);
    if history.len() == 1 {
        assert(history.drop_last() =~= Seq::empty());
        assert(history.drop_first() =~= Seq::empty());
        assert(history.drop_last().filter(keep) =~= Seq::empty());
        assert(history.drop_first().filter(keep) =~= Seq::empty());
        assert(history.filter(keep) =~= if keep(history[0]) {
            seq![history[0]]
        } else {
            Seq::empty()
        });
    } else {
        lemma_filter_front(history.drop_last(), keep);
        assert(history.drop_last().drop_first() =~= history.drop_first().drop_last());
        assert(history.drop_first().last() == history.last());
        assert(history.filter(keep) =~= (if keep(history[0]) {
            seq![history[0]] + history.drop_first().filter(keep)
        } else {
            history.drop_first().filter(keep)
        }));
    }
}

proof fn lemma_filter_all(history: Seq<(Instant, u32)>, keep: spec_fn((Instant, u32)) -> bool)
    requires
        forall|i: int| 0 <= i < history.len() ==> keep(#[trigger] history[i]),
    ensures
        history.filter(keep) == history,
    decreases history.len(),
{
    reveal(Seq::filter);
    if history.len() > 0 {
        assert(keep(history[history.len() - 1]));
        lemma_filter_all(history.drop_last(), keep);
        assert(history.drop_last().push(history.last()) =~= history);
    }
}

/// A window never overspends: when a grant is admitted at `now`, the weight
/// granted within the last `window` of time, this grant included, is at most
/// the capacity.
pub proof fn law_window_never_overspends(window: WindowView, now: Instant, weight: u32)
    requires
        in_time_order(window.history),
        window.prune(now).fits(weight),
        window.history.len() > 0 ==> window.history.last().0.nanos <= now.nanos,
        window.window.nanos > 0,
    ensures
        spent(window.prune(now).consume(now, weight).history, window.window, now)
            <= window.capacity,
        in_time_order(window.prune(now).consume(now, weight).history),
{
    lemma_pruned_is_suffix(window.history, window.window, now);
    let kept = window.prune(now);
    let after = kept.consume(now, weight);
    assert(in_time_order(after.history));
    law_prune_forgets_exactly_the_expired(after.history, window.window, now);
    lemma_pruned_total(after.history, window.window, now);
    lemma_total_push(kept.history, (now, weight));
}

pub proof fn lemma_pruned_is_suffix(history: Seq<(Instant, u32)>, window: Duration, now: Instant)
    ensures
        pruned(history, window, now).len() <= history.len(),
        pruned(history, window, now) == history.skip(
            history.len() - pruned(history, window, now).len(),
        ),
    decreases history.len(),
{
    if history.len() > 0 && expired(history[0].0, window, now) {
        let rest = history.drop_first();
        lemma_pruned_is_suffix(rest, window, now);
        assert(pruned(history, window, now) =~= history.skip(
            history.len() - pruned(history, window, now).len(),
        ));
    } else {
        assert(history.skip(0) =~= history);
    }
}

/// The budget is never refunded: pruning at `now` keeps every grant that is
/// still within the window, and granting only adds to what is counted.
pub proof fn law_budget_is_never_refunded(window: WindowView, now: Instant, weight: u32)
    ensures
        total(window.consume(now, weight).history) == total(window.history) + weight,
        forall|i: int|
            0 <= i < window.history.len() && !expired(window.history[i].0, window.window, now)
                ==> window.prune(now).history.contains(#[trigger] window.history[i]),
{
    lemma_total_push(window.history, (now, weight));
    lemma_pruned_is_suffix(window.history, window.window, now);
    let kept = window.prune(now).history;
    let cut = window.history.len() - kept.len();
    assert forall|i: int|
        0 <= i < window.history.len() && !expired(
            window.history[i].0,
            window.window,
            now,
        ) implies kept.contains(#[trigger] window.history[i]) by {
        if i < cut {
            lemma_cut_is_expired(window.history, window.window, now, i);
        }
        assert(kept[i - cut] == window.history[i]);
    }
}

pub proof fn lemma_cut_is_expired(
    history: Seq<(Instant, u32)>,
    window: Duration,
    now: Instant,
    i: int,
)
    requires
        0 <= i < history.len() - pruned(history, window, now).len(),
    ensures
        expired(history[i].0, window, now),
    decreases history.len(),
{
    if history.len() > 0 && expired(history[0].0, window, now) && i > 0 {
        lemma_cut_is_expired(history.drop_first(), window, now, i - 1);
    }
}

/// The moment reported for a weight that does not fit is the earliest one:
/// then it fits, and at no moment before it does.
pub proof fn law_release_is_the_earliest_moment(window: WindowView, weight: u32, t: Instant)
    requires
        in_time_order(window.history),
        !window.fits(weight),
        release(window.history, window.window, window.capacity, weight) is Some,
        release(window.history, window.window, window.capacity, weight)->0.nanos < u64::MAX,
    ensures
        window.prune(t).fits(weight) <==> t.nanos >= release(
            window.history,
            window.window,
            window.capacity,
            weight,
        )->0.nanos,
    decreases window.history.len(),
{
    let h = window.history;
    let rest = h.drop_first();
    assert(in_time_order(rest)) by {
        assert(forall|i: int| 0 <= i < rest.len() ==> rest[i] == h[i + 1]);
    }
    let at = release(h, window.window, window.capacity, weight)->0;
    if total(rest) + weight <= window.capacity {
        if expired(h[0].0, window.window, t) {
            lemma_pruned_total(rest, window.window, t);
        }
    } else {
        let smaller = WindowView { history: rest, ..window };
        law_release_is_the_earliest_moment(smaller, weight, t);
        lemma_release_not_before(rest, window.window, window.capacity, weight, h[0].0);
        if !expired(h[0].0, window.window, t) {
            assert(t.nanos < at.nanos);
        }
    }
}

proof fn lemma_release_not_before(
    history: Seq<(Instant, u32)>,
    window: Duration,
    capacity: u32,
    weight: u32,
    floor: Instant,
)
    requires
        forall|i: int| 0 <= i < history.len() ==> floor.nanos <= (#[trigger] history[i]).0.nanos,
        release(history, window, capacity, weight) is Some,
    ensures
        release(history, window, capacity, weight)->0.nanos >= floor.plus(window).nanos,
    decreases history.len(),
{
    if total(history.drop_first()) + weight > capacity {
        lemma_release_not_before(history.drop_first(), window, capacity, weight, floor);
    } else {
        assert(floor.nanos <= history[0].0.nanos);
    }
}

/// A weight within the capacity fits sooner or later.
pub proof fn law_fitting_weight_has_a_release(window: WindowView, now: Instant, weight: u32)
    requires
        weight <= window.capacity,
    ensures
        window.earliest_for(now, weight) is Some,
    decreases window.history.len(),
{
    if !window.fits(weight) {
        lemma_release_exists(window.history, window.window, window.capacity, weight);
    }
}

/// The moment reported for a weight: there is none exactly if the weight
/// exceeds the capacity; else, from `now` on, the weight fits from that
/// moment on and not before.
pub proof fn law_earliest_is_the_least_moment(window: WindowView, now: Instant, weight: u32)
    requires
        in_time_order(window.history),
        forall|i: int|
            0 <= i < window.history.len() ==> (#[trigger] window.history[i]).0.nanos
                + window.window.nanos < u64::MAX,
    ensures
        window.earliest_for(now, weight) is None <==> weight > window.capacity,
        window.earliest_for(now, weight) matches Some(at) ==> forall|t: Instant|
            t.nanos >= now.nanos ==> (#[trigger] window.prune(t).fits(weight) <==> t.nanos
                >= at.nanos),
{
    let h = window.history;
    if window.fits(weight) {
        assert forall|t: Instant| t.nanos >= now.nanos implies #[trigger] window.prune(t).fits(
            weight,
        ) by {
            lemma_pruned_total(h, window.window, t);
        }
    } else if weight > window.capacity {
        lemma_no_release(h, window.window, window.capacity, weight);
    } else {
        lemma_release_exists(h, window.window, window.capacity, weight);
        lemma_release_in_time(h, window.window, window.capacity, weight);
        assert forall|t: Instant| t.nanos >= now.nanos implies (#[trigger] window.prune(t).fits(
            weight,
        ) <==> t.nanos >= release(h, window.window, window.capacity, weight)->0.nanos) by {
            law_release_is_the_earliest_moment(window, weight, t);
        }
    }
}

proof fn lemma_no_release(
    history: Seq<(Instant, u32)>,
    window: Duration,
    capacity: u32,
    weight: u32,
)
    requires
        weight > capacity,
    ensures
        release(history, window, capacity, weight) is None,
    decreases history.len(),
{
    if history.len() > 0 {
        lemma_no_release(history.drop_first(), window, capacity, weight);
    }
}

proof fn lemma_release_in_time(
    history: Seq<(Instant, u32)>,
    window: Duration,
    capacity: u32,
    weight: u32,
)
    requires
        forall|i: int|
            0 <= i < history.len() ==> (#[trigger] history[i]).0.nanos + window.nanos < u64::MAX,
    ensures
        release(history, window, capacity, weight) matches Some(at) ==> at.nanos < u64::MAX,
    decreases history.len(),
{
    if history.len() > 0 {
        let rest = history.drop_first();
        assert(history[0].0.nanos + window.nanos < u64::MAX);
        assert forall|i: int| 0 <= i < rest.len() implies (#[trigger] rest[i]).0.nanos
            + window.nanos < u64::MAX by {
            assert(rest[i] == history[i + 1]);
        }
        lemma_release_in_time(rest, window, capacity, weight);
    }
}

proof fn lemma_release_exists(
    history: Seq<(Instant, u32)>,
    window: Duration,
    capacity: u32,
    weight: u32,
)
    requires
        weight <= capacity,
        history.len() > 0,
    ensures
        release(history, window, capacity, weight) is Some,
    decreases history.len(),
{
    if total(history.drop_first()) + weight > capacity {
        lemma_release_exists(history.drop_first(), window, capacity, weight);
    }
}

/// What a window counts at a moment: a grant counts for just the length of the
/// window. It leaves the window at the moment that much after it was made, not
/// before, and what has not left it still counts in full.
pub proof fn law_a_grant_counts_for_the_length_of_the_window(
    window: WindowView,
    now: Instant,
    i: int,
)
    requires
        in_time_order(window.history),
        0 <= i < window.history.len(),
    ensures
        ({
            let kept = window.prune(now).history;
            let cut = window.history.len() - kept.len();
            &&& 0 <= cut
            &&& forall|j: int|
                0 <= j < kept.len() ==> kept[j] == #[trigger] window.history[j + cut]
            &&& i < cut <==> window.history[i].0.nanos + window.window.nanos <= now.nanos
            &&& window.prune(now).capacity == window.capacity
            &&& window.prune(now).window == window.window
        }),
{
    lemma_pruned_is_suffix(window.history, window.window, now);
    let kept = window.prune(now).history;
    let cut = window.history.len() - kept.len();
    if i < cut {
        lemma_cut_is_expired(window.history, window.window, now, i);
    } else {
        lemma_kept_is_live(window.history, window.window, now);
        assert(kept[0] == window.history[cut]);
        assert(window.history[cut].0.nanos <= window.history[i].0.nanos);
    }
}

proof fn lemma_kept_is_live(history: Seq<(Instant, u32)>, window: Duration, now: Instant)
    ensures
        pruned(history, window, now).len() > 0 ==> pruned(history, window, now)[0].0.nanos
            + window.nanos > now.nanos,
    decreases history.len(),
{
    if history.len() > 0 && history[0].0.nanos + window.nanos <= now.nanos {
        lemma_kept_is_live(history.drop_first(), window, now);
    }
}

/// When a request fits and what it costs: it fits if its weight and everything
/// that counts stay within the capacity together, and a grant is counted with
/// its weight and its moment, behind everything else.
pub proof fn law_a_grant_costs_its_weight(window: WindowView, now: Instant, weight: u32)
    ensures
        window.fits(weight) <==> total(window.history) + weight <= window.capacity,
        window.consume(now, weight).history == window.history.push((now, weight)),
        total(window.consume(now, weight).history) == total(window.history) + weight,
        window.consume(now, weight).capacity == window.capacity,
        window.consume(now, weight).window == window.window,
        total(Seq::<(Instant, u32)>::empty()) == 0,
{
    lemma_total_push(window.history, (now, weight));
}

/// New limits forget nothing: every new window has its own capacity and
/// length, and starts with all that a longest window of the old set counted.
pub proof fn law_new_windows_start_with_the_longest_memory(
    windows: Seq<WindowView>,
    limits: Seq<WindowLimit>,
    i: int,
)
    requires
        0 <= i < limits.len(),
    ensures
        relimit(windows, limits).len() == limits.len(),
        relimit(windows, limits)[i].capacity == limits[i].capacity,
        relimit(windows, limits)[i].window == limits[i].window,
        windows.len() == 0 ==> relimit(windows, limits)[i].history.len() == 0,
        windows.len() > 0 ==> exists|k: int|
            0 <= k < windows.len() && relimit(windows, limits)[i].history == (
            #[trigger] windows[k]).history && forall|j: int|
                0 <= j < windows.len() ==> (#[trigger] windows[j]).window.nanos
                    <= windows[k].window.nanos,
{
    if windows.len() > 0 {
        lemma_longest_is_longest(windows);
        let k = longest(windows);
        assert(relimit(windows, limits)[i].history == windows[k].history);
    }
}

proof fn lemma_longest_is_longest(windows: Seq<WindowView>)
    requires
        windows.len() > 0,
    ensures
        0 <= longest(windows) < windows.len(),
        forall|j: int|
            0 <= j < windows.len() ==> (#[trigger] windows[j]).window.nanos
                <= windows[longest(windows)].window.nanos,
    decreases windows.len(),
{
    if windows.len() > 1 {
        let rest = windows.drop_last();
        lemma_longest_is_longest(rest);
        assert forall|j: int| 0 <= j < windows.len() implies (#[trigger] windows[j]).window.nanos
            <= windows[longest(windows)].window.nanos by {
            if j < rest.len() {
                assert(rest[j] == windows[j]);
            }
        }
    }
}

} // verus!
