//! The full-backlog report and the freeze that silences it.

use crate::time::{Duration, Instant};
use vstd::prelude::*;

verus! {

/// Minimum delay between two full-backlog reports: four seconds.
pub const QUEUE_FULL_DELAY_NANOS: u64 = 4_000_000_000;

/// How often a full backlog is looked at again: just past the delay.
pub const SATURATION_CHECK_NANOS: u64 = 4_001_000_000;

/// One millisecond in nanoseconds.
pub const MILLI_NANOS: u64 = 1_000_000;

/// What all requests of one throttle share.
#[derive(Clone, Copy, Debug, PartialEq, Eq, Structural)]
pub struct CompatState {
    /// Whether a `RetryAfter` outcome sends the request again.
    pub retry: bool,
    /// The bound of the backlog, reported when it is reached.
    pub queue_capacity: usize,
    /// The last full-backlog report.
    pub last_queue_full: Instant,
    /// Whether the saturation monitor is running.
    pub monitor_active: bool,
    /// The latest known end of a freeze.
    pub freeze_until: Option<Instant>,
    /// A full backlog that was noticed during a freeze and has not been
    /// reported.
    pub deferred_full: bool,
}

/// What follows when a request has entered the backlog.
#[derive(Clone, Copy, Debug, PartialEq, Eq, Structural)]
pub struct Accepted {
    /// Report this many pending requests.
    pub notify: Option<usize>,
    /// Start the saturation monitor.
    pub start_monitor: bool,
}

/// What the saturation monitor does when it wakes up.
#[derive(Clone, Copy, Debug, PartialEq, Eq, Structural)]
pub enum MonitorStep {
    /// The freeze was extended: sleep again.
    SleepAgain,
    /// Look whether the queue is alive: a deferred report is due.
    ProbeQueue,
    /// Look whether a slot is free.
    CheckSlots,
}

/// What the saturation monitor does after it looked.
#[derive(Clone, Copy, Debug, PartialEq, Eq, Structural)]
pub struct MonitorVerdict {
    pub notify: Option<usize>,
    /// Whether the monitor ends.
    pub ends: bool,
}

impl CompatState {
    /// Whether a report is due: the delay has passed.
    pub open spec fn may_notify(self, now: Instant) -> bool {
        now.nanos - self.last_queue_full.nanos > QUEUE_FULL_DELAY_NANOS
    }

    /// The state after a full backlog was noticed.
    pub open spec fn notified(self, now: Instant) -> CompatState {
        if self.may_notify(now) {
            CompatState { last_queue_full: now, ..self }
        } else {
            self
        }
    }

    /// What is reported of a full backlog.
    pub open spec fn notice(self, now: Instant) -> Option<usize> {
        if self.may_notify(now) {
            Some(self.queue_capacity)
        } else {
            None
        }
    }

    pub open spec fn frozen(self, now: Instant) -> bool {
        self.freeze_until matches Some(until) && now.nanos < until.nanos
    }

    /// The state after a freeze became known: it is extended, never cut.
    pub open spec fn freeze(self, observed_at: Instant, duration: Duration) -> CompatState {
        let until = observed_at.plus(duration);
        match self.freeze_until {
            Some(current) => if until.nanos > current.nanos {
                CompatState { freeze_until: Some(until), ..self }
            } else {
                self
            },
            None => CompatState { freeze_until: Some(until), ..self },
        }
    }

    /// The state after a request entered the backlog.
    pub open spec fn accepted_state(self, was_last_slot: bool, now: Instant) -> CompatState {
        if !was_last_slot {
            self
        } else if self.frozen(now) {
            CompatState { deferred_full: true, monitor_active: true, ..self }
        } else {
            CompatState { monitor_active: true, ..self.notified(now) }
        }
    }

    /// What follows when a request has entered the backlog.
    pub open spec fn accepted_steps(self, was_last_slot: bool, now: Instant) -> Accepted {
        Accepted {
            notify: if was_last_slot && !self.frozen(now) {
                self.notice(now)
            } else {
                None
            },
            start_monitor: was_last_slot && !self.monitor_active,
        }
    }

    /// The state of a new throttle. The last report counts as made just past
    /// the delay ago, so that the first full backlog is reported at once.
    pub fn new(retry: bool, queue_capacity: usize, now: Instant) -> (r: Self)
        ensures
            r.retry == retry,
            r.queue_capacity == queue_capacity,
            now.nanos >= SATURATION_CHECK_NANOS ==> r.last_queue_full.nanos == now.nanos
                - SATURATION_CHECK_NANOS && r.may_notify(now),
            now.nanos < SATURATION_CHECK_NANOS ==> r.last_queue_full == now,
            !r.monitor_active,
            r.freeze_until is None,
            !r.deferred_full,
    {
        let last_queue_full = match now.nanos.checked_sub(SATURATION_CHECK_NANOS) {
            Some(nanos) => Instant { nanos },
            None => now,
        };
        CompatState {
            retry,
            queue_capacity,
            last_queue_full,
            monitor_active: false,
            freeze_until: None,
            deferred_full: false,
        }
    }

    /// Notices a full backlog: reports it, unless the last report is not
    /// long ago.
    pub fn notify_queue_full(&mut self, now: Instant) -> (r: Option<usize>)
        ensures
            *final(self) == old(self).notified(now),
            r == old(self).notice(now),
    {
        if now.saturating_since(self.last_queue_full).nanos <= QUEUE_FULL_DELAY_NANOS {
            return None;
        }
        self.last_queue_full = now;
        Some(self.queue_capacity)
    }

    /// Whether a global freeze is active.
    pub fn freeze_active(&self, now: Instant) -> (r: bool)
        ensures
            r == self.frozen(now),
    {
        match self.freeze_until {
            Some(until) => now.nanos < until.nanos,
            None => false,
        }
    }

    /// Records a global freeze, extending an existing one only when the new
    /// end is later. Its end is anchored at the moment the error was
    /// observed.
    pub fn record_freeze_at(&mut self, observed_at: Instant, duration: Duration)
        ensures
            *final(self) == old(self).freeze(observed_at, duration),
    {
        let until = observed_at.plus(duration);
        let later = match self.freeze_until {
            Some(current) => until.nanos > current.nanos,
            None => true,
        };
        if later {
            self.freeze_until = Some(until);
        }
    }

    /// Notes that a request has entered the backlog. The last slot means a
    /// full backlog: it is reported, or deferred during a freeze, and the
    /// saturation monitor has to run.
    pub fn accepted(&mut self, was_last_slot: bool, now: Instant) -> (r: Accepted)
        ensures
            *final(self) == old(self).accepted_state(was_last_slot, now),
            r == old(self).accepted_steps(was_last_slot, now),
    {
        if !was_last_slot {
            return Accepted { notify: None, start_monitor: false };
        }
        let mut notify: Option<usize> = None;
        if !self.freeze_active(now) {
            notify = self.notify_queue_full(now);
        } else {
            self.deferred_full = true;
        }
        let start_monitor = self.ensure_saturation_monitor();
        Accepted { notify, start_monitor }
    }

    /// Whether a saturation monitor has to be started: at most one runs.
    pub fn ensure_saturation_monitor(&mut self) -> (r: bool)
        ensures
            *final(self) == (CompatState { monitor_active: true, ..*old(self) }),
            r == !old(self).monitor_active,
    {
        if self.monitor_active {
            return false;
        }
        self.monitor_active = true;
        true
    }

    /// Forgets a deferred report: the queue is gone and nothing will be
    /// reported any more.
    pub fn forget_deferred(&mut self)
        ensures
            *final(self) == (CompatState { deferred_full: false, ..*old(self) }),
    {
        self.deferred_full = false;
    }

    /// When the saturation monitor wakes up: just past the end of a freeze,
    /// else after the check period.
    pub fn monitor_wake(&self, now: Instant) -> (r: Instant)
        ensures
            r == (if self.frozen(now) {
                self.freeze_until->0.plus(Duration { nanos: MILLI_NANOS })
            } else {
                now.plus(Duration { nanos: SATURATION_CHECK_NANOS })
            }),
    {
        match self.freeze_until {
            Some(until) => if until.nanos > now.nanos {
                until.plus(Duration { nanos: MILLI_NANOS })
            } else {
                now.plus(Duration { nanos: SATURATION_CHECK_NANOS })
            },
            None => now.plus(Duration { nanos: SATURATION_CHECK_NANOS }),
        }
    }

    /// What the saturation monitor does when it wakes up.
    pub fn monitor_woken(&mut self, now: Instant) -> (r: MonitorStep)
        ensures
            r == (if old(self).frozen(now) {
                MonitorStep::SleepAgain
            } else if old(self).deferred_full {
                MonitorStep::ProbeQueue
            } else {
                MonitorStep::CheckSlots
            }),
            *final(self) == (if old(self).frozen(now) {
                *old(self)
            } else {
                CompatState { deferred_full: false, ..*old(self) }
            }),
    {
        if self.freeze_active(now) {
            return MonitorStep::SleepAgain;
        }
        if self.deferred_full {
            self.deferred_full = false;
            return MonitorStep::ProbeQueue;
        }
        MonitorStep::CheckSlots
    }

    /// What the saturation monitor does once it knows whether the queue is
    /// alive: a dead one ends it, a live one makes it report.
    pub fn monitor_probed(&mut self, alive: bool, now: Instant) -> (r: MonitorVerdict)
        ensures
            r == (MonitorVerdict {
                notify: if alive {
                    old(self).notice(now)
                } else {
                    None
                },
                ends: !alive,
            }),
            *final(self) == (if alive {
                old(self).notified(now)
            } else {
                CompatState { monitor_active: false, ..*old(self) }
            }),
    {
        if !alive {
            self.monitor_active = false;
            return MonitorVerdict { notify: None, ends: true };
        }
        MonitorVerdict { notify: self.notify_queue_full(now), ends: false }
    }

    /// What the saturation monitor does once it knows whether a slot is
    /// free: a free one ends it, before the slot is given back.
    pub fn monitor_slots(&mut self, slot_free: bool, now: Instant) -> (r: MonitorVerdict)
        ensures
            r == (MonitorVerdict {
                notify: if slot_free {
                    None
                } else {
                    old(self).notice(now)
                },
                ends: slot_free,
            }),
            *final(self) == (if slot_free {
                CompatState { monitor_active: false, ..*old(self) }
            } else {
                old(self).notified(now)
            }),
    {
        if slot_free {
            self.monitor_active = false;
            return MonitorVerdict { notify: None, ends: true };
        }
        MonitorVerdict { notify: self.notify_queue_full(now), ends: false }
    }
}

// ---------- laws ----------

/// Two reports are always more than the delay apart.
pub proof fn law_reports_are_spaced(s: CompatState, first: Instant, second: Instant)
    requires
        s.notice(first) is Some,
        s.notified(first).notice(second) is Some,
    ensures
        second.nanos - first.nanos > QUEUE_FULL_DELAY_NANOS,
{
}

/// A freeze is never cut short, and lasts at least as long as was asked.
pub proof fn law_freeze_is_never_cut_short(
    s: CompatState,
    observed_at: Instant,
    duration: Duration,
    now: Instant,
)
    ensures
        s.frozen(now) ==> s.freeze(observed_at, duration).frozen(now),
        now.nanos < observed_at.plus(duration).nanos ==> s.freeze(observed_at, duration).frozen(
            now,
        ),
{
}

/// A full backlog is never reported during a freeze. It is kept instead, and
/// the saturation monitor runs until it has been taken up.
pub proof fn law_reports_wait_for_the_thaw(s: CompatState, now: Instant)
    requires
        s.frozen(now),
    ensures
        s.accepted_steps(true, now).notify is None,
        s.accepted_state(true, now).deferred_full,
        s.accepted_state(true, now).monitor_active,
        s.accepted_state(true, now).last_queue_full == s.last_queue_full,
{
}

} // verus!
