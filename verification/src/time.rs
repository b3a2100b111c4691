//! Points in time and spans of time, counted in nanoseconds.
//!
//! The scheduler and the outbox never read a clock: every operation takes the
//! current moment as an argument. A deadline past the last representable
//! moment is held at that moment.

use vstd::prelude::*;

verus! {

/// Nanoseconds in one second.
pub const NANOS_PER_SEC: u64 = 1_000_000_000;

/// Nanoseconds in one millisecond.
pub const NANOS_PER_MILLI: u64 = 1_000_000;

/// The largest `u64` value below or at `n`.
pub open spec fn clamp_u64(n: int) -> u64 {
    if n > u64::MAX {
        u64::MAX
    } else if n < 0 {
        0
    } else {
        n as u64
    }
}

/// A span of time.
#[derive(Clone, Copy, Debug, PartialEq, Eq, PartialOrd, Ord, Hash, Structural)]
pub struct Duration {
    pub nanos: u64,
}

/// A moment of a monotonic clock.
#[derive(Clone, Copy, Debug, PartialEq, Eq, PartialOrd, Ord, Hash, Structural)]
pub struct Instant {
    pub nanos: u64,
}

/// A moment of the wall clock, counted from the Unix epoch.
#[derive(Clone, Copy, Debug, PartialEq, Eq, PartialOrd, Ord, Hash, Structural)]
pub struct SystemTime {
    pub nanos: u64,
}

fn saturating_mul(a: u64, b: u64) -> (r: u64)
    ensures
        r == clamp_u64(a * b),
{
    proof {
        assert(0 <= a * b <= 0xffff_ffff_ffff_fffe_0000_0000_0000_0001) by (nonlinear_arith)
            requires
                0 <= a <= 0xffff_ffff_ffff_ffff,
                0 <= b <= 0xffff_ffff_ffff_ffff,
        ;
    }
    let product: u128 = (a as u128) * (b as u128);
    if product > u64::MAX as u128 {
        u64::MAX
    } else {
        product as u64
    }
}

impl Duration {
    /// The empty span.
    pub fn zero() -> (r: Self)
        ensures
            r.nanos == 0,
    {
        Duration { nanos: 0 }
    }

    pub fn from_nanos(nanos: u64) -> (r: Self)
        ensures
            r.nanos == nanos,
    {
        Duration { nanos }
    }

    /// A span of whole milliseconds, held at the longest representable span.
    pub fn from_millis(millis: u64) -> (r: Self)
        ensures
            r.nanos == clamp_u64(millis * NANOS_PER_MILLI),
    {
        Duration { nanos: saturating_mul(millis, NANOS_PER_MILLI) }
    }

    /// A span of whole seconds, held at the longest representable span.
    pub fn from_secs(secs: u64) -> (r: Self)
        ensures
            r.nanos == clamp_u64(secs * NANOS_PER_SEC),
    {
        Duration { nanos: saturating_mul(secs, NANOS_PER_SEC) }
    }

    pub fn is_zero(&self) -> (r: bool)
        ensures
            r == (self.nanos == 0),
    {
        self.nanos == 0
    }

    /// The span repeated `times` times, held at the longest span.
    pub fn saturating_mul(self, times: u64) -> (r: Self)
        ensures
            r.nanos == clamp_u64(self.nanos * times),
    {
        Duration { nanos: saturating_mul(self.nanos, times) }
    }
}

impl Instant {
    pub fn from_nanos(nanos: u64) -> (r: Self)
        ensures
            r.nanos == nanos,
    {
        Instant { nanos }
    }

    /// The moment `span` later.
    pub open spec fn spec_plus(self, span: Duration) -> Instant {
        Instant { nanos: clamp_u64(self.nanos + span.nanos) }
    }

    /// The moment `span` later.
    #[verifier::when_used_as_spec(spec_plus)]
    pub fn plus(self, span: Duration) -> (r: Self)
        ensures
            r == self.spec_plus(span),
    {
        Instant { nanos: self.nanos.saturating_add(span.nanos) }
    }

    /// The later of two moments.
    pub open spec fn spec_later(self, other: Instant) -> Instant {
        if other.nanos > self.nanos {
            other
        } else {
            self
        }
    }

    /// The later of two moments.
    #[verifier::when_used_as_spec(spec_later)]
    pub fn later(self, other: Instant) -> (r: Self)
        ensures
            r == self.spec_later(other),
    {
        if other.nanos > self.nanos {
            other
        } else {
            self
        }
    }

    /// The span since `earlier`; empty when `earlier` has not come yet.
    pub fn saturating_since(self, earlier: Instant) -> (r: Duration)
        ensures
            r.nanos == clamp_u64(self.nanos - earlier.nanos),
    {
        Duration { nanos: self.nanos.saturating_sub(earlier.nanos) }
    }
}

impl SystemTime {
    /// The Unix epoch.
    pub fn unix_epoch() -> (r: Self)
        ensures
            r.nanos == 0,
    {
        SystemTime { nanos: 0 }
    }

    pub fn from_nanos(nanos: u64) -> (r: Self)
        ensures
            r.nanos == nanos,
    {
        SystemTime { nanos }
    }

    /// The moment `span` later.
    pub open spec fn spec_plus(self, span: Duration) -> SystemTime {
        SystemTime { nanos: clamp_u64(self.nanos + span.nanos) }
    }

    /// The moment `span` later.
    #[verifier::when_used_as_spec(spec_plus)]
    pub fn plus(self, span: Duration) -> (r: Self)
        ensures
            r == self.spec_plus(span),
    {
        SystemTime { nanos: self.nanos.saturating_add(span.nanos) }
    }

    /// The moment `span` later, or `self` if it cannot be represented.
    pub open spec fn spec_plus_or_self(self, span: Duration) -> SystemTime {
        if self.nanos + span.nanos > u64::MAX {
            self
        } else {
            SystemTime { nanos: (self.nanos + span.nanos) as u64 }
        }
    }

    /// The moment `span` later, or `self` if it cannot be represented.
    #[verifier::when_used_as_spec(spec_plus_or_self)]
    pub fn plus_or_self(self, span: Duration) -> (r: Self)
        ensures
            r == self.spec_plus_or_self(span),
    {
        match self.nanos.checked_add(span.nanos) {
            Some(nanos) => SystemTime { nanos },
            None => self,
        }
    }
}

/// Moments and spans add up in nanoseconds. A moment past the last one there
/// is, is the last one, or the one before the span where that is asked for.
pub proof fn law_moments_and_spans_add_up(
    at: Instant,
    other: Instant,
    wall: SystemTime,
    span: Duration,
)
    ensures
        at.nanos + span.nanos <= 0xffff_ffff_ffff_ffff ==> at.plus(span).nanos == at.nanos
            + span.nanos,
        at.nanos + span.nanos > 0xffff_ffff_ffff_ffff ==> at.plus(span).nanos
            == 0xffff_ffff_ffff_ffff,
        wall.nanos + span.nanos <= 0xffff_ffff_ffff_ffff ==> wall.plus(span).nanos == wall.nanos
            + span.nanos && wall.plus_or_self(span).nanos == wall.nanos + span.nanos,
        wall.nanos + span.nanos > 0xffff_ffff_ffff_ffff ==> wall.plus(span).nanos
            == 0xffff_ffff_ffff_ffff && wall.plus_or_self(span) == wall,
        at.later(other).nanos >= at.nanos,
        at.later(other).nanos >= other.nanos,
        at.later(other) == at || at.later(other) == other,
{
}

/// A second has a thousand milliseconds, and a millisecond a million
/// nanoseconds. A product past the longest span is the longest span.
pub proof fn law_seconds_are_a_thousand_milliseconds(n: u64)
    ensures
        n * NANOS_PER_SEC == n * 1_000_000_000,
        n * NANOS_PER_MILLI == n * 1_000_000,
        n * NANOS_PER_SEC == 1000 * (n * NANOS_PER_MILLI),
        n * 1_000_000_000 <= 0xffff_ffff_ffff_ffff ==> clamp_u64(n * NANOS_PER_SEC) == n
            * 1_000_000_000,
        n * 1_000_000_000 > 0xffff_ffff_ffff_ffff ==> clamp_u64(n * NANOS_PER_SEC)
            == 0xffff_ffff_ffff_ffff,
{
}

} // verus!
