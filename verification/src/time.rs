//! Clock readings and spans of time as counts of nanoseconds.
//!
//! The verified logic never reads a monotonic clock: a caller hands it each
//! [`Instant`]. Only the wall clock is read here, for sender reports.

use vstd::prelude::*;

verus! {

/// Seconds from the NTP epoch (1900-01-01) to the Unix epoch (1970-01-01).
pub const NTP_EPOCH_OFFSET: u64 = 2_208_988_800;

/// A span of time.
#[derive(Debug, Clone, Copy, PartialEq, Eq, PartialOrd, Ord, Structural)]
pub struct Duration {
    pub nanos: u128,
}

/// A reading of a monotonic clock: nanoseconds since an origin of the caller's choice.
#[derive(Debug, Clone, Copy, PartialEq, Eq, PartialOrd, Ord, Structural)]
pub struct Instant {
    pub nanos: u128,
}

/// A reading of the wall clock: the time since the Unix epoch, zero for any earlier time.
#[derive(Debug, Clone, Copy, PartialEq, Eq, Structural)]
pub struct SystemTime {
    pub since_unix: Duration,
}

/// The sum, or the largest value where the sum does not fit.
pub open spec fn sum_to_limit(a: u128, b: u128) -> u128 {
    if a + b > u128::MAX {
        u128::MAX
    } else {
        (a + b) as u128
    }
}

/// The difference, or zero where `b` is the larger.
pub open spec fn excess(a: u128, b: u128) -> u128 {
    if a >= b {
        (a - b) as u128
    } else {
        0
    }
}

impl Duration {
    pub fn from_nanos(nanos: u128) -> (d: Duration)
        ensures
            d.nanos == nanos,
    {
        Duration { nanos }
    }

    pub fn from_micros(micros: u64) -> (d: Duration)
        ensures
            d.nanos == micros * 1_000,
    {
        Duration { nanos: micros as u128 * 1_000 }
    }

    pub fn from_millis(millis: u64) -> (d: Duration)
        ensures
            d.nanos == millis * 1_000_000,
    {
        Duration { nanos: millis as u128 * 1_000_000 }
    }

    pub fn from_secs(secs: u64) -> (d: Duration)
        ensures
            d.nanos == secs * 1_000_000_000,
    {
        Duration { nanos: secs as u128 * 1_000_000_000 }
    }

    /// Whole microseconds in the span.
    pub fn as_micros(self) -> (micros: u128)
        ensures
            micros == self.nanos / 1_000,
    {
        self.nanos / 1_000
    }

    /// The span less `other`, zero where `other` is longer.
    pub fn saturating_sub(self, other: Duration) -> (d: Duration)
        ensures
            d.nanos == excess(self.nanos, other.nanos),
    {
        Duration { nanos: self.nanos.saturating_sub(other.nanos) }
    }

    /// The longer of the two spans.
    pub fn at_least(self, other: Duration) -> (d: Duration)
        ensures
            d == (if self.nanos >= other.nanos {
                self
            } else {
                other
            }),
    {
        if self.nanos >= other.nanos {
            self
        } else {
            other
        }
    }

    /// Half the span, rounded down to a nanosecond.
    pub fn half(self) -> (d: Duration)
        ensures
            d.nanos == self.nanos / 2,
    {
        Duration { nanos: self.nanos / 2 }
    }

    /// Ten times the span, at most the longest span there is.
    pub fn times_ten(self) -> (d: Duration)
        ensures
            d.nanos == (if self.nanos * 10 > u128::MAX {
                u128::MAX as int
            } else {
                self.nanos * 10
            }),
    {
        match self.nanos.checked_mul(10) {
            Some(nanos) => Duration { nanos },
            None => Duration { nanos: u128::MAX },
        }
    }
}

impl Instant {
    pub fn from_nanos(nanos: u128) -> (t: Instant)
        ensures
            t.nanos == nanos,
    {
        Instant { nanos }
    }

    /// The instant `span` later, at most the last instant there is.
    pub open spec fn spec_after(self, span: Duration) -> Instant {
        Instant { nanos: sum_to_limit(self.nanos, span.nanos) }
    }

    /// The instant `span` later, at most the last instant there is.
    #[verifier::when_used_as_spec(spec_after)]
    pub fn after(self, span: Duration) -> (t: Instant)
        ensures
            t == self.spec_after(span),
    {
        Instant { nanos: self.nanos.saturating_add(span.nanos) }
    }

    /// The time from `earlier` to `self`, zero where `earlier` is later.
    pub open spec fn spec_duration_since(self, earlier: Instant) -> Duration {
        Duration { nanos: excess(self.nanos, earlier.nanos) }
    }

    /// The time from `earlier` to `self`, zero where `earlier` is later.
    #[verifier::when_used_as_spec(spec_duration_since)]
    pub fn duration_since(self, earlier: Instant) -> (d: Duration)
        ensures
            d == self.spec_duration_since(earlier),
    {
        Duration { nanos: self.nanos.saturating_sub(earlier.nanos) }
    }
}

/// `SystemTime::elapsed` on `UNIX_EPOCH`: the wall clock's distance from the
/// Unix epoch in nanoseconds, zero when the clock stands before it. What it
/// returns depends on the clock alone.
#[verifier::external_body]
fn wall_clock_nanos() -> (nanos: u128) {
    std::time::UNIX_EPOCH.elapsed().unwrap_or_default().as_nanos()
}

impl SystemTime {
    pub fn from_unix(since_unix: Duration) -> (t: SystemTime)
        ensures
            t.since_unix == since_unix,
    {
        SystemTime { since_unix }
    }

    /// The wall clock's current reading.
    pub fn now() -> SystemTime {
        SystemTime { since_unix: Duration { nanos: wall_clock_nanos() } }
    }
}

/// A span later is that span away; what is later in time is no time ago.
pub proof fn law_later_is_that_much_later(t: Instant, span: Duration, other: Instant)
    requires
        t.nanos + span.nanos <= u128::MAX,
    ensures
        t.after(span).nanos == t.nanos + span.nanos,
        t.after(span).duration_since(t) == span,
        other.nanos <= t.nanos ==> t.duration_since(other).nanos + other.nanos == t.nanos,
        other.nanos > t.nanos ==> t.duration_since(other).nanos == 0,
{
}

/// Where a sum of times has no place, it is the last instant there is.
pub proof fn law_time_saturates(t: Instant, span: Duration)
    requires
        t.nanos + span.nanos > u128::MAX,
    ensures
        t.after(span).nanos == u128::MAX,
{
}

} // verus!
