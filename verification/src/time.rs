//! Time spans, points in time and the clocks that give them.

use vstd::prelude::*;

verus! {

/// A span of time with nanosecond resolution.
#[derive(Clone, Copy, Debug, PartialEq, Eq, Structural)]
pub struct Duration {
    pub nanos: u64,
}

/// `n` limited to what 64 bits hold.
pub open spec fn capped(n: int) -> int {
    if n > u64::MAX {
        u64::MAX as int
    } else {
        n
    }
}

/// `a` times `b`, limited to what 64 bits hold.
pub fn mul_capped(a: u64, b: u64) -> (r: u64)
    ensures
        r == capped(a * b),
{
    match a.checked_mul(b) {
        Some(n) => n,
        None => u64::MAX,
    }
}

impl Duration {
    pub fn from_nanos(nanos: u64) -> (r: Duration)
        ensures
            r.nanos == nanos,
    {
        Duration { nanos }
    }

    /// The span of `ms` milliseconds, the longest span where that is too much.
    pub fn from_millis(ms: u64) -> (r: Duration)
        ensures
            r.nanos == capped(ms * 1_000_000),
    {
        Duration { nanos: mul_capped(ms, 1_000_000) }
    }

    /// The span of `s` seconds, the longest span where that is too much.
    pub fn from_secs(s: u64) -> (r: Duration)
        ensures
            r.nanos == capped(s * 1_000_000_000),
    {
        Duration { nanos: mul_capped(s, 1_000_000_000) }
    }

    pub fn as_nanos(&self) -> (r: u64)
        ensures
            r == self.nanos,
    {
        self.nanos
    }

    pub fn as_micros(&self) -> (r: u64)
        ensures
            r == self.nanos / 1_000,
    {
        self.nanos / 1_000
    }

    pub fn as_millis(&self) -> (r: u64)
        ensures
            r == self.nanos / 1_000_000,
    {
        self.nanos / 1_000_000
    }

    pub fn as_secs(&self) -> (r: u64)
        ensures
            r == self.nanos / 1_000_000_000,
    {
        self.nanos / 1_000_000_000
    }

    /// `n` times this span, the longest span where that is too much.
    pub fn saturating_mul(&self, n: u64) -> (r: Duration)
        ensures
            r.nanos == capped(self.nanos * n),
    {
        Duration { nanos: mul_capped(self.nanos, n) }
    }

    /// The shorter of the two.
    pub fn min(self, other: Duration) -> (r: Duration)
        ensures
            r == self.spec_min(other),
    {
        if self.nanos <= other.nanos {
            self
        } else {
            other
        }
    }

    pub open spec fn spec_min(self, other: Duration) -> Duration {
        if self.nanos <= other.nanos {
            self
        } else {
            other
        }
    }

    /// The longer of the two.
    pub fn max(self, other: Duration) -> (r: Duration)
        ensures
            r == self.spec_max(other),
    {
        if self.nanos >= other.nanos {
            self
        } else {
            other
        }
    }

    pub open spec fn spec_max(self, other: Duration) -> Duration {
        if self.nanos >= other.nanos {
            self
        } else {
            other
        }
    }
}

/// A point on the time line of a [`Clock`].
#[derive(Clone, Copy, Debug, PartialEq, Eq, Structural)]
pub struct Instant {
    pub nanos: u64,
}

impl Instant {
    /// How long after `earlier` this is; nothing where it is not after it.
    pub open spec fn spec_since(self, earlier: Instant) -> Duration {
        if self.nanos >= earlier.nanos {
            Duration { nanos: (self.nanos - earlier.nanos) as u64 }
        } else {
            Duration { nanos: 0 }
        }
    }

    /// How long after `earlier` this is; nothing where it is not after it.
    pub fn duration_since(&self, earlier: Instant) -> (r: Duration)
        ensures
            r == self.spec_since(earlier),
    {
        Duration { nanos: self.nanos.saturating_sub(earlier.nanos) }
    }

    /// The point `d` later, the last one where that is past the end.
    pub fn plus(&self, d: Duration) -> (r: Instant)
        ensures
            r.nanos == capped(self.nanos + d.nanos),
    {
        Instant { nanos: self.nanos.saturating_add(d.nanos) }
    }
}

/// `std::time::Instant`: a reading of the system's monotonic clock.
#[verifier::external_type_specification]
#[verifier::external_body]
pub struct ExStdInstant(std::time::Instant);

/// Where a clock starts to count: an hour after zero, so that there are instants
/// before the present one.
pub const CLOCK_ORIGIN_NANOS: u64 = 3_600_000_000_000;

/// A monotonic clock; instants count from an hour before it was started.
#[derive(Clone, Copy)]
pub struct Clock {
    origin: std::time::Instant,
}

impl Clock {
    /// Starts a clock: `std::time::Instant::now`.
    pub fn start() -> (r: Clock) {
        Clock { origin: monotonic() }
    }

    /// The present on this clock.
    pub fn now(&self) -> (r: Instant)
        ensures
            r.nanos >= CLOCK_ORIGIN_NANOS,
    {
        Instant { nanos: nanos_since(self.origin).saturating_add(CLOCK_ORIGIN_NANOS) }
    }
}

/// `std::time::Instant::now`. Nothing is claimed of the reading.
#[verifier::external_body]
fn monotonic() -> (r: std::time::Instant) {
    std::time::Instant::now()
}

/// `std::time::Instant::elapsed` in nanoseconds. Nothing is claimed of the
/// reading.
#[verifier::external_body]
fn nanos_since(origin: std::time::Instant) -> (r: u64) {
    origin.elapsed().as_nanos() as u64
}

/// Milliseconds since the Unix epoch by `std::time::SystemTime::now`, zero
/// before it. Nothing is claimed of the reading.
#[verifier::external_body]
fn system_millis() -> (r: u64) {
    std::time::SystemTime::now().duration_since(std::time::UNIX_EPOCH).unwrap_or_default().as_millis() as u64
}

/// Milliseconds since the Unix epoch.
pub fn unix_millis() -> (r: u64) {
    system_millis()
}

/// Seconds since the Unix epoch.
pub fn unix_secs() -> (r: u64)
    ensures
        r <= u64::MAX / 1000,
{
    system_millis() / 1000
}

} // verus!
