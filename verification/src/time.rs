//! Time as the cache sees it: instants measured in nanoseconds, durations,
//! clocks, and a small mutable instant cell used by layers that keep a
//! per-entry timestamp.
use vstd::prelude::*;

use std::time::{SystemTime, UNIX_EPOCH};

verus! {

/// A point in time, measured in nanoseconds from an arbitrary fixed origin.
#[derive(Debug, Clone, Copy, PartialEq, Eq, Structural)]
pub struct Instant {
    pub nanos: u64,
}

/// A span of time in nanoseconds.
#[derive(Debug, Clone, Copy, PartialEq, Eq, Structural)]
pub struct Duration {
    pub nanos: u64,
}

impl Instant {
    pub fn new(nanos: u64) -> (r: Instant)
        ensures
            r.nanos == nanos,
    {
        Instant { nanos }
    }

    /// The duration since `earlier`, or `None` if `earlier` is later than
    /// `self`.
    pub fn checked_duration_since(&self, earlier: Instant) -> (r: Option<Duration>)
        ensures
            earlier.nanos <= self.nanos ==> r == Some(
                Duration { nanos: (self.nanos - earlier.nanos) as u64 },
            ),
            earlier.nanos > self.nanos ==> r is None,
    {
        if earlier.nanos <= self.nanos {
            Some(Duration { nanos: self.nanos - earlier.nanos })
        } else {
            None
        }
    }

    /// The duration since `earlier`, zero if `earlier` is later than `self`.
    pub fn saturating_duration_since(&self, earlier: Instant) -> (r: Duration)
        ensures
            r.nanos == if earlier.nanos <= self.nanos {
                (self.nanos - earlier.nanos) as u64
            } else {
                0u64
            },
    {
        if earlier.nanos <= self.nanos {
            Duration { nanos: self.nanos - earlier.nanos }
        } else {
            Duration { nanos: 0 }
        }
    }

    /// This instant moved forward by `d`, saturating at the largest
    /// representable instant.
    pub fn saturating_add(&self, d: Duration) -> (r: Instant)
        ensures
            r.nanos == if self.nanos + d.nanos <= u64::MAX {
                (self.nanos + d.nanos) as u64
            } else {
                u64::MAX
            },
    {
        if self.nanos <= u64::MAX - d.nanos {
            Instant { nanos: self.nanos + d.nanos }
        } else {
            Instant { nanos: u64::MAX }
        }
    }

    /// Whether `self` is at or before `other`.
    pub fn is_at_or_before(&self, other: Instant) -> (r: bool)
        ensures
            r == (self.nanos <= other.nanos),
    {
        self.nanos <= other.nanos
    }
}

impl Duration {
    pub fn from_nanos(nanos: u64) -> (r: Duration)
        ensures
            r.nanos == nanos,
    {
        Duration { nanos }
    }

    pub fn from_millis(millis: u64) -> (r: Duration)
        requires
            millis * 1_000_000 <= u64::MAX,
        ensures
            r.nanos == millis * 1_000_000,
    {
        Duration { nanos: millis * 1_000_000 }
    }

    pub fn is_at_least(&self, other: Duration) -> (r: bool)
        ensures
            r == (self.nanos >= other.nanos),
    {
        self.nanos >= other.nanos
    }
}

/// The offset of `instant` from `zero`, saturating at zero for instants
/// before the origin.
pub fn instant_to_offset(instant: Instant, zero: Instant) -> (r: u64)
    ensures
        r == if zero.nanos <= instant.nanos {
            (instant.nanos - zero.nanos) as u64
        } else {
            0u64
        },
{
    if zero.nanos <= instant.nanos {
        instant.nanos - zero.nanos
    } else {
        0
    }
}

/// The instant at `offset` nanoseconds past `zero`, saturating at the largest
/// representable instant.
pub fn offset_to_instant(offset: u64, zero: Instant) -> (r: Instant)
    ensures
        r.nanos == if zero.nanos + offset <= u64::MAX {
            (zero.nanos + offset) as u64
        } else {
            u64::MAX
        },
{
    zero.saturating_add(Duration { nanos: offset })
}

/// A source of the current time. The cache never reads a clock behind the
/// caller's back: stores take a clock and read it once per operation, and
/// every operation also exists in a form that takes the instant directly.
pub trait Clock {
    fn now(&self) -> Instant;
}

/// The process clock.
#[derive(Debug, Clone, Copy, Default)]
pub struct DefaultClock;

/// Relies on std::time::SystemTime::now for the current wall-clock time;
/// nothing is assumed of the value read.
#[verifier::external_body]
fn system_now() -> Instant {
    let nanos = match SystemTime::now().duration_since(UNIX_EPOCH) {
        Ok(d) => d.as_nanos() as u64,
        Err(_) => 0,
    };
    Instant { nanos }
}

impl Clock for DefaultClock {
    fn now(&self) -> Instant {
        system_now()
    }
}

/// A mutable cell holding an [`Instant`]. Layers that keep a per-entry
/// timestamp own such cells inside their shard state; all mutation happens
/// under the shard's exclusive borrow.
#[derive(Debug, Clone, Copy, PartialEq, Eq, Structural)]
pub struct AtomicInstant {
    pub instant: Instant,
}

impl AtomicInstant {
    pub fn new(instant: Instant) -> (r: AtomicInstant)
        ensures
            r.instant == instant,
    {
        AtomicInstant { instant }
    }

    pub fn load(&self) -> (r: Instant)
        ensures
            r == self.instant,
    {
        self.instant
    }

    pub fn store(&mut self, value: Instant)
        ensures
            final(self).instant == value,
    {
        self.instant = value;
    }

    /// Stores `value` and returns the previous instant.
    pub fn swap(&mut self, value: Instant) -> (r: Instant)
        ensures
            final(self).instant == value,
            r == old(self).instant,
    {
        let previous = self.instant;
        self.instant = value;
        previous
    }
}

/// Values that carry their own touch timestamp.
pub trait TouchedTime {
    fn last_touched(&self) -> Instant;
}

/// Values that record when they were written.
pub trait WrittenTime {
    fn written_time(&self) -> Instant;
}

/// Values that may carry their own expiry deadline.
pub trait ExpiryTime {
    fn expiry_time(&self) -> Option<Instant>;
}

} // verus!
