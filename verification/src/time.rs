//! Spans and points of monotonic time, counted in nanoseconds.
use vstd::prelude::*;

verus! {

pub const NANOS_PER_SEC: u128 = 1_000_000_000;

pub const NANOS_PER_MILLI: u128 = 1_000_000;

/// A span of time.
#[derive(Debug, Clone, Copy, PartialEq, Eq, Structural)]
pub struct Duration {
    pub nanos: u128,
}

impl View for Duration {
    type V = nat;

    open spec fn view(&self) -> nat {
        self.nanos as nat
    }
}

impl Duration {
    pub fn from_secs(secs: u64) -> (d: Self)
        ensures
            d@ == secs * NANOS_PER_SEC,
    {
        Duration { nanos: secs as u128 * NANOS_PER_SEC }
    }

    pub fn from_millis(millis: u64) -> (d: Self)
        ensures
            d@ == millis * NANOS_PER_MILLI,
    {
        Duration { nanos: millis as u128 * NANOS_PER_MILLI }
    }

    /// Whole milliseconds in the span.
    pub fn as_millis(&self) -> (ms: u128)
        ensures
            ms == self@ / NANOS_PER_MILLI as nat,
    {
        self.nanos / NANOS_PER_MILLI
    }

    pub fn checked_add(self, other: Duration) -> (r: Option<Duration>)
        ensures
            r is Some <==> self@ + other@ <= u128::MAX,
            r matches Some(d) ==> d@ == self@ + other@,
    {
        match self.nanos.checked_add(other.nanos) {
            Some(nanos) => Some(Duration { nanos }),
            None => None,
        }
    }

    pub fn checked_mul(self, factor: u32) -> (r: Option<Duration>)
        ensures
            r is Some <==> self@ * factor <= u128::MAX,
            r matches Some(d) ==> d@ == self@ * factor,
    {
        match self.nanos.checked_mul(factor as u128) {
            Some(nanos) => Some(Duration { nanos }),
            None => None,
        }
    }

    pub fn min(self, other: Duration) -> (d: Duration)
        ensures
            d@ == if self@ <= other@ { self@ } else { other@ },
    {
        if self.nanos <= other.nanos {
            self
        } else {
            other
        }
    }
}

/// A point in time, counted from an origin no later than any point in use.
#[derive(Debug, Clone, Copy, PartialEq, Eq, Structural)]
pub struct Instant {
    pub nanos: u128,
}

impl View for Instant {
    type V = nat;

    open spec fn view(&self) -> nat {
        self.nanos as nat
    }
}

/// The span from `earlier` to `later`, or nothing where `later` comes first.
pub open spec fn since(later: Instant, earlier: Instant) -> nat {
    if later@ >= earlier@ {
        (later@ - earlier@) as nat
    } else {
        0
    }
}

impl Instant {
    pub fn saturating_duration_since(&self, earlier: Instant) -> (d: Duration)
        ensures
            d@ == since(*self, earlier),
    {
        if self.nanos >= earlier.nanos {
            Duration { nanos: self.nanos - earlier.nanos }
        } else {
            Duration { nanos: 0 }
        }
    }

    pub fn checked_sub(&self, span: Duration) -> (r: Option<Instant>)
        ensures
            r is Some <==> span@ <= self@,
            r matches Some(t) ==> t@ == self@ - span@,
    {
        if span.nanos <= self.nanos {
            Some(Instant { nanos: self.nanos - span.nanos })
        } else {
            None
        }
    }

    pub fn checked_add(&self, span: Duration) -> (r: Option<Instant>)
        ensures
            r is Some <==> self@ + span@ <= u128::MAX,
            r matches Some(t) ==> t@ == self@ + span@,
    {
        match self.nanos.checked_add(span.nanos) {
            Some(nanos) => Some(Instant { nanos }),
            None => None,
        }
    }
}

/// A second has a thousand milliseconds, and a millisecond a million nanoseconds.
pub proof fn spans_count_nanoseconds(millis: u64, secs: u64)
    ensures
        millis == 1_000 * secs ==> millis * NANOS_PER_MILLI == secs * NANOS_PER_SEC,
        millis * NANOS_PER_MILLI == 1_000_000 * millis,
        (1_000_000 * millis) / (NANOS_PER_MILLI as int) == millis,
{
}

} // verus!
