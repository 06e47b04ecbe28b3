//! Spans of time and points in time, in whole nanoseconds.

use vstd::prelude::*;

verus! {

/// A span of time: whole seconds, and the nanoseconds of the last one.
#[derive(Clone, Copy, Debug, PartialEq, Eq, Structural)]
pub struct Duration {
    pub secs: u64,
    pub nanos: u32,
}

/// A point in time: the nanoseconds since a start that all points share.
#[derive(Clone, Copy, Debug, PartialEq, Eq, Structural)]
pub struct Instant {
    pub nanos: u128,
}

impl Duration {
    /// The length of the span in nanoseconds.
    pub open spec fn total(self) -> nat {
        self.secs as nat * 1_000_000_000 + self.nanos as nat
    }

    /// A span of `secs` seconds.
    pub fn from_secs(secs: u64) -> (d: Duration)
        ensures
            d == (Duration { secs, nanos: 0 }),
    {
        Duration { secs, nanos: 0 }
    }

    /// The whole seconds of the span.
    pub fn as_secs(&self) -> (secs: u64)
        ensures
            secs == self.secs,
    {
        self.secs
    }
}

/// Whether `span` has passed at `now` since `since`. No time passes backwards: where `now` is the
/// earlier point, only the empty span has passed.
pub open spec fn passed(now: Instant, since: Instant, span: Duration) -> bool {
    since.nanos + span.total() <= now.nanos || span.total() == 0
}

impl Instant {
    /// Whether `span` has passed since `since`.
    pub fn has_passed(self, since: Instant, span: Duration) -> (b: bool)
        ensures
            b == passed(self, since, span),
    {
        let total: u128 = span.secs as u128 * 1_000_000_000 + span.nanos as u128;
        let gone: u128 = if self.nanos >= since.nanos { self.nanos - since.nanos } else { 0 };
        gone >= total
    }
}

} // verus!
