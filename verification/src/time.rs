//! Spans of time and points in time.
use vstd::prelude::*;

verus! {

/// Nanoseconds in one second.
pub const NANOS_PER_SEC: u32 = 1_000_000_000;

/// A span of time: whole seconds and the nanoseconds of the last, partial one.
#[derive(Clone, Copy, PartialEq, Eq, Structural, Debug)]
pub struct TimeSpan {
    pub secs: u64,
    pub nanos: u32,
}

impl TimeSpan {
    /// The nanoseconds of the partial second are fewer than a second.
    pub open spec fn wf(self) -> bool {
        self.nanos < NANOS_PER_SEC
    }

    /// The span in nanoseconds.
    pub open spec fn total_nanos(self) -> int {
        self.secs * NANOS_PER_SEC + self.nanos
    }

    /// A span of whole milliseconds.
    pub fn from_millis(millis: u64) -> (span: TimeSpan)
        ensures
            span.wf(),
            span.total_nanos() == millis * 1_000_000,
    {
        TimeSpan { secs: millis / 1000, nanos: ((millis % 1000) as u32) * 1_000_000 }
    }

    /// A span of whole seconds.
    pub fn from_secs(secs: u64) -> (span: TimeSpan)
        ensures
            span.wf(),
            span.total_nanos() == secs * NANOS_PER_SEC,
    {
        TimeSpan { secs, nanos: 0 }
    }

    /// The whole milliseconds in the span.
    pub fn as_millis(&self) -> (millis: u128)
        requires
            self.wf(),
        ensures
            millis == self.total_nanos() / 1_000_000,
    {
        (self.secs as u128) * 1000 + ((self.nanos / 1_000_000) as u128)
    }

    /// The span in nanoseconds.
    pub fn as_nanos(&self) -> (nanos: u128)
        requires
            self.wf(),
        ensures
            nanos == self.total_nanos(),
            nanos < 0x1_0000_0000_0000_0000 * 1_000_000_000,
    {
        (self.secs as u128) * 1_000_000_000 + (self.nanos as u128)
    }

    /// Twice the span, or `None` where the seconds do not fit.
    pub fn checked_double(&self) -> (doubled: Option<TimeSpan>)
        requires
            self.wf(),
        ensures
            doubled is Some <==> 2 * self.total_nanos() < (u64::MAX + 1) * NANOS_PER_SEC,
            doubled matches Some(span) ==> span.wf() && span.total_nanos() == 2
                * self.total_nanos(),
    {
        let nanos: u32 = self.nanos * 2;
        let carry: u64 = if nanos >= NANOS_PER_SEC {
            1
        } else {
            0
        };
        let rest: u32 = if nanos >= NANOS_PER_SEC {
            nanos - NANOS_PER_SEC
        } else {
            nanos
        };
        let secs: u128 = (self.secs as u128) * 2 + (carry as u128);
        if secs > u64::MAX as u128 {
            None
        } else {
            Some(TimeSpan { secs: secs as u64, nanos: rest })
        }
    }

    /// Half the span, rounded down to the nanosecond.
    pub fn half(&self) -> (halved: TimeSpan)
        requires
            self.wf(),
        ensures
            halved.wf(),
            halved.total_nanos() == self.total_nanos() / 2,
    {
        let odd: u32 = if self.secs % 2 == 1 {
            NANOS_PER_SEC
        } else {
            0
        };
        TimeSpan { secs: self.secs / 2, nanos: (odd + self.nanos) / 2 }
    }

    /// Whether the span is shorter than `other`.
    pub fn shorter_than(&self, other: &TimeSpan) -> (shorter: bool)
        requires
            self.wf(),
            other.wf(),
        ensures
            shorter == (self.total_nanos() < other.total_nanos()),
    {
        self.secs < other.secs || (self.secs == other.secs && self.nanos < other.nanos)
    }
}

/// A point in time: nanoseconds after the Unix epoch.
#[derive(Clone, Copy, PartialEq, Eq, Structural, Debug)]
pub struct Timestamp {
    pub secs: i64,
    pub nanos: u32,
}

impl Timestamp {
    /// The nanoseconds of the partial second are fewer than a second.
    pub open spec fn wf(self) -> bool {
        self.nanos < NANOS_PER_SEC
    }

    /// Nanoseconds after the epoch.
    pub open spec fn total_nanos(self) -> int {
        self.secs * NANOS_PER_SEC + self.nanos
    }

    /// Nanoseconds after the epoch.
    pub fn as_nanos(&self) -> (nanos: i128)
        requires
            self.wf(),
        ensures
            nanos == self.total_nanos(),
            -0x8000_0000_0000_0000 * 1_000_000_000 <= nanos,
            nanos < 0x8000_0000_0000_0000 * 1_000_000_000,
    {
        (self.secs as i128) * 1_000_000_000 + (self.nanos as i128)
    }
}

} // verus!
