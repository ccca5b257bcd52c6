use vstd::prelude::*;

verus! {

/// A closed interval of timestamps, in milliseconds.
#[derive(Debug, Clone, Copy, PartialEq, Eq, Structural)]
pub struct TimeRange {
    pub start: u64,
    pub end: u64,
}

impl TimeRange {
    /// Whether `ts` lies in the range, both ends included.
    pub open spec fn spec_contains(self, ts: u64) -> bool {
        self.start <= ts <= self.end
    }

    /// The length of the range; an inverted range has length zero.
    pub open spec fn spec_duration(self) -> nat {
        if self.end >= self.start {
            (self.end - self.start) as nat
        } else {
            0
        }
    }

    pub fn new(start: u64, end: u64) -> (r: TimeRange)
        ensures
            r.start == start,
            r.end == end,
    {
        TimeRange { start, end }
    }

    pub fn contains(&self, ts: u64) -> (b: bool)
        ensures
            b == self.spec_contains(ts),
    {
        ts >= self.start && ts <= self.end
    }

    /// `end - start`, saturating at zero.
    pub fn duration_ms(&self) -> (d: u64)
        ensures
            d == self.spec_duration(),
    {
        if self.end >= self.start {
            self.end - self.start
        } else {
            0
        }
    }
}

} // verus!
