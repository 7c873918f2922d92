//! Ranges of ray parameters.
use vstd::prelude::*;
use core::ops::Range;

verus! {

/// The parameters at which an intersection counts: those strictly between
/// `range.start` and `range.end`. A range whose start is not below its end
/// holds nothing.
pub struct Interval {
    pub range: Range<i64>,
}

impl Interval {
    /// The lower bound, which is excluded.
    pub open spec fn lo(&self) -> int {
        self.range.start as int
    }

    /// The upper bound, which is excluded.
    pub open spec fn hi(&self) -> int {
        self.range.end as int
    }

    /// `t` lies strictly inside the interval.
    pub open spec fn holds(&self, t: int) -> bool {
        self.lo() < t < self.hi()
    }

    /// The interval over `range`.
    pub fn new(range: &Range<i64>) -> (r: Interval)
        ensures
            r.range.start == range.start,
            r.range.end == range.end,
    {
        Interval { range: range.start..range.end }
    }

    /// Whether `value` lies strictly inside the interval. No value lies
    /// inside an interval whose start is not below its end.
    pub fn surrounds(&self, value: &i64) -> (b: bool)
        ensures
            b == self.holds(*value as int),
    {
        self.range.start < *value && *value < self.range.end
    }
}

} // verus!
