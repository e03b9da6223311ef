use vstd::prelude::*;

use crate::HiCutsError;

verus! {

/// The half-open range `[begin, end)` of field values.
#[derive(Debug, Clone, Copy, PartialEq, Eq, Structural)]
pub struct Interval {
    pub begin: u64,
    pub end: u64,
}

impl Interval {
    /// An interval is valid when it does not run backwards.
    pub open spec fn wf(self) -> bool {
        self.begin <= self.end
    }

    pub open spec fn spec_contains(self, v: u64) -> bool {
        self.begin <= v && v < self.end
    }

    pub open spec fn spec_overlaps(self, o: Interval) -> bool {
        self.begin < o.end && o.begin < self.end
    }

    pub open spec fn spec_width(self) -> int {
        self.end - self.begin
    }

    /// Builds `[begin, end)`, refusing a range with `begin > end`.
    pub fn new(begin: u64, end: u64) -> (r: Result<Interval, HiCutsError>)
        ensures
            begin <= end ==> r == Ok::<Interval, HiCutsError>(Interval { begin, end }),
            begin > end ==> r == Err::<Interval, HiCutsError>(HiCutsError::InvalidInterval),
    {
        if begin <= end {
            Ok(Interval { begin, end })
        } else {
            Err(HiCutsError::InvalidInterval)
        }
    }

    /// Whether the two ranges share at least one value.
    pub fn overlaps(&self, other: &Interval) -> (r: bool)
        ensures
            r == self.spec_overlaps(*other),
    {
        self.begin < other.end && other.begin < self.end
    }

    /// Whether `begin <= value < end`.
    pub fn contains(&self, value: u64) -> (r: bool)
        ensures
            r == self.spec_contains(value),
    {
        self.begin <= value && value < self.end
    }

    /// The number of values in the range.
    pub fn width(&self) -> (r: u64)
        requires
            self.wf(),
        ensures
            r == self.spec_width(),
    {
        self.end - self.begin
    }
}

} // verus!
