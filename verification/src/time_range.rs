use vstd::prelude::*;

verus! {

/// A half-open span of 15-minute slots within one day: slots `start..end`.
///
/// Slot 1 is the first usable slot of a day and slot 48 is the last one.
#[derive(Clone, Copy, PartialEq, Eq, Structural, Debug)]
pub struct TimeRange {
    pub start: u8,
    pub end: u8,
}

impl TimeRange {
    /// The two spans share no slot (half-open reading).
    pub open spec fn disjoint_from(self, other: TimeRange) -> bool {
        self.end <= other.start || other.end <= self.start
    }

    /// The conservative conflict test used when a surgeon is checked against a
    /// tentative placement: the spans must be separated strictly, so spans that
    /// merely touch are still treated as a conflict.
    pub open spec fn clear_of(self, other: TimeRange) -> bool {
        self.end < other.start || self.start > other.end
    }
}

} // verus!
