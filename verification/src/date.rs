//! Moments in the local time zone.

use vstd::prelude::*;

verus! {

/// A moment in the local time zone: seconds since the Unix epoch and the
/// nanoseconds within that second, with the local calendar date of that
/// moment. Moments are ordered by second, then by nanosecond.
#[derive(Clone, Copy, Debug, PartialEq, Eq, Structural)]
pub struct LocalDateTime {
    pub timestamp: i64,
    pub nanosecond: u32,
    pub year: i32,
    pub month: u32,
    pub day: u32,
}

impl LocalDateTime {
    /// This moment comes before `other`.
    pub open spec fn precedes(self, other: LocalDateTime) -> bool {
        self.timestamp < other.timestamp || (self.timestamp == other.timestamp && self.nanosecond
            < other.nanosecond)
    }

    /// Whether this moment comes before `other`.
    pub fn is_before(&self, other: &LocalDateTime) -> (r: bool)
        ensures
            r == self.precedes(*other),
    {
        self.timestamp < other.timestamp || (self.timestamp == other.timestamp && self.nanosecond
            < other.nanosecond)
    }
}

} // verus!
