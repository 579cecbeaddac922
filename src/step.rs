//! Step policies: which signed differences between neighbouring values of a
//! report count as a valid step for a direction.
use vstd::prelude::*;

verus! {

/// `lo <= b - a <= hi`: the step from `a` to `b` lies in the inclusive range.
pub open spec fn permits(lo: int, hi: int, a: int, b: int) -> bool {
    lo <= b - a && b - a <= hi
}

/// An inclusive range of signed steps.
#[derive(Clone, Copy, Debug, PartialEq, Eq, Structural)]
pub struct StepRange {
    pub lo: isize,
    pub hi: isize,
}

impl StepRange {
    /// Whether the step from `a` to `b` lies in this range.
    pub open spec fn permits(self, a: isize, b: isize) -> bool {
        permits(self.lo as int, self.hi as int, a as int, b as int)
    }

    /// Tests whether `b - a` lies in the range; the difference is taken in a
    /// wider type, so no pair of values can overflow it.
    pub fn contains_step(&self, a: isize, b: isize) -> (r: bool)
        ensures
            r == self.permits(a, b),
    {
        let d: i128 = b as i128 - a as i128;
        self.lo as i128 <= d && d <= self.hi as i128
    }
}

/// Steps of 1 to 3 upwards for the increasing direction, of 1 to 3
/// downwards for the decreasing one.
pub open spec fn canonical_policy() -> StepPolicy {
    StepPolicy {
        increasing: StepRange { lo: 1, hi: 3 },
        decreasing: StepRange { lo: (-3) as isize, hi: (-1) as isize },
    }
}

/// One step range per direction.
#[derive(Clone, Copy, Debug, PartialEq, Eq, Structural)]
pub struct StepPolicy {
    pub increasing: StepRange,
    pub decreasing: StepRange,
}

impl StepPolicy {
    /// Steps of 1 to 3 upwards, or of 1 to 3 downwards.
    pub fn canonical() -> (p: StepPolicy)
        ensures
            p == canonical_policy(),
    {
        StepPolicy { increasing: StepRange { lo: 1, hi: 3 }, decreasing: StepRange { lo: -3, hi: -1 } }
    }

    /// The policy with the two directions' ranges exchanged.
    pub open spec fn swapped(self) -> StepPolicy {
        StepPolicy { increasing: self.decreasing, decreasing: self.increasing }
    }

    /// Each direction's range is the negation of the other's.
    pub open spec fn is_symmetric(self) -> bool {
        self.decreasing.lo == -self.increasing.hi && self.decreasing.hi == -self.increasing.lo
    }
}

} // verus!
