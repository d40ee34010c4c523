use vstd::prelude::*;

verus! {

/// Ceiling bounded image co-ordinate.
///
/// An image co-ordinate, e.g. x, together with the largest value it may take.
/// Stepping away from it never leaves `0..=max_i` and never overflows.
#[derive(Clone, Copy, Debug)]
pub struct Bounded {
    pub i: u32,
    pub max_i: u32,
}

/// The smaller of `a` and `b`.
pub open spec fn min_int(a: int, b: int) -> int {
    if a <= b { a } else { b }
}

/// The larger of `a` and `b`.
pub open spec fn max_int(a: int, b: int) -> int {
    if a >= b { a } else { b }
}

impl Bounded {
    /// The co-ordinate lies at or below its ceiling.
    pub open spec fn wf(self) -> bool {
        self.i <= self.max_i
    }

    /// The co-ordinate `i` under the ceiling `max_i`; an `i` above the ceiling
    /// is pulled down onto it.
    pub fn new(i: u32, max_i: u32) -> (b: Bounded)
        ensures
            b.max_i == max_i,
            b.i == min_int(i as int, max_i as int),
            b.wf(),
    {
        if i <= max_i {
            Bounded { i: i, max_i: max_i }
        } else {
            Bounded { i: max_i, max_i: max_i }
        }
    }

    /// The co-ordinate `other` steps below, stopping at zero.
    pub fn sub(self, other: u32) -> (r: u32)
        ensures
            r == max_int(self.i - other, 0),
    {
        if other <= self.i {
            self.i - other
        } else {
            0
        }
    }

    /// The co-ordinate `other` steps above, stopping at the ceiling.
    pub fn add(self, other: u32) -> (r: u32)
        ensures
            r == min_int(self.i + other, self.max_i as int),
    {
        if self.i <= self.max_i && other <= self.max_i - self.i {
            self.i + other
        } else {
            self.max_i
        }
    }
}

/// A well-formed co-ordinate stays within `0..=max_i` whichever way it steps.
pub proof fn lemma_steps_stay_in_range(b: Bounded, other: u32)
    requires
        b.wf(),
    ensures
        0 <= max_int(b.i - other, 0) <= b.i,
        b.i <= min_int(b.i + other, b.max_i as int) <= b.max_i,
{
}

} // verus!
