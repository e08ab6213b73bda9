use vstd::prelude::*;

verus! {

/// How three points lie on a circle.
#[derive(PartialEq, Eq, PartialOrd, Ord, Copy, Clone, Hash, Debug, Structural)]
pub enum CyclicOrdering {
    Clockwise,
    CounterClockwise,
    /// The three points are not all distinct.
    Degenerate,
}

/// A partial cyclic order. Its laws, which `partial_axioms` checks on given
/// points:
///  - cyclicity: if [a, b, c] then [b, c, a];
///  - asymmetry: if [a, b, c] then not [c, b, a];
///  - transitivity: if [a, b, c] and [a, c, d] then [a, b, d].
pub trait PartialCyclicOrd {
    /// Whether `self`, `them`, `other` lie clockwise in that order.
    spec fn clockwise(&self, them: &Self, other: &Self) -> bool;

    fn is_clockwise(&self, them: &Self, other: &Self) -> (r: bool)
        ensures
            r == self.clockwise(them, other),
    ;
}

/// A total cyclic order: a partial one in which three distinct points are
/// always in one order or the other. `total_axioms` checks its laws.
pub trait CyclicOrd: PartialEq + PartialCyclicOrd {
    spec fn cyclic(&self, them: &Self, other: &Self) -> CyclicOrdering;

    fn cyclic_cmp(&self, them: &Self, other: &Self) -> (r: CyclicOrdering)
        ensures
            r == self.cyclic(them, other),
    ;
}

/// Points on a clock face numbered by `u32`: a, b, c are clockwise when one
/// meets them in that order going up from a, wrapping past the largest value.
pub open spec fn u32_clockwise(a: u32, b: u32, c: u32) -> bool {
    (a < b && b < c) || (b < c && c < a) || (c < a && a < b)
}

impl PartialCyclicOrd for u32 {
    open spec fn clockwise(&self, them: &u32, other: &u32) -> bool {
        u32_clockwise(*self, *them, *other)
    }

    fn is_clockwise(&self, them: &u32, other: &u32) -> (r: bool) {
        let (a, b, c) = (*self, *them, *other);
        (a < b && b < c) || (b < c && c < a) || (c < a && a < b)
    }
}

impl CyclicOrd for u32 {
    open spec fn cyclic(&self, them: &u32, other: &u32) -> CyclicOrdering {
        if *self == *them || *them == *other || *other == *self {
            CyclicOrdering::Degenerate
        } else if u32_clockwise(*self, *them, *other) {
            CyclicOrdering::Clockwise
        } else {
            CyclicOrdering::CounterClockwise
        }
    }

    fn cyclic_cmp(&self, them: &u32, other: &u32) -> (r: CyclicOrdering) {
        if *self == *them || *them == *other || *other == *self {
            CyclicOrdering::Degenerate
        } else if self.is_clockwise(them, other) {
            CyclicOrdering::Clockwise
        } else {
            CyclicOrdering::CounterClockwise
        }
    }
}

} // verus!
