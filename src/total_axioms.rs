//! Checks of the total cyclic order laws on given points, for implementors
//! to test their impls with.
use vstd::prelude::*;

use vstd::std_specs::cmp::PartialEqSpec;

use crate::cyclic::{CyclicOrd, CyclicOrdering};

verus! {

/// Cyclicity: the order of a, b, c is that of b, c, a.
pub fn cyclicity<T: CyclicOrd>(a: &T, b: &T, c: &T) -> (r: bool)
    ensures
        r == (a.cyclic(b, c) == b.cyclic(c, a)),
{
    a.cyclic_cmp(b, c) == b.cyclic_cmp(c, a)
}

/// Asymmetry: a, b, c and c, b, a are not both clockwise, nor both
/// counterclockwise.
pub fn antisymmetry<T: CyclicOrd>(a: &T, b: &T, c: &T) -> (r: bool)
    ensures
        r == !((a.cyclic(b, c) == CyclicOrdering::Clockwise && c.cyclic(b, a)
            == CyclicOrdering::Clockwise) || (a.cyclic(b, c) == CyclicOrdering::CounterClockwise
            && c.cyclic(b, a) == CyclicOrdering::CounterClockwise)),
{
    match (a.cyclic_cmp(b, c), c.cyclic_cmp(b, a)) {
        (CyclicOrdering::Clockwise, CyclicOrdering::Clockwise) => false,
        (CyclicOrdering::CounterClockwise, CyclicOrdering::CounterClockwise) => false,
        _ => true,
    }
}

/// Transitivity: if a, b, c and a, c, d share a direction, a, b, d has it too.
pub fn transitivity<T: CyclicOrd>(a: &T, b: &T, c: &T, d: &T) -> (r: bool)
    ensures
        r == (a.cyclic(b, c) == a.cyclic(c, d) && a.cyclic(b, c) != CyclicOrdering::Degenerate
            ==> a.cyclic(b, d) == a.cyclic(b, c)),
{
    match (a.cyclic_cmp(b, c), a.cyclic_cmp(c, d), a.cyclic_cmp(b, d)) {
        (CyclicOrdering::Clockwise, CyclicOrdering::Clockwise, t) => t == CyclicOrdering::Clockwise,
        (CyclicOrdering::CounterClockwise, CyclicOrdering::CounterClockwise, t) => t
            == CyclicOrdering::CounterClockwise,
        _ => true,
    }
}

/// Totality: a, b, c and c, b, a lie in opposite directions, or both are
/// degenerate and two of the points are equal.
pub fn totality<T: CyclicOrd>(a: &T, b: &T, c: &T) -> (r: bool)
    ensures
        T::obeys_eq_spec() ==> r == ((a.cyclic(b, c) == CyclicOrdering::Clockwise && c.cyclic(b, a)
            == CyclicOrdering::CounterClockwise) || (a.cyclic(b, c)
            == CyclicOrdering::CounterClockwise && c.cyclic(b, a) == CyclicOrdering::Clockwise) || (
        a.cyclic(b, c) == CyclicOrdering::Degenerate && c.cyclic(b, a) == CyclicOrdering::Degenerate
            && (a.eq_spec(b) || b.eq_spec(c) || c.eq_spec(a)))),
{
    match (a.cyclic_cmp(b, c), c.cyclic_cmp(b, a)) {
        (CyclicOrdering::Clockwise, CyclicOrdering::CounterClockwise) => true,
        (CyclicOrdering::CounterClockwise, CyclicOrdering::Clockwise) => true,
        (CyclicOrdering::Degenerate, CyclicOrdering::Degenerate) => a.eq(b) || b.eq(c) || c.eq(a),
        _ => false,
    }
}

/// Cohesion with the partial order: a clockwise answer from `is_clockwise`
/// is a clockwise answer from `cyclic_cmp`.
pub fn super_trait_cohesion<T: CyclicOrd>(a: &T, b: &T, c: &T) -> (r: bool)
    ensures
        r == (a.clockwise(b, c) ==> a.cyclic(b, c) == CyclicOrdering::Clockwise),
{
    match (a.cyclic_cmp(b, c), a.is_clockwise(b, c)) {
        (CyclicOrdering::Clockwise, true) => true,
        (_, false) => true,
        _ => false,
    }
}

} // verus!
