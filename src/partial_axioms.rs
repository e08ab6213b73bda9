//! Checks of the partial cyclic order laws on given points, for implementors
//! to test their impls with.
use vstd::prelude::*;

use crate::cyclic::PartialCyclicOrd;

verus! {

/// Cyclicity: [a, b, c] exactly when [b, c, a].
pub fn cyclicity<T: PartialCyclicOrd>(a: &T, b: &T, c: &T) -> (r: bool)
    ensures
        r == (a.clockwise(b, c) == b.clockwise(c, a)),
{
    a.is_clockwise(b, c) == b.is_clockwise(c, a)
}

/// Asymmetry: not both [a, b, c] and [c, b, a].
pub fn antisymmetry<T: PartialCyclicOrd>(a: &T, b: &T, c: &T) -> (r: bool)
    ensures
        r == !(a.clockwise(b, c) && c.clockwise(b, a)),
{
    !(a.is_clockwise(b, c) && c.is_clockwise(b, a))
}

/// Transitivity: [a, b, c] and [a, c, d] give [a, b, d].
pub fn transitivity<T: PartialCyclicOrd>(a: &T, b: &T, c: &T, d: &T) -> (r: bool)
    ensures
        r == ((a.clockwise(b, c) && a.clockwise(c, d)) ==> a.clockwise(b, d)),
{
    let x = a.is_clockwise(b, c);
    let y = a.is_clockwise(c, d);
    let z = a.is_clockwise(b, d);
    if x && y {
        z
    } else {
        true
    }
}

} // verus!
