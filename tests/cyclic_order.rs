use network::cyclic::{CyclicOrd, CyclicOrdering, PartialCyclicOrd};
use network::{partial_axioms, total_axioms};

#[test]
fn clock_face_order() {
    assert!(1u32.is_clockwise(&2, &3));
    assert!(2u32.is_clockwise(&3, &1));
    assert!(!3u32.is_clockwise(&2, &1));
    assert_eq!(1u32.cyclic_cmp(&2, &3), CyclicOrdering::Clockwise);
    assert_eq!(3u32.cyclic_cmp(&2, &1), CyclicOrdering::CounterClockwise);
    assert_eq!(1u32.cyclic_cmp(&1, &3), CyclicOrdering::Degenerate);
}

#[test]
fn u32_meets_the_axioms() {
    let pts: [u32; 5] = [0, 1, 7, 100, u32::MAX];
    for a in pts.iter() {
        for b in pts.iter() {
            for c in pts.iter() {
                assert!(partial_axioms::cyclicity(a, b, c));
                assert!(partial_axioms::antisymmetry(a, b, c));
                assert!(total_axioms::cyclicity(a, b, c));
                assert!(total_axioms::antisymmetry(a, b, c));
                assert!(total_axioms::totality(a, b, c));
                assert!(total_axioms::super_trait_cohesion(a, b, c));
                for d in pts.iter() {
                    assert!(partial_axioms::transitivity(a, b, c, d));
                    assert!(total_axioms::transitivity(a, b, c, d));
                }
            }
        }
    }
}
