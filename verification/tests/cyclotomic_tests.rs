use coxeter::cyclotomic::{Cyclotomic, CyclotomicRingBase};
use coxeter::prufer_group::PruferGroup;

#[test]
fn test_cyclotomic() {
    assert!(
        Cyclotomic::root_of_unity(3, 0)
            .eq_el(&Cyclotomic::root_of_unity(2, 0))
            .unwrap()
    );
    assert!(Cyclotomic::sum(vec![
        Cyclotomic::root_of_unity(3, 1),
        Cyclotomic::root_of_unity(3, 2),
        Cyclotomic::root_of_unity(3, 0),
    ])
    .unwrap()
    .is_zero()
    .unwrap());
    assert!(Cyclotomic::sum(vec![
        Cyclotomic::root_of_unity(3, 1),
        Cyclotomic::root_of_unity(9, 6),
        Cyclotomic::root_of_unity(3, 0),
    ])
    .unwrap()
    .is_zero()
    .unwrap());
    assert!(Cyclotomic::sum(vec![
        Cyclotomic::root_of_unity(2, 0),
        Cyclotomic::root_of_unity(6, 2),
        Cyclotomic::root_of_unity(3, 2),
    ])
    .unwrap()
    .is_zero()
    .unwrap());
    assert!(Cyclotomic::sum(vec![
        Cyclotomic::root_of_unity(5, 1),
        Cyclotomic::root_of_unity(5, 2),
        Cyclotomic::root_of_unity(5, 3),
        Cyclotomic::root_of_unity(5, 4),
        Cyclotomic::root_of_unity(3, 1).neg(),
        Cyclotomic::root_of_unity(3, 2).neg(),
    ])
    .unwrap()
    .is_zero()
    .unwrap());
}

#[test]
fn cyclotomic_test_cyclotomic() {
    let cr = CyclotomicRingBase::new();
    assert!(cr
        .is_zero(
            &cr.sum(vec![
                cr.root_of_unity(3, 0),
                cr.negate(&cr.root_of_unity(2, 0)),
            ])
            .unwrap()
        )
        .unwrap());
    assert!(cr
        .is_zero(
            &cr.sum(vec![
                cr.root_of_unity(3, 1),
                cr.root_of_unity(3, 2),
                cr.root_of_unity(3, 0),
            ])
            .unwrap()
        )
        .unwrap());
    assert!(cr
        .is_zero(
            &cr.sum(vec![
                cr.root_of_unity(3, 1),
                cr.root_of_unity(9, 6),
                cr.root_of_unity(3, 0),
            ])
            .unwrap()
        )
        .unwrap());
    assert!(cr
        .is_zero(
            &cr.sum(vec![
                cr.root_of_unity(2, 0),
                cr.root_of_unity(6, 2),
                cr.root_of_unity(3, 2),
            ])
            .unwrap()
        )
        .unwrap());
    assert!(cr
        .is_zero(
            &cr.sum(vec![
                cr.root_of_unity(5, 1),
                cr.root_of_unity(5, 2),
                cr.root_of_unity(5, 3),
                cr.root_of_unity(5, 4),
                cr.negate(&cr.root_of_unity(3, 1)),
                cr.negate(&cr.root_of_unity(3, 2)),
            ])
            .unwrap()
        )
        .unwrap());
}

#[test]
fn nonzero_combination_is_not_zero() {
    // zeta_3^0 + zeta_2^0 = 2 is not zero
    let x = Cyclotomic::sum(vec![
        Cyclotomic::root_of_unity(3, 0),
        Cyclotomic::root_of_unity(2, 0),
    ])
    .unwrap();
    assert!(!x.is_zero().unwrap());
    // a single primitive root is not zero
    assert!(!Cyclotomic::root_of_unity(5, 2).is_zero().unwrap());
    // and one is one
    assert!(Cyclotomic::one().is_one().unwrap());
    assert!(!Cyclotomic::from_int(2).is_one().unwrap());
}

#[test]
fn ring_operations_on_examples() {
    let a = Cyclotomic::root_of_unity(4, 1);
    // i * i = -1
    let sq = a.mul(&a).unwrap();
    let minus_one = Cyclotomic::from_int(-1);
    assert!(sq.eq_el(&minus_one).unwrap());
    // a - a = 0
    assert!(a.sub(&a).unwrap().is_zero().unwrap());
    // a + b = b + a structurally
    let b = Cyclotomic::root_of_unity(6, 1);
    let ab = a.add(&b).unwrap();
    let ba = b.add(&a).unwrap();
    assert_eq!(ab.get_terms(), ba.get_terms());
    // a * 1 = a structurally
    let a1 = a.mul(&Cyclotomic::one()).unwrap();
    assert_eq!(a1.get_terms(), a.get_terms());
    // distributivity through the exact equality test
    let c = Cyclotomic::root_of_unity(3, 2);
    let lhs = a.mul(&b.add(&c).unwrap()).unwrap();
    let rhs = a.mul(&b).unwrap().add(&a.mul(&c).unwrap()).unwrap();
    assert!(lhs.eq_el(&rhs).unwrap());
}

#[test]
fn prufer_group_reduces() {
    let g = PruferGroup::new(6, 9);
    assert_eq!(g.numer(), 2);
    assert_eq!(g.denom(), 3);
    let h = PruferGroup::new(7, 3);
    assert_eq!(h.numer(), 1);
    assert_eq!(h.denom(), 3);
    let s = g.add(h).unwrap();
    assert_eq!(s.numer(), 0);
    assert_eq!(s.denom(), 1);
    let n = g.neg();
    assert_eq!(n.numer(), 1);
    assert_eq!(n.denom(), 3);
    assert!(PruferGroup::zero().is_zero());
    assert!(PruferGroup::new(1, 4).lt(&PruferGroup::new(1, 3)));
}
