use diagram_algebra::category::{Composable, HasIdentity};
use diagram_algebra::coefficient::{Coefficient, Complex};
use diagram_algebra::error::DiagramError;
use diagram_algebra::matching::PerfectMatching;
use diagram_algebra::monoidal::Monoidal;
use diagram_algebra::pair::Pair;
use diagram_algebra::temperley_lieb::{simplify, BrauerMorphism};

fn matching(pairs: &[(usize, usize)]) -> PerfectMatching {
    let list: Vec<Pair> = pairs.iter().map(|&(a, b)| Pair(a, b)).collect();
    PerfectMatching::from_iter(list).unwrap()
}

#[test]
fn identity_has_one_straight_diagram() {
    let id = BrauerMorphism::<i32>::identity(&3);
    assert_eq!(id.domain(), 3);
    assert_eq!(id.codomain(), 3);
    assert!(id.is_def_tl());
    assert_eq!(id.term_count(), 1);
    assert_eq!(id.coefficient(0, &matching(&[(0, 3), (1, 4), (2, 5)])), Some(1));
}

#[test]
fn identity_on_no_points() {
    let id = BrauerMorphism::<i32>::identity(&0);
    assert_eq!(id.domain(), 0);
    assert_eq!(id.coefficient(0, &PerfectMatching::empty()), Some(1));
}

#[test]
fn identity_is_neutral_for_composition() {
    let n = 4;
    let id = BrauerMorphism::<Complex>::identity(&n);
    let e = BrauerMorphism::<Complex>::temperley_lieb_gens(n);
    let s = BrauerMorphism::<Complex>::symmetric_alg_gens(n);
    for f in e.iter().chain(s.iter()) {
        assert_eq!(id.compose(f).unwrap(), *f);
        assert_eq!(f.compose(&id).unwrap(), *f);
    }
    let composite = id.compose(&id).unwrap();
    assert_eq!(composite, id);
    assert_eq!(composite.term_count(), 1);
}

#[test]
fn identity_is_neutral_for_sums_of_diagrams() {
    let n = 3;
    let id = BrauerMorphism::<i32>::identity(&n);
    let e = BrauerMorphism::<i32>::temperley_lieb_gens(n);
    let f = e[0].compose(&e[1]).unwrap();
    assert_eq!(id.compose(&f).unwrap(), f);
    assert_eq!(f.compose(&id).unwrap(), f);
}

#[test]
fn composition_is_associative_on_generators() {
    let n = 4;
    let e = BrauerMorphism::<i32>::temperley_lieb_gens(n);
    let s = BrauerMorphism::<i32>::symmetric_alg_gens(n);
    let gens: Vec<&BrauerMorphism<i32>> = e.iter().chain(s.iter()).collect();
    for f in &gens {
        for g in &gens {
            for h in &gens {
                let mut left = f.compose(g).unwrap().compose(h).unwrap();
                let mut right = f.compose(&g.compose(h).unwrap()).unwrap();
                simplify(&mut left);
                simplify(&mut right);
                assert_eq!(left, right);
            }
        }
    }
}

#[test]
fn composition_refuses_sizes_that_do_not_fit() {
    let a = BrauerMorphism::<i32>::identity(&2);
    let b = BrauerMorphism::<i32>::identity(&3);
    assert_eq!(a.compose(&b).err(), Some(DiagramError::CompositionArityMismatch));
    assert_eq!(a.composable(&b), Err(DiagramError::CompositionArityMismatch));
    assert_eq!(a.composable(&a), Ok(()));
}

#[test]
fn generator_squared_closes_a_loop() {
    let e = BrauerMorphism::<i32>::temperley_lieb_gens(3);
    let square = e[0].compose(&e[0]).unwrap();
    assert_eq!(square.term_count(), 1);
    // e_1 on three points: cup on 0,1, cap on 3,4, line 2 - 5
    let diagram = matching(&[(0, 1), (2, 5), (3, 4)]);
    assert_eq!(square.coefficient(1, &diagram), Some(1));
    assert_eq!(square.coefficient(0, &diagram), None);
    assert_eq!(e[0].coefficient(0, &diagram), Some(1));
}

#[test]
fn generators_have_the_expected_diagrams() {
    let e = BrauerMorphism::<i32>::temperley_lieb_gens(3);
    assert_eq!(e.len(), 2);
    assert_eq!(e[1].coefficient(0, &matching(&[(0, 3), (1, 2), (4, 5)])), Some(1));
    let s = BrauerMorphism::<i32>::symmetric_alg_gens(3);
    assert_eq!(s.len(), 2);
    assert_eq!(s[0].coefficient(0, &matching(&[(0, 4), (1, 3), (2, 5)])), Some(1));
    assert_eq!(s[1].coefficient(0, &matching(&[(0, 3), (1, 5), (2, 4)])), Some(1));
    assert!(BrauerMorphism::<i32>::temperley_lieb_gens(1).is_empty());
}

#[test]
fn delta_polynomial_has_one_term_for_every_power() {
    let p = BrauerMorphism::<i32>::delta_polynomial(&[4, 0, -2]);
    assert_eq!(p.domain(), 0);
    assert_eq!(p.codomain(), 0);
    assert!(p.is_def_tl());
    assert_eq!(p.term_count(), 3);
    let empty = PerfectMatching::empty();
    assert_eq!(p.coefficient(0, &empty), Some(4));
    assert_eq!(p.coefficient(1, &empty), Some(0));
    assert_eq!(p.coefficient(2, &empty), Some(-2));
    assert_eq!(p.coefficient(3, &empty), None);
    let mut q = p.clone();
    simplify(&mut q);
    assert_eq!(q.term_count(), 2);
    assert_eq!(q.coefficient(1, &empty), None);
}

#[test]
fn delta_polynomial_without_coefficients_has_no_term() {
    let p = BrauerMorphism::<i32>::delta_polynomial(&[]);
    assert_eq!(p.term_count(), 0);
    assert_eq!(p.coefficient(0, &PerfectMatching::empty()), None);
    assert_eq!(p.domain(), 0);
    assert_eq!(p.codomain(), 0);
    assert!(p.is_def_tl());
}

#[test]
fn delta_polynomial_keeps_a_zero_coefficient_as_a_term() {
    let p = BrauerMorphism::<i32>::delta_polynomial(&[0, 1, 0]);
    assert_eq!(p.term_count(), 3);
    assert_eq!(p.coefficient(0, &PerfectMatching::empty()), Some(0));
    assert_eq!(p.coefficient(1, &PerfectMatching::empty()), Some(1));
    assert_eq!(p.coefficient(2, &PerfectMatching::empty()), Some(0));
    assert_eq!(p.coefficient(3, &PerfectMatching::empty()), None);
}

#[test]
fn product_of_identities_is_the_identity() {
    let mut a = BrauerMorphism::<i32>::identity(&2);
    let b = BrauerMorphism::<i32>::identity(&3);
    a.monoidal(b);
    assert_eq!(a, BrauerMorphism::<i32>::identity(&5));
    assert!(a.is_def_tl());
}

#[test]
fn product_places_the_second_diagram_beside_the_first() {
    // e_1 on two points beside the identity on one point
    let e = BrauerMorphism::<i32>::temperley_lieb_gens(2);
    let mut a = e[0].clone();
    a.monoidal(BrauerMorphism::<i32>::identity(&1));
    assert_eq!(a.domain(), 3);
    assert_eq!(a.codomain(), 3);
    assert_eq!(a.coefficient(0, &matching(&[(0, 1), (2, 5), (3, 4)])), Some(1));
    let e3 = BrauerMorphism::<i32>::temperley_lieb_gens(3);
    assert_eq!(a, e3[0]);
    // the identity on one point beside e_1 on two points
    let mut b = BrauerMorphism::<i32>::identity(&1);
    b.monoidal(e[0].clone());
    assert_eq!(b, e3[1]);
}

#[test]
fn product_adds_powers_and_multiplies_coefficients() {
    let mut a = BrauerMorphism::<i32>::delta_polynomial(&[0, 3]);
    simplify(&mut a);
    let mut b = BrauerMorphism::<i32>::delta_polynomial(&[0, 0, 5]);
    simplify(&mut b);
    a.monoidal(b);
    assert_eq!(a.term_count(), 1);
    assert_eq!(a.coefficient(3, &PerfectMatching::empty()), Some(15));
}

#[test]
fn product_keeps_the_mark_only_where_both_have_it() {
    let s = BrauerMorphism::<i32>::symmetric_alg_gens(2);
    let mut a = BrauerMorphism::<i32>::identity(&1);
    a.monoidal(s[0].clone());
    assert!(!a.is_def_tl());
}

#[test]
fn dagger_turns_diagrams_over_and_conjugates() {
    let e = BrauerMorphism::<Complex>::temperley_lieb_gens(3);
    let s = BrauerMorphism::<Complex>::symmetric_alg_gens(3);
    let f = e[0].compose(&s[1]).unwrap();
    let g = f.dagger(|z| z.conj());
    assert_eq!(g.domain(), 3);
    assert_eq!(g.codomain(), 3);
    assert_eq!(g, s[1].compose(&e[0]).unwrap());
    assert_ne!(g, f);
    assert_eq!(g.dagger(|z| z.conj()), f);
}

#[test]
fn dagger_exchanges_domain_and_codomain() {
    // the cup 0 -> 2 with coefficient i
    let e = BrauerMorphism::<Complex>::temperley_lieb_gens(2);
    let mut scalar = BrauerMorphism::<Complex>::delta_polynomial(&[Complex::new(0, 1)]);
    simplify(&mut scalar);
    let mut f = e[0].clone();
    f.monoidal(scalar);
    let g = f.dagger(|z| z.conj());
    let diagram = matching(&[(0, 1), (2, 3)]);
    assert_eq!(f.coefficient(0, &diagram), Some(Complex::new(0, 1)));
    assert_eq!(g.coefficient(0, &diagram), Some(Complex::new(0, -1)));
    assert_eq!(g.dagger(|z| z.conj()), f);
}

#[test]
fn set_is_tl_marks_what_has_no_crossing() {
    let s = BrauerMorphism::<i32>::symmetric_alg_gens(3);
    let mut square = s[0].compose(&s[0]).unwrap();
    assert!(!square.is_def_tl());
    square.set_is_tl();
    assert!(square.is_def_tl());
    let mut crossing = s[0].clone();
    crossing.set_is_tl();
    assert!(!crossing.is_def_tl());
}

#[test]
fn set_is_tl_never_takes_a_mark_away() {
    let e = BrauerMorphism::<i32>::temperley_lieb_gens(3);
    let mut f = e[0].clone();
    f.set_is_tl();
    assert!(f.is_def_tl());
}

#[test]
fn complex_coefficients_multiply_as_complex_numbers() {
    let a = Complex::new(1, 2);
    let b = Complex::new(3, -1);
    assert_eq!(a.times(b), Complex::new(5, 5));
    assert_eq!(a.plus(b), Complex::new(4, 1));
    assert_eq!(a.minus(b), Complex::new(-2, 3));
    assert_eq!(a.negated(), Complex::new(-1, -2));
    assert_eq!(a.conj(), Complex::new(1, -2));
    assert_eq!(a.times(Complex::one()), a);
    assert!(Complex::zero().is_zero());
    assert!(!a.is_zero());
    assert!(a.same(&Complex::new(1, 2)));
}
