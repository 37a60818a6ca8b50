use diagram_algebra::linear_combination::LinearCombination;

#[test]
fn adding() {
    let one_a = LinearCombination::singleton("a".to_string());
    let two_b = LinearCombination::singleton("b".to_string()) * 2;
    let one_a_plus_two_b = one_a.clone() + two_b.clone();
    let two_b_plus_one_a = two_b + one_a;
    assert_eq!(one_a_plus_two_b, two_b_plus_one_a);
    let mut zeroed = one_a_plus_two_b - two_b_plus_one_a;
    zeroed.simplify();
    assert!(zeroed.is_empty());
}

fn sum_of(entries: &[(u64, i32)]) -> LinearCombination<i32, u64> {
    LinearCombination::from_iter(entries.to_vec())
}

#[test]
fn singleton_has_coefficient_one() {
    let s: LinearCombination<i32, u64> = LinearCombination::singleton(7);
    assert_eq!(s.len(), 1);
    assert_eq!(s.coefficient(&7), Some(1));
    assert_eq!(s.coefficient(&8), None);
    assert!(!s.is_empty());
}

#[test]
fn new_sum_is_empty() {
    let s: LinearCombination<i32, u64> = LinearCombination::new();
    assert!(s.is_empty());
    assert_eq!(s.len(), 0);
}

#[test]
fn from_iter_keeps_the_later_coefficient() {
    let s = sum_of(&[(1, 5), (2, 6), (1, 9)]);
    assert_eq!(s.len(), 2);
    assert_eq!(s.coefficient(&1), Some(9));
    assert_eq!(s.coefficient(&2), Some(6));
}

#[test]
fn addition_combines_colliding_keys() {
    let a = sum_of(&[(1, 2), (2, 3)]);
    let b = sum_of(&[(2, 10), (3, 4)]);
    let c = a + b;
    assert_eq!(c.coefficient(&1), Some(2));
    assert_eq!(c.coefficient(&2), Some(13));
    assert_eq!(c.coefficient(&3), Some(4));
    assert_eq!(c.len(), 3);
}

#[test]
fn addition_keeps_zero_entries_until_simplified() {
    let a = sum_of(&[(1, 2)]);
    let b = sum_of(&[(1, -2), (5, 1)]);
    let mut c = a + b;
    assert_eq!(c.coefficient(&1), Some(0));
    assert_eq!(c.len(), 2);
    c.simplify();
    assert_eq!(c.coefficient(&1), None);
    assert_eq!(c.coefficient(&5), Some(1));
    assert_eq!(c.len(), 1);
}

#[test]
fn addition_commutes() {
    let a = sum_of(&[(1, 2), (2, 3)]);
    let b = sum_of(&[(2, 10), (3, 4)]);
    assert_eq!(a.clone() + b.clone(), b + a);
}

#[test]
fn addition_associates() {
    let a = sum_of(&[(1, 2), (2, 3)]);
    let b = sum_of(&[(2, 10), (3, 4)]);
    let c = sum_of(&[(1, -7), (3, 1), (9, 9)]);
    assert_eq!((a.clone() + b.clone()) + c.clone(), a + (b + c));
}

#[test]
fn sum_with_negation_simplifies_to_empty() {
    let a = sum_of(&[(1, 2), (2, 3), (4, -8)]);
    let mut zero = a.clone() + (-a);
    zero.simplify();
    assert!(zero.is_empty());
}

#[test]
fn scaling_by_one_changes_nothing() {
    let a = sum_of(&[(1, 2), (2, 3), (4, -8)]);
    assert_eq!(a.clone() * 1, a);
}

#[test]
fn subtraction_negates_new_keys() {
    let a = sum_of(&[(1, 2)]);
    let b = sum_of(&[(1, 5), (3, 4)]);
    let c = a - b;
    assert_eq!(c.coefficient(&1), Some(-3));
    assert_eq!(c.coefficient(&3), Some(-4));
}

#[test]
fn negation_and_scaling_are_exact() {
    let a = sum_of(&[(1, 2), (2, -3)]);
    let n = -a.clone();
    assert_eq!(n.coefficient(&1), Some(-2));
    assert_eq!(n.coefficient(&2), Some(3));
    let s = a * 7;
    assert_eq!(s.coefficient(&1), Some(14));
    assert_eq!(s.coefficient(&2), Some(-21));
}

#[test]
fn in_place_operations_agree_with_the_operators() {
    let a = sum_of(&[(1, 2), (2, 3)]);
    let b = sum_of(&[(2, 10), (3, 4)]);
    let mut c = a.clone();
    c += b.clone();
    assert_eq!(c, a.clone() + b);
    let mut d = a.clone();
    d *= 3;
    assert_eq!(d, a * 3);
}

#[test]
fn integer_coefficients_wrap() {
    let a = sum_of(&[(1, i32::MAX)]);
    let b = sum_of(&[(1, 1)]);
    let c = a + b;
    assert_eq!(c.coefficient(&1), Some(i32::MIN));
}

#[test]
fn equality_ignores_the_order_of_terms() {
    let a = sum_of(&[(1, 2), (2, 3)]);
    let b = sum_of(&[(2, 3), (1, 2)]);
    assert_eq!(a, b);
    let c = sum_of(&[(2, 3), (1, 2), (4, 0)]);
    assert_ne!(a, c);
}

#[test]
fn linearly_extend_sums_collisions() {
    let a = sum_of(&[(1, 2), (2, 3), (3, 5), (4, 7)]);
    let parity: LinearCombination<i32, u64> = a.linearly_extend(|k: &u64| *k % 2);
    assert_eq!(parity.len(), 2);
    assert_eq!(parity.coefficient(&1), Some(7));
    assert_eq!(parity.coefficient(&0), Some(10));
}

#[test]
fn inj_linearly_extend_keeps_coefficients() {
    let a = sum_of(&[(1, 2), (2, 3)]);
    let shifted: LinearCombination<i32, u64> =
        a.inj_linearly_extend(|k: &u64| *k + 10).unwrap();
    assert_eq!(shifted.coefficient(&11), Some(2));
    assert_eq!(shifted.coefficient(&12), Some(3));
    assert_eq!(shifted.len(), 2);
}

#[test]
fn inj_linearly_extend_reports_a_collision() {
    let a = sum_of(&[(1, 2), (2, 3), (3, 4)]);
    let r: Result<LinearCombination<i32, u64>, _> = a.inj_linearly_extend(|k: &u64| *k % 2);
    assert_eq!(
        r.err(),
        Some(diagram_algebra::error::DiagramError::InjectivityViolation)
    );
}

#[test]
fn linear_combine_multiplies_pairwise() {
    let a = sum_of(&[(1, 2), (2, 3)]);
    let b = sum_of(&[(10, 5), (20, 7)]);
    let c: LinearCombination<i32, u64> = a.linear_combine(b, |x: &u64, y: &u64| *x * *y);
    // 1*10 -> 10, 1*20 -> 20, 2*10 -> 20, 2*20 -> 40
    assert_eq!(c.coefficient(&10), Some(10));
    assert_eq!(c.coefficient(&20), Some(2 * 7 + 3 * 5));
    assert_eq!(c.coefficient(&40), Some(21));
    assert_eq!(c.len(), 3);
}

#[test]
fn all_terms_satisfy_asks_every_key() {
    let a = sum_of(&[(2, 1), (4, 1), (6, 0)]);
    assert!(a.all_terms_satisfy(|k: &u64| *k % 2 == 0));
    assert!(!a.all_terms_satisfy(|k: &u64| *k < 6));
    let empty: LinearCombination<i32, u64> = LinearCombination::new();
    assert!(empty.all_terms_satisfy(|_k: &u64| false));
}

#[test]
fn change_coeffs_maps_every_coefficient() {
    let mut a = sum_of(&[(1, 2), (2, -3)]);
    a.change_coeffs(|c: i32| c * c);
    assert_eq!(a.coefficient(&1), Some(4));
    assert_eq!(a.coefficient(&2), Some(9));
}
