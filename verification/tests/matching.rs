use diagram_algebra::error::DiagramError;
use diagram_algebra::matching::PerfectMatching;
use diagram_algebra::pair::Pair;

fn pairs_of(m: &PerfectMatching) -> Vec<(usize, usize)> {
    m.pairs().iter().map(|p| (p.0, p.1)).collect()
}

fn matching(pairs: &[(usize, usize)]) -> PerfectMatching {
    let list: Vec<Pair> = pairs.iter().map(|&(a, b)| Pair(a, b)).collect();
    PerfectMatching::from_iter(list).unwrap()
}

#[test]
fn pair_sorted_puts_the_smaller_first() {
    assert_eq!(Pair::sorted(3, 1), Pair(1, 3));
    assert_eq!(Pair::sorted(1, 3), Pair(1, 3));
    assert_eq!(Pair::sorted(2, 2), Pair(2, 2));
    assert_eq!(Pair(5, 2).sort(), Pair(2, 5));
}

#[test]
fn pair_contains_is_strict() {
    let p = Pair(2, 5);
    assert!(p.contains(3));
    assert!(p.contains(4));
    assert!(!p.contains(2));
    assert!(!p.contains(5));
    assert!(!p.contains(6));
    assert!(Pair(5, 2).contains(3));
}

#[test]
fn pair_map_all_any_iter() {
    let p = Pair(2, 5);
    assert_eq!(p.map(|v| v + 10), Pair(12, 15));
    assert!(p.all(|v| v >= 2));
    assert!(!p.all(|v| v > 2));
    assert!(p.any(|v| v == 5));
    assert!(!p.any(|v| v == 3));
    assert_eq!(p.iter(), vec![2, 5]);
    assert_eq!(Pair::from((4, 1)), Pair(4, 1));
}

#[test]
fn pair_flip_moves_domain_up_and_codomain_down() {
    // source 2, target 3: 0,1 -> 3,4 and 2,3,4 -> 0,1,2
    assert_eq!(Pair(0, 4).flip_upside_down(2, 3), Pair(3, 2));
    assert_eq!(Pair(1, 2).flip_upside_down(2, 3), Pair(4, 0));
}

#[test]
fn construction_brings_pairs_into_canonical_form() {
    let m = matching(&[(5, 0), (3, 1), (2, 4)]);
    assert_eq!(pairs_of(&m), vec![(0, 5), (1, 3), (2, 4)]);
    assert_eq!(m.len(), 3);
}

#[test]
fn construction_from_a_slice() {
    let m = PerfectMatching::new(&[Pair(3, 2), Pair(1, 0)]).unwrap();
    assert_eq!(pairs_of(&m), vec![(0, 1), (2, 3)]);
}

#[test]
fn empty_matching_is_valid() {
    let m = PerfectMatching::from_iter(vec![]).unwrap();
    assert_eq!(m.len(), 0);
    assert_eq!(PerfectMatching::empty(), m);
}

#[test]
fn construction_fails_when_an_index_is_missing() {
    let r = PerfectMatching::from_iter(vec![Pair(0, 1), Pair(2, 4)]);
    assert_eq!(r.err(), Some(DiagramError::MalformedMatching));
}

#[test]
fn construction_fails_on_a_repeated_index() {
    let r = PerfectMatching::from_iter(vec![Pair(0, 1), Pair(1, 2)]);
    assert_eq!(r.err(), Some(DiagramError::MalformedMatching));
    let r = PerfectMatching::from_iter(vec![Pair(0, 0)]);
    assert_eq!(r.err(), Some(DiagramError::MalformedMatching));
    let r = PerfectMatching::from_iter(vec![Pair(0, 1), Pair(0, 1)]);
    assert_eq!(r.err(), Some(DiagramError::MalformedMatching));
}

#[test]
fn shift_index_moves_endpoints_from_the_threshold_on() {
    let m = matching(&[(0, 3), (1, 2)]);
    let s = m.shift_index(2, 5);
    assert_eq!(pairs_of(&s), vec![(0, 8), (1, 7)]);
    let unchanged = m.shift_index(4, 5);
    assert_eq!(pairs_of(&unchanged), vec![(0, 3), (1, 2)]);
    let all = m.shift_index(0, 1);
    assert_eq!(pairs_of(&all), vec![(1, 4), (2, 3)]);
}

#[test]
fn flip_upside_down_exchanges_domain_and_codomain() {
    // 1 -> 3: domain point 0 joined to codomain point 3, cap on codomain points 1, 2
    let m = matching(&[(0, 3), (1, 2)]);
    let f = m.flip_upside_down(1, 3);
    // 0 -> 3, 1 -> 0, 2 -> 1, 3 -> 2
    assert_eq!(pairs_of(&f), vec![(0, 1), (2, 3)]);
    let back = f.flip_upside_down(3, 1);
    assert_eq!(back, m);
}

#[test]
fn canonicalize_and_extend() {
    let mut m = matching(&[(0, 1)]);
    let other = PerfectMatching::from_partners(&vec![1, 0]).shift_index(0, 2);
    m.extend(other);
    m.canonicalize();
    assert_eq!(pairs_of(&m), vec![(0, 1), (2, 3)]);
}

#[test]
fn from_partners_lists_every_pair_once() {
    let m = PerfectMatching::from_partners(&vec![3, 2, 1, 0]);
    assert_eq!(pairs_of(&m), vec![(0, 3), (1, 2)]);
}

#[test]
fn identity_matching_is_non_crossing() {
    for n in 0..6 {
        let list: Vec<Pair> = (0..n).map(|i| Pair(i, i + n)).collect();
        let m = PerfectMatching::from_iter(list).unwrap();
        assert!(m.non_crossing(n, n));
    }
}

#[test]
fn overlapping_domain_lines_cross() {
    // domain size 4, codomain size 0
    let m = matching(&[(0, 2), (1, 3)]);
    assert!(!m.non_crossing(4, 0));
    // domain size 4, codomain size 2
    let m = matching(&[(0, 2), (1, 3), (4, 5)]);
    assert!(!m.non_crossing(4, 2));
}

#[test]
fn overlapping_codomain_lines_cross() {
    let m = matching(&[(0, 2), (1, 3)]);
    assert!(!m.non_crossing(0, 4));
}

#[test]
fn nested_and_disjoint_lines_do_not_cross() {
    let nested = matching(&[(0, 3), (1, 2)]);
    assert!(nested.non_crossing(4, 0));
    assert!(nested.non_crossing(0, 4));
    let apart = matching(&[(0, 1), (2, 3)]);
    assert!(apart.non_crossing(4, 0));
    assert!(apart.non_crossing(2, 2));
}

#[test]
fn through_line_under_a_cup_crosses() {
    // domain 3: cup on 0 and 2, point 1 goes through to codomain point 3
    let m = matching(&[(0, 2), (1, 3)]);
    assert!(!m.non_crossing(3, 1));
}

#[test]
fn exchanged_through_lines_cross() {
    // domain 2, codomain 2: 0 -> 3, 1 -> 2
    let m = matching(&[(0, 3), (1, 2)]);
    assert!(!m.non_crossing(2, 2));
    let straight = matching(&[(0, 2), (1, 3)]);
    assert!(straight.non_crossing(2, 2));
}

#[test]
fn cup_and_cap_with_a_through_line() {
    // domain 3, codomain 3: cup on 0,1; 2 -> 3; cap on 4,5
    let m = matching(&[(0, 1), (2, 3), (4, 5)]);
    assert!(m.non_crossing(3, 3));
}
