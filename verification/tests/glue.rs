use diagram_algebra::error::DiagramError;
use diagram_algebra::glue::ExtendedPerfectMatching;
use diagram_algebra::matching::PerfectMatching;
use diagram_algebra::pair::Pair;

fn diagram(
    domain: usize,
    codomain: usize,
    delta_power: usize,
    pairs: &[(usize, usize)],
) -> ExtendedPerfectMatching {
    let list: Vec<Pair> = pairs.iter().map(|&(a, b)| Pair(a, b)).collect();
    ExtendedPerfectMatching {
        domain,
        codomain,
        delta_power,
        matching: PerfectMatching::from_iter(list).unwrap(),
    }
}

fn pairs_of(d: &ExtendedPerfectMatching) -> Vec<(usize, usize)> {
    d.matching.pairs().iter().map(|p| (p.0, p.1)).collect()
}

#[test]
fn identity_glued_to_identity_is_the_identity() {
    for n in 0..5 {
        let pairs: Vec<(usize, usize)> = (0..n).map(|i| (i, i + n)).collect();
        let id = diagram(n, n, 0, &pairs);
        let composite = id.glue(&id).unwrap();
        assert_eq!(composite.domain, n);
        assert_eq!(composite.codomain, n);
        assert_eq!(composite.delta_power, 0);
        assert_eq!(pairs_of(&composite), pairs);
    }
}

#[test]
fn cup_glued_to_cap_closes_one_loop() {
    // 0 -> 2 followed by 2 -> 0
    let cup = diagram(0, 2, 0, &[(0, 1)]);
    let cap = diagram(2, 0, 0, &[(0, 1)]);
    let composite = cup.glue(&cap).unwrap();
    assert_eq!(composite.domain, 0);
    assert_eq!(composite.codomain, 0);
    assert_eq!(composite.delta_power, 1);
    assert_eq!(pairs_of(&composite), vec![]);
}

#[test]
fn every_closed_loop_adds_one_to_the_power() {
    // two nested cups against two nested caps: two loops
    let cups = diagram(0, 4, 3, &[(0, 3), (1, 2)]);
    let caps = diagram(4, 0, 5, &[(0, 3), (1, 2)]);
    let composite = cups.glue(&caps).unwrap();
    assert_eq!(composite.delta_power, 3 + 5 + 2);
    // nested cups against side-by-side caps: one loop through all four points
    let caps = diagram(4, 0, 5, &[(0, 1), (2, 3)]);
    let composite = cups.glue(&caps).unwrap();
    assert_eq!(composite.delta_power, 3 + 5 + 1);
}

#[test]
fn loops_do_not_change_the_boundary_pairing() {
    // 2 -> 2 with a cap and a cup, glued to itself: one loop, same pairing
    let e = diagram(2, 2, 0, &[(0, 1), (2, 3)]);
    let composite = e.glue(&e).unwrap();
    assert_eq!(composite.delta_power, 1);
    assert_eq!(pairs_of(&composite), vec![(0, 1), (2, 3)]);
}

#[test]
fn paths_through_the_interface_are_followed() {
    // left: 1 -> 3, domain point 0 to codomain point 0, cup on codomain points 1, 2
    let left = diagram(1, 3, 0, &[(0, 1), (2, 3)]);
    // right: 3 -> 1, cap on domain points 0, 1, domain point 2 to codomain point 0
    let right = diagram(3, 1, 0, &[(0, 1), (2, 3)]);
    let composite = left.glue(&right).unwrap();
    // the one strand goes up, around the cup and the cap, and out
    assert_eq!(composite.domain, 1);
    assert_eq!(composite.codomain, 1);
    assert_eq!(composite.delta_power, 0);
    assert_eq!(pairs_of(&composite), vec![(0, 1)]);
}

#[test]
fn crossing_composed_with_crossing_is_straight() {
    let swap = diagram(2, 2, 0, &[(0, 3), (1, 2)]);
    let composite = swap.glue(&swap).unwrap();
    assert_eq!(composite.delta_power, 0);
    assert_eq!(pairs_of(&composite), vec![(0, 2), (1, 3)]);
}

#[test]
fn sizes_that_do_not_fit_are_refused() {
    let a = diagram(2, 2, 0, &[(0, 2), (1, 3)]);
    let b = diagram(0, 2, 0, &[(0, 1)]);
    assert_eq!(a.glue(&b).err(), Some(DiagramError::CompositionArityMismatch));
}

#[test]
fn the_product_of_two_diagrams_is_their_glueing() {
    // a cup and a cap between two straight lines: one loop closes
    let cap = diagram(0, 2, 1, &[(0, 1)]);
    let cup = diagram(2, 0, 2, &[(0, 1)]);
    assert_eq!(cap.codomain, cup.domain);
    let product = cap.clone() * cup.clone();
    assert_eq!(product.domain, 0);
    assert_eq!(product.codomain, 0);
    assert_eq!(product.delta_power, 4);
    assert_eq!(pairs_of(&product), vec![]);
    for n in 0..5 {
        let pairs: Vec<(usize, usize)> = (0..n).map(|i| (i, i + n)).collect();
        let id = diagram(n, n, 0, &pairs);
        let square = id.clone() * id.clone();
        assert_eq!(square.domain, n);
        assert_eq!(square.codomain, n);
        assert_eq!(square.delta_power, 0);
        assert_eq!(pairs_of(&square), pairs);
    }
}
