use diagram_algebra::utils::{either_f, Either, EitherExt};
use diagram_algebra::error::DiagramError;
use diagram_algebra::permutation::{
    check_permutation, cycle_exchanges, first_places, images_of, in_place_permute,
    necessary_permutation, permute_by, position, rand_perm,
};
use diagram_algebra::utils::{
    argmax, remove_multiple, represents_id, test_asserter, test_holds, to_vec_01, ResultExt,
};
use permutations::Permutation;
use rand::distributions::Uniform;
use rand::prelude::Distribution;

#[test]
fn nec_permutation() {
    let n_max = 10;
    let between = Uniform::<usize>::from(2..n_max);
    let mut rng = rand::thread_rng();
    for _ in 0..10 {
        let my_n = between.sample(&mut rng);
        let my_set = (0..my_n).map(|i| format!("{}", i)).collect::<Vec<String>>();
        let shuffle = rand_perm(my_n, my_n * my_n / 4);
        let permuted_set = shuffle.permute(&my_set);
        let found_perm = necessary_permutation(&my_set, &permuted_set);
        assert_eq!(found_perm, Ok(shuffle));
    }
}

#[test]
fn perm_decompose() {
    let n_max = 10;
    let between = Uniform::<usize>::from(2..n_max);
    let mut rng = rand::thread_rng();
    for _ in 0..10 {
        let my_n = between.sample(&mut rng);
        let shuffle = rand_perm(my_n, my_n * my_n / 4);
        let cycle_prod = diagram_algebra::permutation::perm_decompose(&shuffle);
        let obs_p1 = cycle_prod
            .iter()
            .fold(Permutation::identity(my_n), |acc, (p, q)| {
                Permutation::transposition(my_n, *p, *q) * acc
            });
        assert_eq!(shuffle, obs_p1);
    }
}

#[test]
fn in_place_permuting() {
    let n_max = 10;
    let between = Uniform::<usize>::from(2..n_max);
    let mut rng = rand::thread_rng();
    for _ in 0..10 {
        let my_n = between.sample(&mut rng);
        let mut my_set = (0..my_n).map(|i| format!("{}", i)).collect::<Vec<String>>();
        let shuffle = rand_perm(my_n, my_n * my_n / 4);
        in_place_permute(&mut my_set, &shuffle);
        for (idx, cur) in my_set.iter().enumerate() {
            assert_eq!(*cur, format!("{}", shuffle.apply(idx)));
        }
        in_place_permute(&mut my_set, &shuffle.inv());
        for (idx, cur) in my_set.iter().enumerate() {
            assert_eq!(*cur, format!("{}", idx));
        }
    }
}

#[test]
fn rand_perm_gives_a_permutation() {
    for n in 1..6 {
        let p = rand_perm(n, 7);
        assert_eq!(p.len(), n);
        assert!(check_permutation(&images_of(&p)));
    }
    assert_eq!(rand_perm(4, 0), Permutation::identity(4));
}

#[test]
fn images_of_reads_every_image() {
    let p = Permutation::try_from(vec![2usize, 0, 1]).unwrap();
    assert_eq!(images_of(&p), vec![2, 0, 1]);
}

#[test]
fn in_place_permute_permutes_the_start_of_a_longer_list() {
    let p = Permutation::try_from(vec![1usize, 0]).unwrap();
    let mut v = vec!['a', 'b', 'c'];
    in_place_permute(&mut v, &p);
    assert_eq!(v, vec!['b', 'a', 'c']);
}

#[test]
fn perm_decompose_walks_every_cycle() {
    // 0 -> 1 -> 2 -> 0 and 3 <-> 4, 5 fixed
    let p = vec![1, 2, 0, 4, 3, 5];
    assert_eq!(cycle_exchanges(&p), vec![(0, 1), (1, 2), (3, 4)]);
    assert_eq!(cycle_exchanges(&vec![0, 1, 2]), vec![]);
    assert_eq!(cycle_exchanges(&vec![]), vec![]);
    let as_value = Permutation::try_from(p).unwrap();
    assert_eq!(
        diagram_algebra::permutation::perm_decompose(&as_value),
        vec![(0, 1), (1, 2), (3, 4)]
    );
}

#[test]
fn in_place_permute_moves_values_to_their_places() {
    let mut v = vec!['a', 'b', 'c', 'd'];
    permute_by(&mut v, &vec![2, 0, 3, 1]);
    assert_eq!(v, vec!['c', 'a', 'd', 'b']);
    let p = Permutation::try_from(vec![2usize, 0, 3, 1]).unwrap();
    let mut w = vec!['a', 'b', 'c', 'd'];
    in_place_permute(&mut w, &p);
    assert_eq!(w, vec!['c', 'a', 'd', 'b']);
}

#[test]
fn check_permutation_wants_every_index() {
    assert!(check_permutation(&vec![2, 1, 0]));
    assert!(check_permutation(&vec![]));
    assert!(!check_permutation(&vec![0, 1, 1]));
    assert!(!check_permutation(&vec![0, 1, 3]));
}

#[test]
fn position_finds_the_first_place() {
    let v = vec![5usize, 7, 5, 9];
    assert_eq!(position(&v, &5), Some(0));
    assert_eq!(position(&v, &9), Some(3));
    assert_eq!(position(&v, &1), None);
}

#[test]
fn necessary_permutation_on_fixed_lists() {
    let side_1 = vec![10usize, 20, 30];
    let side_2 = vec![30usize, 10, 20];
    // first places: 10 -> 1, 20 -> 2, 30 -> 0; the inverse of [1, 2, 0] is [2, 0, 1]
    assert_eq!(first_places(&side_1, &side_2), Some(vec![1, 2, 0]));
    assert_eq!(
        necessary_permutation(&side_1, &side_2),
        Ok(Permutation::try_from(vec![2usize, 0, 1]).unwrap())
    );
}

#[test]
fn necessary_permutation_fails_on_different_lengths() {
    let side_1 = vec![1usize, 2];
    let side_2 = vec![1usize, 2, 3];
    assert_eq!(
        necessary_permutation(&side_1, &side_2),
        Err(DiagramError::NoPermutation)
    );
}

#[test]
fn necessary_permutation_fails_on_a_missing_value() {
    let side_1 = vec![1usize, 2, 4];
    let side_2 = vec![1usize, 2, 3];
    assert_eq!(
        necessary_permutation(&side_1, &side_2),
        Err(DiagramError::NoPermutation)
    );
}

#[test]
fn necessary_permutation_fails_on_repeated_values() {
    let side_1 = vec![1usize, 1, 2];
    let side_2 = vec![1usize, 2, 1];
    assert_eq!(
        necessary_permutation(&side_1, &side_2),
        Err(DiagramError::NoPermutation)
    );
}

#[test]
fn represents_id_wants_every_index_in_place() {
    assert!(represents_id(&[0, 1, 2, 3]));
    assert!(represents_id(&[]));
    assert!(!represents_id(&[0, 2, 1]));
    assert!(!represents_id(&[1]));
}

#[test]
fn to_vec_01_has_at_most_one_value() {
    assert_eq!(to_vec_01(Some(3)), vec![3]);
    assert_eq!(to_vec_01::<i32>(None), Vec::<i32>::new());
}

#[test]
fn argmax_takes_the_last_maximum() {
    assert_eq!(argmax(&[1, 5, 3, 5, 2]), Some(3));
    assert_eq!(argmax(&[7]), Some(0));
    assert_eq!(argmax(&[3, 2, 1]), Some(0));
    assert_eq!(argmax::<i32>(&[]), None);
}

#[test]
fn remove_multiple_keeps_the_order_of_the_rest() {
    let mut v = vec!['a', 'b', 'c', 'd', 'e'];
    remove_multiple(&mut v, vec![3, 0]);
    assert_eq!(v, vec!['b', 'c', 'e']);
    remove_multiple(&mut v, vec![]);
    assert_eq!(v, vec!['b', 'c', 'e']);
    remove_multiple(&mut v, vec![0, 2, 1]);
    assert_eq!(v, Vec::<char>::new());
}

#[test]
fn zip_pairs_two_values_or_gives_the_first_error() {
    let a: Result<i32, &str> = Ok(1);
    let b: Result<char, &str> = Ok('x');
    assert_eq!(a.zip(b), Ok((1, 'x')));
    let a: Result<i32, &str> = Err("left");
    let b: Result<char, &str> = Err("right");
    assert_eq!(a.zip(b), Err("left"));
    let a: Result<i32, &str> = Ok(1);
    let b: Result<char, &str> = Err("right");
    assert_eq!(a.zip(b), Err("right"));
}

#[test]
fn test_holds_wants_values_the_side_test_and_equality() {
    let ok = |a: i32| -> Result<i32, &'static str> { Ok(a) };
    assert!(test_holds(ok(1), ok(1), |_, _| true, "same"));
    assert!(!test_holds(ok(1), ok(2), |_, _| true, "different"));
    assert!(!test_holds(ok(1), ok(1), |_, _| false, "side test"));
    assert!(!test_holds(Err("no"), ok(1), |_, _| true, "error"));
    assert!(!test_holds(ok(1), Err("no"), |_, _| true, "error"));
}

#[test]
fn test_asserter_takes_an_equation_that_holds() {
    let ok = |a: i32| -> Result<i32, &'static str> { Ok(a) };
    assert!(test_holds(ok(7), ok(7), |a, b| a == b, "seven"));
    test_asserter(ok(7), ok(7), |a, b| a == b, "seven");
}

#[test]
fn every_error_has_its_message() {
    let all = [
        DiagramError::MalformedMatching,
        DiagramError::InjectivityViolation,
        DiagramError::CompositionArityMismatch,
        DiagramError::EmptyLayer,
        DiagramError::NoPermutation,
    ];
    let texts: Vec<String> = all.iter().map(|e| e.message()).collect();
    assert_eq!(texts[0], "the pairs do not cover the indices 0..2n exactly once");
    assert_eq!(texts[1], "the function called injection should have been injective");
    assert_eq!(texts[2], "mismatch in the common interface of the two operands");
    assert_eq!(texts[3], "an empty layer in a generic monoidal morphism");
    assert_eq!(texts[4], "no permutation can take side 1 to side 2");
}

#[test]
fn either_f_takes_the_function_of_the_side() {
    let left = || -> Either<i32, &str> { Either::Left(3) };
    let right = || -> Either<i32, &str> { Either::Right("four") };
    assert_eq!(either_f(left(), |n| n + 1, |s: &str| s.len() as i32), 4);
    assert_eq!(either_f(right(), |n| n + 10, |s: &str| s.len() as i32), 4);
    assert_eq!(left().bimap(|n| n * 2, |s: &str| s.len()), Either::Left(6));
    assert_eq!(right().bimap(|n| n * 2, |s: &str| s.len()), Either::Right(4));
}

#[test]
fn in_place_permute_leaves_the_places_beyond_the_permutation() {
    let mut list = vec!["a", "b", "c", "d", "e"];
    in_place_permute(&mut list, &Permutation::transposition(3, 0, 2));
    assert_eq!(list, vec!["c", "b", "a", "d", "e"]);
    let rotation = Permutation::try_from(vec![1usize, 2, 0]).unwrap();
    in_place_permute(&mut list, &rotation);
    assert_eq!(list, vec!["b", "a", "c", "d", "e"]);
}

#[test]
fn in_place_permute_takes_a_longer_permutation_that_fixes_the_rest() {
    let mut list = vec![10, 20, 30];
    in_place_permute(&mut list, &Permutation::transposition(7, 0, 1));
    assert_eq!(list, vec![20, 10, 30]);
    in_place_permute(&mut list, &Permutation::identity(9));
    assert_eq!(list, vec![20, 10, 30]);
}

#[test]
fn remove_multiple_takes_an_index_twice_as_two_removals() {
    let mut v = vec!['a', 'b', 'c', 'd', 'e'];
    remove_multiple(&mut v, vec![1, 1]);
    assert_eq!(v, vec!['a', 'd', 'e']);
    let mut w = vec![0, 1, 2, 3, 4, 5];
    remove_multiple(&mut w, vec![2, 4, 2, 0]);
    assert_eq!(w, vec![1, 5]);
}
