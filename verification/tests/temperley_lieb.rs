use diagram_algebra::category::{Composable, HasIdentity};
use diagram_algebra::coefficient::{Coefficient, Complex};
use diagram_algebra::error::DiagramError;
use diagram_algebra::monoidal::Monoidal;
use diagram_algebra::temperley_lieb::{simplify, BrauerMorphism};
use diagram_algebra::utils::{test_asserter, test_holds};
use either::Either;
use either::Either::{Left, Right};

/// Fails unless the equation holds, and then states it to the library.
fn asserted<T: PartialEq + Clone, U: Clone, F: Fn(&T, &T) -> bool>(
    observed: Result<T, U>,
    expected: Result<T, U>,
    aux_test: F,
    equation_str: &str,
) -> bool {
    assert!(
        test_holds(observed.clone(), expected.clone(), &aux_test, equation_str),
        "{}",
        equation_str
    );
    test_asserter(observed, expected, aux_test, equation_str);
    true
}

fn get_generator<T: Clone>(l_gens: &[T], r_gens: &[T], which: Either<usize, usize>) -> T {
    match which {
        Left(n) => l_gens[n].clone(),
        Right(n) => r_gens[n].clone(),
    }
}

fn test_helper<T: Coefficient>(
    e_i: &[BrauerMorphism<T>],
    s_i: &[BrauerMorphism<T>],
    prod_these: &[Either<usize, usize>],
    delta_poly_coeffs: &[T],
) -> Result<BrauerMorphism<T>, DiagramError> {
    assert!(!prod_these.is_empty());
    let prod_these_0 = get_generator(e_i, s_i, prod_these[0]);
    let mut delta_poly = BrauerMorphism::delta_polynomial(delta_poly_coeffs);
    simplify(&mut delta_poly);
    if prod_these.len() == 1 {
        let mut full_prod = prod_these_0;
        full_prod.monoidal(delta_poly);
        return Ok(full_prod);
    }
    let prod_these_1 = get_generator(e_i, s_i, prod_these[1]);
    let mut full_prod = prod_these_0.compose(&prod_these_1);
    for cur_idx in prod_these.iter().skip(2) {
        let cur = get_generator(e_i, s_i, *cur_idx);
        full_prod = full_prod.and_then(|z| z.compose(&cur));
    }
    match full_prod {
        Ok(mut t) => {
            t.monoidal(delta_poly);
            Ok(t)
        }
        Err(e) => Err(e),
    }
}

#[test]
fn t_l_relations() {
    let e_i = BrauerMorphism::<Complex>::temperley_lieb_gens(5);
    let delta_coeffs: [Complex; 2] = [Complex::zero(), Complex::one()];
    for idx in 0..e_i.len() {
        assert!(e_i[idx].is_def_tl());
        let e_i_dag = e_i[idx].dagger(|z| z.conj());
        assert!(
            &e_i[idx] == &e_i_dag,
            "{:?} vs {:?} when checking self adjointness of e_i",
            e_i[idx],
            e_i_dag
        );
        let e_ie_i = e_i[idx].compose(&e_i[idx]);
        let deltae_i = test_helper(&e_i, &[], &[Left(idx)], &delta_coeffs);
        assert!(
            asserted(
                e_ie_i,
                deltae_i,
                |j, k| j.is_def_tl() && k.is_def_tl(),
                "e_i e_i = delta e_i",
            ),
            "e_i e_i = delta e_i"
        );
        if idx < e_i.len() - 1 {
            let prod_iji = e_i[idx]
                .compose(&e_i[idx + 1])
                .and_then(|z| z.compose(&e_i[idx]));
            assert!(
                asserted(
                    prod_iji,
                    Ok(e_i[idx].clone()),
                    |j, k| j.is_def_tl() && k.is_def_tl(),
                    "e_i e_(i+1) e_i = e_i",
                ),
                "e_i e_(i+1) e_i = e_i"
            );
        }
        if idx > 1 {
            let prod_iji = e_i[idx]
                .compose(&e_i[idx - 1])
                .and_then(|z| z.compose(&e_i[idx]));
            assert!(
                asserted(
                    prod_iji,
                    Ok(e_i[idx].clone()),
                    |j, k| j.is_def_tl() && k.is_def_tl(),
                    "e_i e_(i-1) e_i = e_i",
                ),
                "e_i e_(i-1) e_i = e_i"
            );
        }
        for jdx in idx + 2..e_i.len() {
            let prod_ij = e_i[idx].compose(&e_i[jdx]);
            let prod_ji = e_i[jdx].compose(&e_i[idx]);
            assert!(
                asserted(
                    prod_ij,
                    prod_ji,
                    |j, k| j.is_def_tl() && k.is_def_tl(),
                    "e_i e_j = e_j e_i",
                ),
                "e_i e_j = e_j e_i"
            );
        }
    }
}

#[test]
fn wiki_example() {
    let e_i = BrauerMorphism::<Complex>::temperley_lieb_gens(5);
    let zero_complex = Complex::zero();
    let one_complex = Complex::one();
    let prod_1432 = e_i[0]
        .compose(&e_i[3])
        .and_then(|z| z.compose(&e_i[2]))
        .and_then(|z| z.compose(&e_i[1]));
    let prod_243 = e_i[1].compose(&e_i[3]).and_then(|z| z.compose(&e_i[2]));
    let prod_143243 = e_i[0]
        .compose(&e_i[3])
        .and_then(|z| z.compose(&e_i[2]))
        .and_then(|z| z.compose(&e_i[1]))
        .and_then(|z| z.compose(&e_i[3]))
        .and_then(|z| z.compose(&e_i[2]));
    let observed = prod_1432.and_then(|z| match prod_243 {
        Ok(real_prod_243) => z.compose(&real_prod_243),
        Err(e) => Err(e),
    });
    let mut expected = BrauerMorphism::<Complex>::delta_polynomial(&[zero_complex, one_complex]);
    simplify(&mut expected);

    match (observed, prod_143243) {
        (Ok(real_obs), Ok(exp_wo_delta)) => {
            assert!(real_obs.is_def_tl());
            expected.monoidal(exp_wo_delta);
            assert!(expected.is_def_tl());
            assert!(PartialEq::eq(&real_obs, &expected));
        }
        _ => {
            panic!("Error in composition when checking (e_1 e_4 e_3 e_2) (e_2 e_4 e_3) = delta e_1 e_4 e_3 e_2 e_4 e_3")
        }
    }
}

#[test]
fn sym_relations() {
    let n = 7;
    let s_i = BrauerMorphism::<Complex>::symmetric_alg_gens(n);
    let one_poly_coeffs = [Complex::one()];
    let identity = BrauerMorphism::<Complex>::identity(&n);
    for idx in 0..n - 1 {
        assert!(!s_i[idx].is_def_tl());
        let s_i_dag = s_i[idx].dagger(|z| z.conj());
        assert!(
            PartialEq::eq(&s_i[idx], &s_i_dag),
            "{:?} vs {:?} when checking self adjointness of s_i",
            s_i[idx],
            s_i_dag
        );
        let s_is_i = s_i[idx].compose(&s_i[idx]);
        assert!(
            asserted(
                s_is_i,
                Ok(identity.clone()),
                |j, k| !j.is_def_tl() && k.is_def_tl(),
                "s_i s_i = 1",
            ),
            "s_i s_i = 1"
        );
        if idx < n - 2 {
            let s_is_js_i = test_helper(
                &[],
                &s_i,
                &[Right(idx), Right(idx + 1), Right(idx)],
                &one_poly_coeffs,
            );
            let s_js_is_j = test_helper(
                &[],
                &s_i,
                &[Right(idx + 1), Right(idx), Right(idx + 1)],
                &one_poly_coeffs,
            );
            assert!(
                asserted(
                    s_is_js_i,
                    s_js_is_j,
                    |j, k| !j.is_def_tl() && !k.is_def_tl(),
                    "s_i s_(i+1) s_i = s_(i+1) s_i s_(i+1)",
                ),
                "s_i s_(i+1) s_i = s_(i+1) s_i s_(i+1)"
            );
        }
        if idx > 1 {
            let s_is_js_i = test_helper(
                &[],
                &s_i,
                &[Right(idx), Right(idx - 1), Right(idx)],
                &one_poly_coeffs,
            );
            let s_js_is_j = test_helper(
                &[],
                &s_i,
                &[Right(idx - 1), Right(idx), Right(idx - 1)],
                &one_poly_coeffs,
            );
            assert!(
                asserted(
                    s_is_js_i,
                    s_js_is_j,
                    |j, k| !j.is_def_tl() && !k.is_def_tl(),
                    "s_i s_(i-1) s_i = s_(i-1) s_i s_(i-1)",
                ),
                "s_i s_(i-1) s_i = s_(i-1) s_i s_(i-1)"
            );
        }
        for jdx in idx + 2..s_i.len() {
            let prod_ij = s_i[idx].compose(&s_i[jdx]);
            let prod_ji = s_i[jdx].compose(&s_i[idx]);
            assert!(
                asserted(
                    prod_ij,
                    prod_ji,
                    |j, k| !j.is_def_tl() && !k.is_def_tl(),
                    "s_i s_j = s_j s_i",
                ),
                "s_i s_j = s_j s_i"
            );
        }
    }
}

#[test]
fn tangle_relations() {
    let n = 7;
    let s_i = BrauerMorphism::<Complex>::symmetric_alg_gens(n);
    let e_i = BrauerMorphism::<Complex>::temperley_lieb_gens(n);
    let one_poly_coeffs = [Complex::one()];
    for idx in 0..n - 1 {
        let e_is_i = e_i[idx].compose(&s_i[idx]);
        let s_ie_i: Result<BrauerMorphism<Complex>, DiagramError> = s_i[idx].compose(&e_i[idx]);
        assert!(
            asserted(
                e_is_i,
                Ok(e_i[idx].clone()),
                |j, k| !j.is_def_tl() && k.is_def_tl(),
                "e_i s_i = e_i",
            ),
            "e_i s_i = e_i"
        );
        assert!(
            asserted(
                s_ie_i,
                Ok(e_i[idx].clone()),
                |j, k| !j.is_def_tl() && k.is_def_tl(),
                "s_i e_i = e_i",
            ),
            "s_i e_i = e_i"
        );
        if idx < n - 2 {
            let s_is_je_i = test_helper(
                &e_i,
                &s_i,
                &[Right(idx), Right(idx + 1), Left(idx)],
                &one_poly_coeffs,
            );
            let e_je_i = test_helper(&e_i, &s_i, &[Left(idx + 1), Left(idx)], &one_poly_coeffs);
            assert!(
                asserted(
                    s_is_je_i,
                    e_je_i,
                    |j, k| !j.is_def_tl() && k.is_def_tl(),
                    "s_i s_(i+1) e_i = e_(i+1) e_i",
                ),
                "s_i s_(i+1) e_i = e_(i+1) e_i"
            );
            let e_is_je_i = test_helper(
                &e_i,
                &s_i,
                &[Left(idx), Right(idx + 1), Left(idx)],
                &one_poly_coeffs,
            );
            assert!(
                asserted(
                    e_is_je_i,
                    Ok(e_i[idx].clone()),
                    |j, k| !j.is_def_tl() && k.is_def_tl(),
                    "e_i s_(i+1) e_i = e_i",
                ),
                "e_i s_(i+1) e_i = e_i"
            );
        }
        if idx > 1 {
            let s_is_je_i = test_helper(
                &e_i,
                &s_i,
                &[Right(idx), Right(idx - 1), Left(idx)],
                &one_poly_coeffs,
            );
            let e_je_i = test_helper(&e_i, &s_i, &[Left(idx - 1), Left(idx)], &one_poly_coeffs);
            assert!(
                asserted(
                    s_is_je_i,
                    e_je_i,
                    |j, k| !j.is_def_tl() && k.is_def_tl(),
                    "s_i s_(i-1) e_i = e_(i-1) e_i",
                ),
                "s_i s_(i-1) e_i = e_(i-1) e_i"
            );
            let e_is_je_i = test_helper(
                &e_i,
                &s_i,
                &[Left(idx), Right(idx - 1), Left(idx)],
                &one_poly_coeffs,
            );
            assert!(
                asserted(
                    e_is_je_i,
                    Ok(e_i[idx].clone()),
                    |j, k| !j.is_def_tl() && k.is_def_tl(),
                    "e_i s_(i-1) e_i = e_i",
                ),
                "e_i s_(i-1) e_i = e_i"
            );
        }
        for jdx in idx + 2..s_i.len() {
            let prod_ij = s_i[idx].compose(&e_i[jdx]);
            let prod_ji = e_i[jdx].compose(&s_i[idx]);
            assert!(
                asserted(
                    prod_ij,
                    prod_ji,
                    |j, k| !j.is_def_tl() && !k.is_def_tl(),
                    "s_i e_j = e_j s_i",
                ),
                "s_i e_j = e_j s_i"
            );
        }
    }
}
