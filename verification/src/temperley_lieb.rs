//! Morphisms of the Brauer category: linear combinations of diagrams, each
//! with a power of the loop value, between two numbers of points.

use vstd::prelude::*;
use std::ops::{AddAssign, MulAssign};
use crate::category::{Composable, HasIdentity};
use crate::coefficient::Coefficient;
use crate::error::DiagramError;
use crate::glue::{closed_loops, glued_pairs, ExtendedPerfectMatching};
use crate::linear_combination::{
    accumulate, bilinear_terms, has_key, keys_distinct, lemma_accumulate_dom,
    lemma_bilinear_terms_views, lemma_product_is_bilinear, lemma_product_terms_index,
    lemma_terms_to_map_at, product_terms, simplified_map, terms_to_map, LinearCombination,
};
use crate::matching::{
    canonical_form, covered, flipped, identity_pairs, is_canonical, is_matching,
    lemma_canonical_form_of_canonical, lemma_canonical_unique, lemma_identity_pairs,
    lemma_paired_is_partner, lemma_stacked_is_matching, paired, stacked, PerfectMatching,
};
use crate::monoidal::{Monoidal, MonoidalMorphism};
use crate::pair::Pair;
use crate::planarity::non_crossing_spec;

verus! {

/// Every key is a canonical matching on `source + target` endpoints.
pub open spec fn keys_fit<T>(m: Map<(usize, Seq<Pair>), T>, source: int, target: int) -> bool {
    forall|k: (usize, Seq<Pair>)| #[trigger]
        m.dom().contains(k) ==> is_matching(k.1) && is_canonical(k.1) && 2 * k.1.len() == source
            + target
}

/// The key of the composite of two diagrams, the first with `d` domain
/// points: the powers of the loop value add up with the number of closed
/// loops, and the matching is that of the glued diagram.
pub open spec fn composed_key(a: (usize, Seq<Pair>), b: (usize, Seq<Pair>), d: int) -> (
    usize,
    Seq<Pair>,
) {
    ((a.0 + b.0 + closed_loops(a.1, b.1, d)) as usize, glued_pairs(a.1, b.1, d))
}

/// The function that makes the key of the composite of two keys, where the
/// first diagram has `d` domain points.
pub open spec fn composer(d: int) -> spec_fn((usize, Seq<Pair>), (usize, Seq<Pair>)) -> (
    usize,
    Seq<Pair>,
) {
    |a: (usize, Seq<Pair>), b: (usize, Seq<Pair>)| composed_key(a, b, d)
}

/// The key of two diagrams placed side by side: the powers of the loop value
/// add up, and the matching is the canonical form of the stacked pairs.
pub open spec fn tensor_key(
    a: (usize, Seq<Pair>),
    b: (usize, Seq<Pair>),
    s1: int,
    t1: int,
    s2: int,
) -> (usize, Seq<Pair>) {
    ((a.0 + b.0) as usize, canonical_form(stacked(a.1, b.1, s1, t1, s2)))
}

/// The pairs of the Temperley-Lieb generator `e_(i+1)` on `n` points: a cup
/// on the domain points `i` and `i + 1`, a cap on the codomain points above
/// them, and straight lines elsewhere.
pub open spec fn cup_cap_pairs(n: nat, i: nat) -> Seq<Pair> {
    Seq::new(
        n,
        |j: int|
            if j == i {
                Pair(i as usize, (i + 1) as usize)
            } else if j == i + 1 {
                Pair((i + n) as usize, (i + 1 + n) as usize)
            } else {
                Pair(j as usize, (j + n) as usize)
            },
    )
}

/// The pairs of the generator `s_(i+1)` of the symmetric group on `n`
/// points: the lines from the domain points `i` and `i + 1` cross, the
/// others are straight.
pub open spec fn swap_pairs(n: nat, i: nat) -> Seq<Pair> {
    Seq::new(
        n,
        |j: int|
            if j == i {
                Pair(i as usize, (i + n + 1) as usize)
            } else if j == i + 1 {
                Pair((i + 1) as usize, (i + n) as usize)
            } else {
                Pair(j as usize, (j + n) as usize)
            },
    )
}

/// The pairs of a Temperley-Lieb generator form a matching.
pub proof fn lemma_cup_cap_pairs(n: nat, i: nat)
    requires
        i + 1 < n,
        2 * n <= usize::MAX,
    ensures
        is_matching(cup_cap_pairs(n, i)),
{
    let s = cup_cap_pairs(n, i);
    assert forall|v: int| 0 <= v < 2 * s.len() implies #[trigger] covered(s, v) by {
        if v < n {
            if v == i || v == i + 1 {
                assert(s[i as int].touches(v));
            } else {
                assert(s[v].touches(v));
            }
        } else {
            let w = v - n;
            if w == i || w == i + 1 {
                assert(s[(i + 1) as int].touches(v));
            } else {
                assert(s[w].touches(v));
            }
        }
    }
}

/// The pairs of a generator of the symmetric group form a matching.
pub proof fn lemma_swap_pairs(n: nat, i: nat)
    requires
        i + 1 < n,
        2 * n <= usize::MAX,
    ensures
        is_matching(swap_pairs(n, i)),
{
    let s = swap_pairs(n, i);
    assert forall|v: int| 0 <= v < 2 * s.len() implies #[trigger] covered(s, v) by {
        if v < n {
            assert(s[v].touches(v));
        } else {
            let w = v - n;
            if w == i {
                assert(s[(i + 1) as int].touches(v));
            } else if w == i + 1 {
                assert(s[i as int].touches(v));
            } else {
                assert(s[w].touches(v));
            }
        }
    }
}

/// The terms of the polynomial with the coefficients `coeffs` in the loop
/// value: one term for every coefficient, the empty diagram with power `k`
/// and the coefficient `coeffs[k]`. Without coefficients there is no term.
pub open spec fn delta_map<T: Coefficient>(coeffs: Seq<T>) -> Map<(usize, Seq<Pair>), T> {
    Map::new(
        |k: (usize, Seq<Pair>)| k.1 == Seq::<Pair>::empty() && k.0 < coeffs.len(),
        |k: (usize, Seq<Pair>)| coeffs[k.0 as int],
    )
}

/// The key of a diagram turned over: the same power of the loop value, and
/// the canonical form of the turned pairs.
pub open spec fn flipped_key(k: (usize, Seq<Pair>), source: int, target: int) -> (usize, Seq<Pair>) {
    (k.0, canonical_form(flipped(k.1, source, target)))
}

/// A morphism from `source` points to `target` points: a formal sum of
/// diagrams, each a matching with a power of the loop value.
#[derive(Debug)]
pub struct BrauerMorphism<T: Coefficient> {
    diagram: LinearCombination<T, (usize, PerfectMatching)>,
    source: usize,
    target: usize,
    is_def_tl: bool,
}

impl<T: Coefficient> View for BrauerMorphism<T> {
    type V = Map<(usize, Seq<Pair>), T>;

    open spec fn view(&self) -> Map<(usize, Seq<Pair>), T> {
        terms_to_map(self.terms())
    }
}

impl<T: Coefficient> BrauerMorphism<T> {
    /// The terms in the order in which they are stored: a power of the loop
    /// value and a matching, with the coefficient.
    pub closed spec fn terms(&self) -> Seq<((usize, PerfectMatching), T)> {
        self.diagram.entries()
    }

    /// The number of domain points.
    pub closed spec fn spec_domain(&self) -> usize {
        self.source
    }

    /// The number of codomain points.
    pub closed spec fn spec_codomain(&self) -> usize {
        self.target
    }

    /// Whether the morphism is marked as free of crossings.
    pub closed spec fn known_non_crossing(&self) -> bool {
        self.is_def_tl
    }

    /// Every term is a canonical matching on the points of the morphism, no
    /// matching with its power occurs twice, and the points of the two sides
    /// can be numbered together by a machine integer.
    #[verifier::type_invariant]
    pub open spec fn well_formed(self) -> bool {
        &&& keys_distinct(self.terms())
        &&& keys_fit(self@, self.spec_domain() as int, self.spec_codomain() as int)
        &&& self.spec_domain() + self.spec_codomain() <= usize::MAX
    }

    /// The morphism with the one diagram `matching`, with coefficient one and
    /// no power of the loop value.
    fn single(matching: PerfectMatching, source: usize, target: usize, is_def_tl: bool) -> (r:
        Self)
        requires
            matching.well_formed(),
            2 * matching@.len() == source + target,
            source + target <= usize::MAX,
        ensures
            r.spec_domain() == source,
            r.spec_codomain() == target,
            r.known_non_crossing() == is_def_tl,
            r@ == Map::<(usize, Seq<Pair>), T>::empty().insert((0usize, matching@), T::ring_one()),
            r.terms().len() == 1,
            r.terms()[0].0@ == (0usize, matching@),
            r.terms()[0].1 == T::ring_one(),
    {
        let diagram = LinearCombination::singleton((0usize, matching));
        proof {
            use_type_invariant(&diagram);
        }
        BrauerMorphism { diagram, source, target, is_def_tl }
    }

    /// The Temperley-Lieb generators `e_1`, ..., `e_(n-1)` as morphisms from
    /// `n` points to `n` points. They are marked as free of crossings.
    pub fn temperley_lieb_gens(n: usize) -> (r: Vec<Self>)
        requires
            1 <= n,
            2 * n <= usize::MAX,
        ensures
            r@.len() == n - 1,
            forall|i: int|
                0 <= i < n - 1 ==> {
                    &&& (#[trigger] r@[i]).spec_domain() == n
                    &&& r@[i].spec_codomain() == n
                    &&& r@[i].known_non_crossing()
                    &&& r@[i]@ == Map::<(usize, Seq<Pair>), T>::empty().insert(
                        (0usize, canonical_form(cup_cap_pairs(n as nat, i as nat))),
                        T::ring_one(),
                    )
                },
    {
        let mut gens: Vec<Self> = Vec::new();
        let mut i: usize = 0;
        while i < n - 1
            invariant
                1 <= n,
                2 * n <= usize::MAX,
                i <= n - 1,
                gens@.len() == i,
                forall|k: int|
                    0 <= k < i ==> {
                        &&& (#[trigger] gens@[k]).spec_domain() == n
                        &&& gens@[k].spec_codomain() == n
                        &&& gens@[k].known_non_crossing()
                        &&& gens@[k]@ == Map::<(usize, Seq<Pair>), T>::empty().insert(
                            (0usize, canonical_form(cup_cap_pairs(n as nat, k as nat))),
                            T::ring_one(),
                        )
                    },
            decreases n - 1 - i,
        {
            let mut pairs: Vec<Pair> = Vec::new();
            let mut j: usize = 0;
            while j < n
                invariant
                    j <= n,
                    i + 1 < n,
                    2 * n <= usize::MAX,
                    pairs@.len() == j,
                    forall|k: int|
                        0 <= k < j ==> #[trigger] pairs@[k] == cup_cap_pairs(n as nat, i as nat)[k],
                decreases n - j,
            {
                let p = if j == i {
                    Pair(i, i + 1)
                } else if j == i + 1 {
                    Pair(i + n, i + 1 + n)
                } else {
                    Pair(j, j + n)
                };
                pairs.push(p);
                j += 1;
            }
            proof {
                assert(pairs@ =~= cup_cap_pairs(n as nat, i as nat));
                lemma_cup_cap_pairs(n as nat, i as nat);
            }
            let matching = PerfectMatching::from_valid(pairs);
            gens.push(Self::single(matching, n, n, true));
            i += 1;
        }
        gens
    }

    /// The generators `s_1`, ..., `s_(n-1)` of the symmetric group as
    /// morphisms from `n` points to `n` points. They are not marked as free
    /// of crossings.
    pub fn symmetric_alg_gens(n: usize) -> (r: Vec<Self>)
        requires
            1 <= n,
            2 * n + 1 <= usize::MAX,
        ensures
            r@.len() == n - 1,
            forall|i: int|
                0 <= i < n - 1 ==> {
                    &&& (#[trigger] r@[i]).spec_domain() == n
                    &&& r@[i].spec_codomain() == n
                    &&& !r@[i].known_non_crossing()
                    &&& r@[i]@ == Map::<(usize, Seq<Pair>), T>::empty().insert(
                        (0usize, canonical_form(swap_pairs(n as nat, i as nat))),
                        T::ring_one(),
                    )
                },
    {
        let mut gens: Vec<Self> = Vec::new();
        let mut i: usize = 0;
        while i < n - 1
            invariant
                1 <= n,
                2 * n + 1 <= usize::MAX,
                i <= n - 1,
                gens@.len() == i,
                forall|k: int|
                    0 <= k < i ==> {
                        &&& (#[trigger] gens@[k]).spec_domain() == n
                        &&& gens@[k].spec_codomain() == n
                        &&& !gens@[k].known_non_crossing()
                        &&& gens@[k]@ == Map::<(usize, Seq<Pair>), T>::empty().insert(
                            (0usize, canonical_form(swap_pairs(n as nat, k as nat))),
                            T::ring_one(),
                        )
                    },
            decreases n - 1 - i,
        {
            let mut pairs: Vec<Pair> = Vec::new();
            let mut j: usize = 0;
            while j < n
                invariant
                    j <= n,
                    i + 1 < n,
                    2 * n + 1 <= usize::MAX,
                    pairs@.len() == j,
                    forall|k: int|
                        0 <= k < j ==> #[trigger] pairs@[k] == swap_pairs(n as nat, i as nat)[k],
                decreases n - j,
            {
                let p = if j == i {
                    Pair(i, i + n + 1)
                } else if j == i + 1 {
                    Pair(i + 1, i + n)
                } else {
                    Pair(j, j + n)
                };
                pairs.push(p);
                j += 1;
            }
            proof {
                assert(pairs@ =~= swap_pairs(n as nat, i as nat));
                lemma_swap_pairs(n as nat, i as nat);
            }
            let matching = PerfectMatching::from_valid(pairs);
            gens.push(Self::single(matching, n, n, false));
            i += 1;
        }
        gens
    }

    /// The morphism from no points to no points that is the polynomial with
    /// the coefficients `coeffs` in the loop value.
    pub fn delta_polynomial(coeffs: &[T]) -> (r: Self)
        ensures
            r.spec_domain() == 0,
            r.spec_codomain() == 0,
            r.known_non_crossing(),
            r@ == delta_map(coeffs@),
    {
        let mut diagram: LinearCombination<T, (usize, PerfectMatching)> = LinearCombination::new();
        proof {
            assert(diagram@ =~= delta_map(coeffs@.take(0)));
        }
        let mut idx: usize = 0;
        while idx < coeffs.len()
            invariant
                idx <= coeffs@.len(),
                diagram@ == delta_map(coeffs@.take(idx as int)),
            decreases coeffs@.len() - idx,
        {
            let cur_coeff = coeffs[idx];
            let mut cur_diagram: LinearCombination<T, (usize, PerfectMatching)> =
                LinearCombination::singleton((idx, PerfectMatching::empty()));
            cur_diagram.mul_assign(cur_coeff);
            diagram.add_assign(cur_diagram);
            proof {
                T::lemma_mul_one(cur_coeff);
                assert(diagram@ =~= delta_map(coeffs@.take(idx + 1)));
            }
            idx += 1;
        }
        proof {
            use_type_invariant(&diagram);
            assert(coeffs@.take(coeffs@.len() as int) =~= coeffs@);
        }
        BrauerMorphism { diagram, source: 0, target: 0, is_def_tl: true }
    }

    /// The adjoint: every diagram is turned over, so that domain and codomain
    /// change places, and every coefficient `c` becomes `num_dagger(c)`.
    pub fn dagger<F: Fn(T) -> T>(&self, num_dagger: F) -> (r: Self)
        requires
            forall|i: int|
                0 <= i < self.terms().len() ==> call_requires(
                    num_dagger,
                    (#[trigger] self.terms()[i].1,),
                ),
        ensures
            r.spec_domain() == self.spec_codomain(),
            r.spec_codomain() == self.spec_domain(),
            r.known_non_crossing() == self.known_non_crossing(),
            r.terms().len() == self.terms().len(),
            forall|i: int|
                0 <= i < self.terms().len() ==> (#[trigger] r.terms()[i]).0@ == flipped_key(
                    self.terms()[i].0@,
                    self.spec_domain() as int,
                    self.spec_codomain() as int,
                ) && call_ensures(num_dagger, (self.terms()[i].1,), r.terms()[i].1),
    {
        proof {
            use_type_invariant(self);
        }
        let s = self.source;
        let t = self.target;
        let flip = |k: &(usize, PerfectMatching)| -> (r: (usize, PerfectMatching))
            requires
                k.1.well_formed(),
                s + t == 2 * k.1@.len(),
                s + t <= usize::MAX,
            ensures
                r@ == flipped_key(k@, s as int, t as int),
                r.1.well_formed(),
                r.1@.len() == k.1@.len(),
                forall|x: int, y: int|
                    0 <= x < s + t && 0 <= y < s + t ==> (#[trigger] paired(k.1@, x, y) <==> paired(
                        r.1@,
                        Pair::flip_index(x, s as int, t as int),
                        Pair::flip_index(y, s as int, t as int),
                    )),
            { (k.0, k.1.flip_upside_down(s, t)) };
        let ghost terms = self.diagram.entries();
        proof {
            assert forall|i: int| 0 <= i < terms.len() implies call_requires(
                flip,
                (&#[trigger] terms[i].0,),
            ) by {
                lemma_terms_to_map_at(terms, i);
                assert(self@.dom().contains(terms[i].0@));
            }
        }
        match self.diagram.inj_linearly_extend(flip) {
            Ok(turned) => {
                let mut diagram = turned;
                let ghost keys = diagram.entries();
                diagram.change_coeffs(num_dagger);
                proof {
                    use_type_invariant(&diagram);
                    let after = diagram.entries();
                    assert forall|k: (usize, Seq<Pair>)| #[trigger]
                        diagram@.dom().contains(k) implies is_matching(k.1) && is_canonical(k.1)
                        && 2 * k.1.len() == t + s by {
                        assert(has_key(after, k));
                        let i = choose|i: int| 0 <= i < after.len() && #[trigger] after[i].0@ == k;
                        assert(after[i].0 == keys[i].0);
                        assert(call_ensures(flip, (&terms[i].0,), keys[i].0));
                        lemma_terms_to_map_at(terms, i);
                        assert(self@.dom().contains(terms[i].0@));
                    }
                    assert forall|i: int| 0 <= i < terms.len() implies (#[trigger] after[i]).0@
                        == flipped_key(terms[i].0@, s as int, t as int) && call_ensures(
                        num_dagger,
                        (terms[i].1,),
                        after[i].1,
                    ) by {
                        assert(after[i].0 == keys[i].0);
                        assert(call_ensures(flip, (&terms[i].0,), keys[i].0));
                        assert(keys[i].1 == terms[i].1);
                    }
                    assert(keys_distinct(diagram.entries()));
                    assert(keys_fit(diagram@, t as int, s as int));
                }
                BrauerMorphism { diagram, source: t, target: s, is_def_tl: self.is_def_tl }
            },
            Err(_) => {
                proof {
                    let (i, j, a, b) = choose|
                        i: int,
                        j: int,
                        a: (usize, PerfectMatching),
                        b: (usize, PerfectMatching),
                    |
                        0 <= i < j < terms.len() && #[trigger] call_ensures(flip, (&terms[i].0,), a)
                            && #[trigger] call_ensures(flip, (&terms[j].0,), b) && a@ == b@;
                    let ki = terms[i].0;
                    let kj = terms[j].0;
                    lemma_terms_to_map_at(terms, i);
                    lemma_terms_to_map_at(terms, j);
                    assert(self@.dom().contains(ki@));
                    assert(self@.dom().contains(kj@));
                    assert forall|x: int, y: int| #[trigger]
                        paired(ki.1@, x, y) <==> paired(kj.1@, x, y) by {
                        if paired(ki.1@, x, y) {
                            lemma_paired_is_partner(ki.1@, x, y);
                            assert(paired(
                                a.1@,
                                Pair::flip_index(x, s as int, t as int),
                                Pair::flip_index(y, s as int, t as int),
                            ));
                            assert(paired(kj.1@, x, y));
                        }
                        if paired(kj.1@, x, y) {
                            lemma_paired_is_partner(kj.1@, x, y);
                            assert(paired(
                                b.1@,
                                Pair::flip_index(x, s as int, t as int),
                                Pair::flip_index(y, s as int, t as int),
                            ));
                            assert(paired(ki.1@, x, y));
                        }
                    }
                    lemma_canonical_unique(ki.1@, kj.1@);
                    assert(ki@ == kj@);
                    assert(false);
                }
                self.clone()
            },
        }
    }

    /// The number of terms, those with coefficient zero among them.
    pub fn term_count(&self) -> (n: usize)
        ensures
            n == self.terms().len(),
    {
        self.diagram.len()
    }

    /// The coefficient of the diagram `matching` with the power `delta_power`
    /// of the loop value, if the morphism holds that term.
    pub fn coefficient(&self, delta_power: usize, matching: &PerfectMatching) -> (r: Option<T>)
        ensures
            match r {
                Some(c) => self@.dom().contains((delta_power, matching@)) && self@[(
                    delta_power,
                    matching@,
                )] == c,
                None => !self@.dom().contains((delta_power, matching@)),
            },
    {
        let key = (delta_power, matching.clone());
        self.diagram.coefficient(&key)
    }

    /// Whether the morphism is marked as free of crossings. The mark is set
    /// where a morphism is built without crossings, kept where both operands
    /// have it, and set by `set_is_tl` after testing every term.
    pub fn is_def_tl(&self) -> (b: bool)
        ensures
            b == self.known_non_crossing(),
    {
        self.is_def_tl
    }

    /// Whether the two morphisms have the same sizes and the same terms with
    /// the same coefficients.
    pub open spec fn same_morphism(&self, other: &Self) -> bool {
        self@ == other@ && self.spec_domain() == other.spec_domain() && self.spec_codomain()
            == other.spec_codomain()
    }

    /// If not yet marked, tests every term for crossings and marks the
    /// morphism where none has one. A mark is never taken away.
    pub fn set_is_tl(&mut self)
        ensures
            final(self).terms() == old(self).terms(),
            final(self).spec_domain() == old(self).spec_domain(),
            final(self).spec_codomain() == old(self).spec_codomain(),
            final(self).known_non_crossing() == (old(self).known_non_crossing() || forall|i: int|
                0 <= i < old(self).terms().len() ==> non_crossing_spec(
                    (#[trigger] old(self).terms()[i]).0.1@,
                    old(self).spec_domain() as int,
                )),
    {
        if self.is_def_tl {
            return ;
        }
        let source = self.source;
        let target = self.target;
        let test = |k: &(usize, PerfectMatching)| -> (b: bool)
            ensures
                b == non_crossing_spec(k.1@, source as int),
            { k.1.non_crossing(source, target) };
        let all = self.diagram.all_terms_satisfy(test);
        proof {
            use_type_invariant(&*self);
        }
        self.is_def_tl = all;
    }
}

/// Removes every term whose coefficient is zero.
pub fn simplify<T: Coefficient>(me: &mut BrauerMorphism<T>)
    ensures
        final(me)@ == simplified_map(old(me)@),
        final(me).spec_domain() == old(me).spec_domain(),
        final(me).spec_codomain() == old(me).spec_codomain(),
        final(me).known_non_crossing() == old(me).known_non_crossing(),
{
    proof {
        use_type_invariant(&*me);
    }
    let mut diagram = me.diagram.clone();
    diagram.simplify();
    proof {
        use_type_invariant(&diagram);
    }
    *me = BrauerMorphism {
        diagram,
        source: me.source,
        target: me.target,
        is_def_tl: me.is_def_tl,
    };
}

impl<T: Coefficient> Clone for BrauerMorphism<T> {
    fn clone(&self) -> (r: Self)
        ensures
            r@ == self@,
            r.spec_domain() == self.spec_domain(),
            r.spec_codomain() == self.spec_codomain(),
            r.known_non_crossing() == self.known_non_crossing(),
    {
        proof {
            use_type_invariant(self);
        }
        let diagram = self.diagram.clone();
        proof {
            use_type_invariant(&diagram);
        }
        BrauerMorphism { diagram, source: self.source, target: self.target, is_def_tl: self.is_def_tl }
    }
}

impl<T: Coefficient> PartialEq for BrauerMorphism<T> {
    fn eq(&self, other: &Self) -> (b: bool) {
        self.diagram == other.diagram && self.source == other.source && self.target == other.target
    }
}

impl<T: Coefficient> vstd::std_specs::cmp::PartialEqSpecImpl for BrauerMorphism<T> {
    open spec fn obeys_eq_spec() -> bool {
        true
    }

    open spec fn eq_spec(&self, other: &Self) -> bool {
        self.same_morphism(other)
    }
}

impl<T: Coefficient> HasIdentity<usize> for BrauerMorphism<T> {
    open spec fn identity_req(on_this: &usize) -> bool {
        2 * (*on_this) <= usize::MAX
    }

    /// The identity on `on_this` points: one diagram, which joins every
    /// domain point to the codomain point above it.
    fn identity(on_this: &usize) -> (r: Self)
        ensures
            r.spec_domain() == *on_this,
            r.spec_codomain() == *on_this,
            r.known_non_crossing(),
            r@ == Map::<(usize, Seq<Pair>), T>::empty().insert(
                (0usize, identity_pairs(*on_this as nat)),
                T::ring_one(),
            ),
            r.terms().len() == 1,
            r.terms()[0].0@ == (0usize, identity_pairs(*on_this as nat)),
            r.terms()[0].1 == T::ring_one(),
    {
        let n = *on_this;
        let mut pairs: Vec<Pair> = Vec::new();
        let mut x: usize = 0;
        while x < n
            invariant
                x <= n,
                2 * n <= usize::MAX,
                pairs@.len() == x,
                forall|i: int| 0 <= i < x ==> #[trigger] pairs@[i] == Pair(i as usize, (i + n) as usize),
            decreases n - x,
        {
            pairs.push(Pair(x, x + n));
            x += 1;
        }
        proof {
            assert(pairs@ =~= identity_pairs(n as nat));
            lemma_identity_pairs(n as nat);
            lemma_canonical_form_of_canonical(identity_pairs(n as nat));
        }
        let matching = PerfectMatching::from_valid(pairs);
        Self::single(matching, n, n, true)
    }
}

impl<T: Coefficient> Composable<usize> for BrauerMorphism<T> {
    /// The glued graphs must fit the indices of the graph library, and the
    /// powers of the loop value must fit `usize`.
    open spec fn compose_req(&self, other: &Self) -> bool {
        &&& self.spec_domain() + self.spec_codomain() + other.spec_codomain() <= u32::MAX
        &&& forall|i: int, j: int|
            0 <= i < self.terms().len() && 0 <= j < other.terms().len() ==> (
            #[trigger] self.terms()[i]).0.0 + (#[trigger] other.terms()[j]).0.0
                + self.spec_domain() + self.spec_codomain() + other.spec_codomain() <= usize::MAX
    }

    fn composable(&self, other: &Self) -> (r: Result<(), DiagramError>)
        ensures
            r is Ok <==> self.spec_codomain() == other.spec_domain(),
            r is Err ==> r == Err::<(), DiagramError>(DiagramError::CompositionArityMismatch),
    {
        if self.target == other.source {
            Ok(())
        } else {
            Err(DiagramError::CompositionArityMismatch)
        }
    }

    /// The composite, `self` first: every diagram of `self` is glued to
    /// every diagram of `other`, with the product of the two coefficients,
    /// and equal diagrams add up.
    fn compose(&self, other: &Self) -> (r: Result<Self, DiagramError>)
        ensures
            match r {
                Ok(c) => {
                    &&& self.spec_codomain() == other.spec_domain()
                    &&& c.spec_domain() == self.spec_domain()
                    &&& c.spec_codomain() == other.spec_codomain()
                    &&& c.known_non_crossing() == (self.known_non_crossing()
                        && other.known_non_crossing())
                    &&& c@ == accumulate(
                        bilinear_terms(
                            self.terms(),
                            other.terms(),
                            composer(self.spec_domain() as int),
                            self.terms().len(),
                        ),
                    )
                },
                Err(e) => e == DiagramError::CompositionArityMismatch && self.spec_codomain()
                    != other.spec_domain(),
            },
    {
        if self.target != other.source {
            return Err(DiagramError::CompositionArityMismatch);
        }
        proof {
            use_type_invariant(self);
            use_type_invariant(other);
        }
        let s = self.source;
        let t = self.target;
        let u = other.target;
        let combiner = |a: &(usize, PerfectMatching), b: &(usize, PerfectMatching)| -> (r: (
            usize,
            PerfectMatching,
        ))
            requires
                a.1.well_formed(),
                2 * a.1@.len() == s + t,
                b.1.well_formed(),
                2 * b.1@.len() == t + u,
                s + t + u <= u32::MAX,
                a.0 + b.0 + s + t + u <= usize::MAX,
            ensures
                r@ == composed_key(a@, b@, s as int),
                r.1.well_formed(),
                2 * r.1@.len() == s + u,
            {
                let left = ExtendedPerfectMatching {
                    domain: s,
                    codomain: t,
                    delta_power: a.0,
                    matching: a.1.clone(),
                };
                let right = ExtendedPerfectMatching {
                    domain: t,
                    codomain: u,
                    delta_power: b.0,
                    matching: b.1.clone(),
                };
                match left.glue(&right) {
                    Ok(g) => (g.delta_power, g.matching),
                    Err(_) => (0, PerfectMatching::empty()),
                }
            };
        let rhs = other.diagram.clone();
        let ghost lhs_terms = self.diagram.entries();
        let ghost rhs_terms = rhs.entries();
        proof {
            assert forall|i: int, j: int|
                0 <= i < lhs_terms.len() && 0 <= j < rhs_terms.len() implies call_requires(
                combiner,
                (&#[trigger] lhs_terms[i].0, &#[trigger] rhs_terms[j].0),
            ) by {
                lemma_terms_to_map_at(self.terms(), i);
                lemma_terms_to_map_at(other.terms(), j);
                assert(self@.dom().contains(lhs_terms[i].0@));
                assert(other@.dom().contains(other.terms()[j].0@));
                assert(rhs_terms[j].0@ == other.terms()[j].0@);
                assert(other.terms()[j].0.0 == rhs_terms[j].0.0);
            }
        }
        let diagram = self.diagram.linear_combine(rhs, combiner);
        proof {
            use_type_invariant(&diagram);
            let f = composer(s as int);
            let grid = choose|grid: Seq<Seq<(usize, PerfectMatching)>>|
                {
                    &&& grid.len() == lhs_terms.len()
                    &&& forall|i: int|
                        0 <= i < grid.len() ==> (#[trigger] grid[i]).len() == rhs_terms.len()
                    &&& forall|i: int, j: int|
                        0 <= i < lhs_terms.len() && 0 <= j < rhs_terms.len() ==> call_ensures(
                            combiner,
                            (&lhs_terms[i].0, &rhs_terms[j].0),
                            #[trigger] grid[i][j],
                        )
                    &&& diagram@ == accumulate(
                        #[trigger] product_terms(grid, lhs_terms, rhs_terms, lhs_terms.len()),
                    )
                };
            let rows = lhs_terms.len();
            let products = product_terms(grid, lhs_terms, rhs_terms, rows);
            lemma_product_is_bilinear(grid, lhs_terms, rhs_terms, f, rows);
            lemma_bilinear_terms_views(lhs_terms, rhs_terms, self.terms(), other.terms(), f, rows);
            assert forall|k: (usize, Seq<Pair>)| #[trigger]
                diagram@.dom().contains(k) implies is_matching(k.1) && is_canonical(k.1) && 2
                * k.1.len() == s + u by {
                lemma_accumulate_dom(products, k);
                let at = choose|at: int| 0 <= at < products.len() && (#[trigger] products[at]).0 == k;
                lemma_product_terms_index(grid, lhs_terms, rhs_terms, rows, at);
                let (i, j) = choose|i: int, j: int|
                    0 <= i < rows && 0 <= j < rhs_terms.len() && products[at].0
                        == (#[trigger] grid[i][j])@;
                assert(grid[i][j].1.well_formed());
            }
        }
        Ok(
            BrauerMorphism {
                diagram,
                source: s,
                target: u,
                is_def_tl: self.is_def_tl && other.is_def_tl,
            },
        )
    }

    fn domain(&self) -> (r: usize)
        ensures
            r == self.spec_domain(),
    {
        self.source
    }

    fn codomain(&self) -> (r: usize)
        ensures
            r == self.spec_codomain(),
    {
        self.target
    }
}

impl<T: Coefficient> Monoidal for BrauerMorphism<T> {
    /// The sizes and the powers of the loop value must fit `usize`.
    open spec fn monoidal_req(&self, other: &Self) -> bool {
        &&& self.spec_domain() + self.spec_codomain() + other.spec_domain() + other.spec_codomain()
            <= usize::MAX
        &&& forall|i: int, j: int|
            0 <= i < self.terms().len() && 0 <= j < other.terms().len() ==> (
            #[trigger] self.terms()[i]).0.0 + (#[trigger] other.terms()[j]).0.0 <= usize::MAX
    }

    /// The product of `self` and `other`: every diagram of `self` is placed
    /// beside every diagram of `other`, with the product of the two
    /// coefficients, and equal diagrams add up.
    fn monoidal(&mut self, other: Self)
        ensures
            final(self).spec_domain() == old(self).spec_domain() + other.spec_domain(),
            final(self).spec_codomain() == old(self).spec_codomain() + other.spec_codomain(),
            final(self).known_non_crossing() == (old(self).known_non_crossing()
                && other.known_non_crossing()),
            final(self)@ == accumulate(
                bilinear_terms(
                    old(self).terms(),
                    other.terms(),
                    |a: (usize, Seq<Pair>), b: (usize, Seq<Pair>)|
                        tensor_key(
                            a,
                            b,
                            old(self).spec_domain() as int,
                            old(self).spec_codomain() as int,
                            other.spec_domain() as int,
                        ),
                    old(self).terms().len(),
                ),
            ),
    {
        proof {
            use_type_invariant(&*self);
            use_type_invariant(&other);
        }
        let old_domain = self.source;
        let old_codomain = self.target;
        let other_domain = other.source;
        let other_codomain = other.target;
        let new_domain = old_domain + other_domain;
        let combiner = |a: &(usize, PerfectMatching), b: &(usize, PerfectMatching)| -> (r: (
            usize,
            PerfectMatching,
        ))
            requires
                a.1.well_formed(),
                2 * a.1@.len() == old_domain + old_codomain,
                b.1.well_formed(),
                2 * b.1@.len() == other_domain + other_codomain,
                old_domain + old_codomain + other_domain + other_codomain <= usize::MAX,
                new_domain == old_domain + other_domain,
                a.0 + b.0 <= usize::MAX,
            ensures
                r@ == tensor_key(
                    a@,
                    b@,
                    old_domain as int,
                    old_codomain as int,
                    other_domain as int,
                ),
                r.1.well_formed(),
                2 * r.1@.len() == old_domain + old_codomain + other_domain + other_codomain,
            {
                proof {
                    assert forall|i: int| 0 <= i < a.1@.len() implies (#[trigger] a.1@[i]).0 < 2
                        * a.1@.len() && a.1@[i].1 < 2 * a.1@.len() by {}
                    assert forall|i: int| 0 <= i < b.1@.len() implies (#[trigger] b.1@[i]).0 < 2
                        * b.1@.len() && b.1@[i].1 < 2 * b.1@.len() by {}
                }
                let mut new_matching = a.1.shift_index(old_domain, other_domain);
                let first_shift = b.1.shift_index(0, old_domain);
                proof {
                    assert forall|i: int| 0 <= i < first_shift@.len() implies (
                    #[trigger] first_shift@[i]).0 + old_codomain <= usize::MAX && first_shift@[i].1
                        + old_codomain <= usize::MAX by {
                        assert(b.1@[i].0 < 2 * b.1@.len());
                    }
                }
                let other_shifted = first_shift.shift_index(new_domain, old_codomain);
                new_matching.extend(other_shifted);
                proof {
                    lemma_stacked_is_matching(
                        a.1@,
                        b.1@,
                        old_domain as int,
                        old_codomain as int,
                        other_domain as int,
                        other_codomain as int,
                    );
                }
                new_matching.canonicalize();
                (a.0 + b.0, new_matching)
            };
        let ghost lhs_terms = self.diagram.entries();
        let ghost rhs_terms = other.diagram.entries();
        proof {
            assert forall|i: int, j: int|
                0 <= i < lhs_terms.len() && 0 <= j < rhs_terms.len() implies call_requires(
                combiner,
                (&#[trigger] lhs_terms[i].0, &#[trigger] rhs_terms[j].0),
            ) by {
                lemma_terms_to_map_at(self.terms(), i);
                lemma_terms_to_map_at(other.terms(), j);
                assert(self@.dom().contains(lhs_terms[i].0@));
                assert(other@.dom().contains(rhs_terms[j].0@));
            }
        }
        let is_def_tl = self.is_def_tl && other.is_def_tl;
        let diagram = self.diagram.linear_combine(other.diagram, combiner);
        proof {
            use_type_invariant(&diagram);
            let f = |a: (usize, Seq<Pair>), b: (usize, Seq<Pair>)|
                tensor_key(a, b, old_domain as int, old_codomain as int, other_domain as int);
            let grid = choose|grid: Seq<Seq<(usize, PerfectMatching)>>|
                {
                    &&& grid.len() == lhs_terms.len()
                    &&& forall|i: int|
                        0 <= i < grid.len() ==> (#[trigger] grid[i]).len() == rhs_terms.len()
                    &&& forall|i: int, j: int|
                        0 <= i < lhs_terms.len() && 0 <= j < rhs_terms.len() ==> call_ensures(
                            combiner,
                            (&lhs_terms[i].0, &rhs_terms[j].0),
                            #[trigger] grid[i][j],
                        )
                    &&& diagram@ == accumulate(
                        #[trigger] product_terms(grid, lhs_terms, rhs_terms, lhs_terms.len()),
                    )
                };
            let rows = lhs_terms.len();
            let products = product_terms(grid, lhs_terms, rhs_terms, rows);
            lemma_product_is_bilinear(grid, lhs_terms, rhs_terms, f, rows);
            assert forall|k: (usize, Seq<Pair>)| #[trigger]
                diagram@.dom().contains(k) implies is_matching(k.1) && is_canonical(k.1) && 2
                * k.1.len() == old_domain + other_domain + old_codomain + other_codomain by {
                lemma_accumulate_dom(products, k);
                let at = choose|at: int| 0 <= at < products.len() && (#[trigger] products[at]).0 == k;
                lemma_product_terms_index(grid, lhs_terms, rhs_terms, rows, at);
                let (i, j) = choose|i: int, j: int|
                    0 <= i < rows && 0 <= j < rhs_terms.len() && products[at].0
                        == (#[trigger] grid[i][j])@;
                assert(grid[i][j].1.well_formed());
            }
        }
        *self = BrauerMorphism {
            diagram,
            source: new_domain,
            target: old_codomain + other_codomain,
            is_def_tl,
        };
    }
}

impl<T: Coefficient> MonoidalMorphism<usize> for BrauerMorphism<T> {

}

} // verus!
