//! Formal linear combinations: finitely many keys, each with a coefficient.

use vstd::prelude::*;
use crate::coefficient::Coefficient;
use crate::error::DiagramError;
use crate::key::Key;

verus! {

/// No two entries of `terms` carry the same key.
pub open spec fn keys_distinct<K: Key, C>(terms: Seq<(K, C)>) -> bool {
    forall|i: int, j: int| 0 <= i < j < terms.len() ==> terms[i].0@ != terms[j].0@
}

/// Some entry of `terms` carries the key `k`.
pub open spec fn has_key<K: Key, C>(terms: Seq<(K, C)>, k: K::V) -> bool {
    exists|i: int| 0 <= i < terms.len() && #[trigger] terms[i].0@ == k
}

/// The mapping from keys to coefficients that a list of entries stands for.
pub open spec fn terms_to_map<K: Key, C>(terms: Seq<(K, C)>) -> Map<K::V, C> {
    Map::new(
        |k: K::V| has_key(terms, k),
        |k: K::V| terms[choose|i: int| 0 <= i < terms.len() && #[trigger] terms[i].0@ == k].1,
    )
}

/// Adds `c` to the coefficient of `k`, which enters the map if it was absent.
pub open spec fn insert_term<KV, C: Coefficient>(m: Map<KV, C>, k: KV, c: C) -> Map<KV, C> {
    if m.dom().contains(k) {
        m.insert(k, m[k].ring_add(c))
    } else {
        m.insert(k, c)
    }
}

/// The map that a list of weighted keys adds up to: the entries are taken
/// from first to last, and a key that comes again adds to what it has.
pub open spec fn accumulate<KV, C: Coefficient>(s: Seq<(KV, C)>) -> Map<KV, C>
    decreases s.len(),
{
    if s.len() == 0 {
        Map::empty()
    } else {
        insert_term(accumulate(s.drop_last()), s.last().0, s.last().1)
    }
}

/// Key-wise sum of two maps.
pub open spec fn sum_maps<KV, C: Coefficient>(a: Map<KV, C>, b: Map<KV, C>) -> Map<KV, C> {
    Map::new(
        |k: KV| a.dom().contains(k) || b.dom().contains(k),
        |k: KV|
            if a.dom().contains(k) && b.dom().contains(k) {
                a[k].ring_add(b[k])
            } else if a.dom().contains(k) {
                a[k]
            } else {
                b[k]
            },
    )
}

/// The map with every coefficient negated.
pub open spec fn negated_map<KV, C: Coefficient>(a: Map<KV, C>) -> Map<KV, C> {
    Map::new(|k: KV| a.dom().contains(k), |k: KV| a[k].ring_neg())
}

/// Key-wise difference of two maps: `a` plus the negation of `b`.
pub open spec fn difference_maps<KV, C: Coefficient>(a: Map<KV, C>, b: Map<KV, C>) -> Map<KV, C> {
    sum_maps(a, negated_map(b))
}

/// The map with every coefficient multiplied by `c` on the right.
pub open spec fn scaled_map<KV, C: Coefficient>(a: Map<KV, C>, c: C) -> Map<KV, C> {
    Map::new(|k: KV| a.dom().contains(k), |k: KV| a[k].ring_mul(c))
}

/// The map without the keys whose coefficient is zero.
pub open spec fn simplified_map<KV, C: Coefficient>(a: Map<KV, C>) -> Map<KV, C> {
    Map::new(|k: KV| a.dom().contains(k) && a[k] != C::ring_zero(), |k: KV| a[k])
}

/// The keys `imgs` weighted by the coefficients of `terms`, entry by entry.
pub open spec fn reweighted<K, K2: Key, C>(terms: Seq<(K, C)>, imgs: Seq<K2>) -> Seq<(K2::V, C)> {
    Seq::new(terms.len(), |i: int| (imgs[i]@, terms[i].1))
}

/// One row of a product: the keys `row` weighted by `c` times each coefficient of `rhs`.
pub open spec fn product_row<K, K2: Key, C: Coefficient>(row: Seq<K2>, c: C, rhs: Seq<(K, C)>) -> Seq<
    (K2::V, C),
> {
    Seq::new(rhs.len(), |j: int| (row[j]@, c.ring_mul(rhs[j].1)))
}

/// The first `rows` rows of a product, one after the other: row `i` pairs
/// entry `i` of `lhs` with every entry of `rhs`, and `grid[i][j]` is the key
/// for that pair.
pub open spec fn product_terms<K1, K, K2: Key, C: Coefficient>(
    grid: Seq<Seq<K2>>,
    lhs: Seq<(K1, C)>,
    rhs: Seq<(K, C)>,
    rows: nat,
) -> Seq<(K2::V, C)>
    decreases rows,
{
    if rows == 0 {
        Seq::empty()
    } else {
        product_terms(grid, lhs, rhs, (rows - 1) as nat) + product_row(
            grid[rows - 1],
            lhs[rows - 1].1,
            rhs,
        )
    }
}

/// The terms of a bilinear extension: the first `rows` entries of `lhs`,
/// each paired with every entry of `rhs` in turn; a pair has the key that
/// `f` makes of the two keys and the product of the two coefficients.
pub open spec fn bilinear_terms<K1: Key, K2: Key, KV, C: Coefficient>(
    lhs: Seq<(K1, C)>,
    rhs: Seq<(K2, C)>,
    f: spec_fn(K1::V, K2::V) -> KV,
    rows: nat,
) -> Seq<(KV, C)>
    decreases rows,
{
    if rows == 0 {
        Seq::empty()
    } else {
        bilinear_terms(lhs, rhs, f, (rows - 1) as nat) + Seq::new(
            rhs.len(),
            |j: int| (f(lhs[rows - 1].0@, rhs[j].0@), lhs[rows - 1].1.ring_mul(rhs[j].1)),
        )
    }
}

/// The map that a list of entries gives when every entry is inserted in
/// turn: of two entries with one key, the later one stays.
pub open spec fn collected<KV, C>(s: Seq<(KV, C)>) -> Map<KV, C>
    decreases s.len(),
{
    if s.len() == 0 {
        Map::empty()
    } else {
        collected(s.drop_last()).insert(s.last().0, s.last().1)
    }
}

/// A formal sum of keys with coefficients. A key that is absent has
/// coefficient zero; a key may also be present with coefficient zero.
#[derive(Debug)]
pub struct LinearCombination<Coeffs: Coefficient, Target: Key> {
    terms: Vec<(Target, Coeffs)>,
}

impl<Coeffs: Coefficient, Target: Key> View for LinearCombination<Coeffs, Target> {
    type V = Map<Target::V, Coeffs>;

    open spec fn view(&self) -> Map<Target::V, Coeffs> {
        terms_to_map(self.entries())
    }
}

/// In a list with distinct keys, entry `i` is what the map holds for its key.
pub proof fn lemma_terms_to_map_at<K: Key, C>(terms: Seq<(K, C)>, i: int)
    requires
        keys_distinct(terms),
        0 <= i < terms.len(),
    ensures
        terms_to_map(terms).dom().contains(terms[i].0@),
        terms_to_map(terms)[terms[i].0@] == terms[i].1,
{
    let k = terms[i].0@;
    assert(has_key(terms, k));
    let j = choose|j: int| 0 <= j < terms.len() && #[trigger] terms[j].0@ == k;
    assert(j == i);
}

/// A map that has the keys of a list with distinct keys, and at each key the
/// entry's coefficient, is the map of that list.
pub proof fn lemma_map_characterized<K: Key, C>(terms: Seq<(K, C)>, m: Map<K::V, C>)
    requires
        keys_distinct(terms),
        forall|k: K::V| m.dom().contains(k) <==> has_key(terms, k),
        forall|i: int| 0 <= i < terms.len() ==> m[#[trigger] terms[i].0@] == terms[i].1,
    ensures
        terms_to_map(terms) == m,
{
    assert forall|k: K::V| has_key(terms, k) implies terms_to_map(terms)[k] == m[k] by {
        let j = choose|j: int| 0 <= j < terms.len() && #[trigger] terms[j].0@ == k;
        lemma_terms_to_map_at(terms, j);
    }
    assert(terms_to_map(terms) =~= m);
}

/// Appending an entry with a new key inserts it into the map.
pub proof fn lemma_map_of_push<K: Key, C>(terms: Seq<(K, C)>, k: K, c: C)
    requires
        keys_distinct(terms.push((k, c))),
    ensures
        keys_distinct(terms),
        !terms_to_map(terms).dom().contains(k@),
        terms_to_map(terms.push((k, c))) == terms_to_map(terms).insert(k@, c),
{
    let longer = terms.push((k, c));
    let n = terms.len() as int;
    assert forall|i: int, j: int| 0 <= i < j < terms.len() implies terms[i].0@ != terms[j].0@ by {
        assert(longer[i].0@ != longer[j].0@);
    }
    if has_key(terms, k@) {
        let j = choose|j: int| 0 <= j < terms.len() && #[trigger] terms[j].0@ == k@;
        assert(longer[j].0@ != longer[n].0@);
    }
    let m = terms_to_map(terms).insert(k@, c);
    assert forall|kk: K::V| m.dom().contains(kk) <==> has_key(longer, kk) by {
        if has_key(longer, kk) {
            let j = choose|j: int| 0 <= j < longer.len() && #[trigger] longer[j].0@ == kk;
            if j < n {
                assert(terms[j].0@ == kk);
            }
        }
        if has_key(terms, kk) {
            let j = choose|j: int| 0 <= j < terms.len() && #[trigger] terms[j].0@ == kk;
            assert(longer[j].0@ == kk);
        }
        if kk == k@ {
            assert(longer[n].0@ == kk);
        }
    }
    assert forall|i: int| 0 <= i < longer.len() implies m[#[trigger] longer[i].0@] == longer[i].1 by {
        if i < n {
            lemma_terms_to_map_at(terms, i);
            assert(longer[i].0@ != longer[n].0@);
        }
    }
    lemma_map_characterized(longer, m);
}

/// The map of the first `i + 1` entries is the map of the first `i` with entry `i` inserted.
pub proof fn lemma_map_of_take<K: Key, C>(terms: Seq<(K, C)>, i: int)
    requires
        keys_distinct(terms),
        0 <= i < terms.len(),
    ensures
        keys_distinct(terms.take(i)),
        keys_distinct(terms.take(i + 1)),
        !terms_to_map(terms.take(i)).dom().contains(terms[i].0@),
        terms_to_map(terms.take(i + 1)) == terms_to_map(terms.take(i)).insert(
            terms[i].0@,
            terms[i].1,
        ),
{
    assert(terms.take(i + 1) =~= terms.take(i).push(terms[i]));
    let head = terms.take(i + 1);
    assert forall|a: int, b: int| 0 <= a < b < head.len() implies head[a].0@ != head[b].0@ by {
        assert(terms[a].0@ != terms[b].0@);
    }
    lemma_map_of_push(terms.take(i), terms[i].0, terms[i].1);
}

/// The first `rows` rows of a product depend on the first `rows` rows of keys only.
pub proof fn lemma_product_terms_prefix<K1, K, K2: Key, C: Coefficient>(
    g1: Seq<Seq<K2>>,
    g2: Seq<Seq<K2>>,
    lhs: Seq<(K1, C)>,
    rhs: Seq<(K, C)>,
    rows: nat,
)
    requires
        rows <= g1.len(),
        rows <= g2.len(),
        forall|i: int| 0 <= i < rows ==> g1[i] == g2[i],
    ensures
        product_terms(g1, lhs, rhs, rows) == product_terms(g2, lhs, rhs, rows),
    decreases rows,
{
    if rows > 0 {
        lemma_product_terms_prefix(g1, g2, lhs, rhs, (rows - 1) as nat);
    }
}

/// Where the keys of a product are what `f` makes of the two keys, the
/// product's terms are the terms of the bilinear extension of `f`.
pub proof fn lemma_product_is_bilinear<K1: Key, K: Key, K2: Key, C: Coefficient>(
    grid: Seq<Seq<K2>>,
    lhs: Seq<(K1, C)>,
    rhs: Seq<(K, C)>,
    f: spec_fn(K1::V, K::V) -> K2::V,
    rows: nat,
)
    requires
        rows <= lhs.len(),
        rows <= grid.len(),
        forall|i: int, j: int|
            0 <= i < rows && 0 <= j < rhs.len() ==> (#[trigger] grid[i][j])@ == f(
                lhs[i].0@,
                rhs[j].0@,
            ),
    ensures
        product_terms(grid, lhs, rhs, rows) == bilinear_terms(lhs, rhs, f, rows),
    decreases rows,
{
    if rows > 0 {
        lemma_product_is_bilinear(grid, lhs, rhs, f, (rows - 1) as nat);
        let i = rows - 1;
        assert(product_row(grid[i], lhs[i].1, rhs) =~= Seq::new(
            rhs.len(),
            |j: int| (f(lhs[i].0@, rhs[j].0@), lhs[i].1.ring_mul(rhs[j].1)),
        )) by {
            assert forall|j: int| 0 <= j < rhs.len() implies product_row(grid[i], lhs[i].1, rhs)[j]
                == (f(lhs[i].0@, rhs[j].0@), lhs[i].1.ring_mul(rhs[j].1)) by {
                assert(grid[i][j]@ == f(lhs[i].0@, rhs[j].0@));
            }
        }
    }
}

/// Every key of the map that a list adds up to is the key of an entry.
pub proof fn lemma_accumulate_dom<KV, C: Coefficient>(s: Seq<(KV, C)>, k: KV)
    requires
        accumulate(s).dom().contains(k),
    ensures
        exists|t: int| 0 <= t < s.len() && (#[trigger] s[t]).0 == k,
    decreases s.len(),
{
    if s.len() > 0 {
        if s.last().0 == k {
            assert(s[s.len() - 1].0 == k);
        } else {
            lemma_accumulate_dom(s.drop_last(), k);
            let t = choose|t: int| 0 <= t < s.drop_last().len() && (#[trigger] s.drop_last()[t]).0 == k;
            assert(s[t].0 == k);
        }
    }
}

/// Every term of a product has the key of one place of the grid.
pub proof fn lemma_product_terms_index<K1, K, K2: Key, C: Coefficient>(
    grid: Seq<Seq<K2>>,
    lhs: Seq<(K1, C)>,
    rhs: Seq<(K, C)>,
    rows: nat,
    t: int,
)
    requires
        0 <= t < product_terms(grid, lhs, rhs, rows).len(),
    ensures
        exists|i: int, j: int|
            0 <= i < rows && 0 <= j < rhs.len() && product_terms(grid, lhs, rhs, rows)[t].0
                == (#[trigger] grid[i][j])@,
    decreases rows,
{
    if rows > 0 {
        let head = product_terms(grid, lhs, rhs, (rows - 1) as nat);
        if t < head.len() {
            lemma_product_terms_index(grid, lhs, rhs, (rows - 1) as nat, t);
            let (i, j) = choose|i: int, j: int|
                0 <= i < rows - 1 && 0 <= j < rhs.len() && head[t].0 == (#[trigger] grid[i][j])@;
            assert(product_terms(grid, lhs, rhs, rows)[t].0 == grid[i][j]@);
        } else {
            let j = t - head.len();
            assert(product_terms(grid, lhs, rhs, rows)[t].0 == grid[rows - 1][j]@);
        }
    }
}

/// The terms of a bilinear extension depend on the views of the keys only.
pub proof fn lemma_bilinear_terms_views<K1: Key, K2: Key, KV, C: Coefficient>(
    lhs: Seq<(K1, C)>,
    rhs: Seq<(K2, C)>,
    lhs2: Seq<(K1, C)>,
    rhs2: Seq<(K2, C)>,
    f: spec_fn(K1::V, K2::V) -> KV,
    rows: nat,
)
    requires
        rows <= lhs.len(),
        lhs.len() == lhs2.len(),
        rhs.len() == rhs2.len(),
        forall|i: int|
            0 <= i < lhs.len() ==> (#[trigger] lhs2[i]).0@ == lhs[i].0@ && lhs2[i].1 == lhs[i].1,
        forall|i: int|
            0 <= i < rhs.len() ==> (#[trigger] rhs2[i]).0@ == rhs[i].0@ && rhs2[i].1 == rhs[i].1,
    ensures
        bilinear_terms(lhs, rhs, f, rows) == bilinear_terms(lhs2, rhs2, f, rows),
    decreases rows,
{
    if rows > 0 {
        lemma_bilinear_terms_views(lhs, rhs, lhs2, rhs2, f, (rows - 1) as nat);
        let i = rows - 1;
        assert(Seq::new(
            rhs.len(),
            |j: int| (f(lhs[i].0@, rhs[j].0@), lhs[i].1.ring_mul(rhs[j].1)),
        ) =~= Seq::new(
            rhs2.len(),
            |j: int| (f(lhs2[i].0@, rhs2[j].0@), lhs2[i].1.ring_mul(rhs2[j].1)),
        ));
    }
}

impl<Coeffs: Coefficient, Target: Key> LinearCombination<Coeffs, Target> {
    /// The entries in the order in which they are stored.
    pub closed spec fn entries(&self) -> Seq<(Target, Coeffs)> {
        self.terms@
    }

    /// Every value of this type keeps its keys distinct.
    #[verifier::type_invariant]
    pub open spec fn well_formed(self) -> bool {
        keys_distinct(self.entries())
    }

    /// The sum without terms.
    pub fn new() -> (r: Self)
        ensures
            r@ == Map::<Target::V, Coeffs>::empty(),
            r.entries() == Seq::<(Target, Coeffs)>::empty(),
    {
        let r = LinearCombination { terms: Vec::new() };
        assert(r@ =~= Map::<Target::V, Coeffs>::empty());
        r
    }

    /// The sum that holds `t` once.
    pub fn singleton(t: Target) -> (r: Self)
        ensures
            r@ == Map::<Target::V, Coeffs>::empty().insert(t@, Coeffs::ring_one()),
            r.entries() == seq![(t, Coeffs::ring_one())],
    {
        let mut terms: Vec<(Target, Coeffs)> = Vec::new();
        terms.push((t, Coeffs::one()));
        let r = LinearCombination { terms };
        proof {
            lemma_terms_to_map_at(r.terms@, 0);
            assert(r@ =~= Map::<Target::V, Coeffs>::empty().insert(t@, Coeffs::ring_one()));
            assert(r.terms@ =~= seq![(t, Coeffs::ring_one())]);
        }
        r
    }

    /// Whether the sum has no terms at all.
    pub fn is_empty(&self) -> (b: bool)
        ensures
            b == (self@ == Map::<Target::V, Coeffs>::empty()),
    {
        proof {
            use_type_invariant(self);
            if self.terms@.len() > 0 {
                lemma_terms_to_map_at(self.terms@, 0);
            } else {
                assert(self@ =~= Map::<Target::V, Coeffs>::empty());
            }
        }
        self.terms.len() == 0
    }


    /// The key-wise sum of two sums.
    pub fn plus(self, rhs: Self) -> (r: Self)
        ensures
            r@ == sum_maps(self@, rhs@),
    {
        proof {
            use_type_invariant(&self);
            use_type_invariant(&rhs);
        }
        let mut terms = self.terms;
        add_terms(&mut terms, &rhs.terms);
        LinearCombination { terms }
    }

    /// The key-wise difference of two sums.
    pub fn minus(self, rhs: Self) -> (r: Self)
        ensures
            r@ == difference_maps(self@, rhs@),
    {
        proof {
            use_type_invariant(&self);
            use_type_invariant(&rhs);
        }
        let mut terms = self.terms;
        let mut other = rhs.terms;
        negate_terms(&mut other);
        add_terms(&mut terms, &other);
        LinearCombination { terms }
    }

    /// The sum with every coefficient negated.
    pub fn negated(self) -> (r: Self)
        ensures
            r@ == negated_map(self@),
    {
        proof {
            use_type_invariant(&self);
        }
        let mut terms = self.terms;
        negate_terms(&mut terms);
        LinearCombination { terms }
    }

    /// The sum with every coefficient multiplied by `c`.
    pub fn scaled(self, c: Coeffs) -> (r: Self)
        ensures
            r@ == scaled_map(self@, c),
            r.entries().len() == self.entries().len(),
            forall|j: int| 0 <= j < self.entries().len() ==> (#[trigger] r.entries()[j]).0 == self.entries()[j].0,
            forall|j: int| 0 <= j < self.entries().len() ==> (#[trigger] r.entries()[j]).1 == self.entries()[j].1.ring_mul(c),
    {
        proof {
            use_type_invariant(&self);
        }
        let mut terms = self.terms;
        scale_terms(&mut terms, c);
        LinearCombination { terms }
    }

    /// Removes every term whose coefficient is zero.
    pub fn simplify(&mut self)
        ensures
            final(self)@ == simplified_map(old(self)@),
    {
        proof {
            use_type_invariant(&*self);
        }
        let terms = nonzero_terms(&self.terms);
        *self = LinearCombination { terms };
    }

    /// Replaces every coefficient `c` by `coeff_changer(c)`.
    pub fn change_coeffs<F: Fn(Coeffs) -> Coeffs>(&mut self, coeff_changer: F)
        requires
            forall|i: int|
                0 <= i < old(self).entries().len() ==> call_requires(
                    coeff_changer,
                    (#[trigger] old(self).entries()[i].1,),
                ),
        ensures
            final(self).entries().len() == old(self).entries().len(),
            forall|i: int|
                0 <= i < old(self).entries().len() ==> (#[trigger] final(self).entries()[i]).0
                    == old(self).entries()[i].0,
            forall|i: int|
                0 <= i < old(self).entries().len() ==> call_ensures(
                    coeff_changer,
                    (old(self).entries()[i].1,),
                    (#[trigger] final(self).entries()[i]).1,
                ),
    {
        proof {
            use_type_invariant(&*self);
        }
        let mut fresh = Self::new();
        std::mem::swap(self, &mut fresh);
        let mut terms = fresh.terms;
        let ghost before = terms@;
        let mut i: usize = 0;
        while i < terms.len()
            invariant
                i <= terms@.len(),
                terms@.len() == before.len(),
                forall|j: int| 0 <= j < before.len() ==> call_requires(coeff_changer, (#[trigger] before[j].1,)),
                forall|j: int| 0 <= j < before.len() ==> (#[trigger] terms@[j]).0 == before[j].0,
                forall|j: int|
                    0 <= j < i ==> call_ensures(coeff_changer, (before[j].1,), (#[trigger] terms@[j]).1),
                forall|j: int| i <= j < before.len() ==> (#[trigger] terms@[j]).1 == before[j].1,
            decreases terms@.len() - i,
        {
            let v = coeff_changer(terms[i].1);
            terms[i].1 = v;
            i += 1;
        }
        proof {
            assert forall|a: int, b: int| 0 <= a < b < terms@.len() implies terms@[a].0@ != terms@[b].0@ by {
                assert(before[a].0@ != before[b].0@);
            }
        }
        *self = LinearCombination { terms };
    }

    /// Whether `predicate` holds of every key.
    pub fn all_terms_satisfy<F: Fn(&Target) -> bool>(&self, predicate: F) -> (b: bool)
        requires
            forall|i: int|
                0 <= i < self.entries().len() ==> call_requires(
                    predicate,
                    (&#[trigger] self.entries()[i].0,),
                ),
        ensures
            b ==> forall|i: int|
                0 <= i < self.entries().len() ==> call_ensures(
                    predicate,
                    (&#[trigger] self.entries()[i].0,),
                    true,
                ),
            !b ==> exists|i: int|
                0 <= i < self.entries().len() && call_ensures(
                    predicate,
                    (&#[trigger] self.entries()[i].0,),
                    false,
                ),
    {
        let mut i: usize = 0;
        assert(self.entries() == self.terms@);
        while i < self.terms.len()
            invariant
                i <= self.terms@.len(),
                self.entries() == self.terms@,
                forall|j: int|
                    0 <= j < self.terms@.len() ==> call_requires(
                        predicate,
                        (&#[trigger] self.entries()[j].0,),
                    ),
                forall|j: int|
                    0 <= j < i ==> call_ensures(predicate, (&#[trigger] self.terms@[j].0,), true),
            decreases self.terms@.len() - i,
        {
            if !predicate(&self.terms[i].0) {
                return false;
            }
            i += 1;
        }
        true
    }

    /// Applies `injection` to every key. Fails when two keys are sent to one.
    pub fn inj_linearly_extend<Target2: Key, F: Fn(&Target) -> Target2>(
        &self,
        injection: F,
    ) -> (r: Result<LinearCombination<Coeffs, Target2>, DiagramError>)
        requires
            forall|i: int|
                0 <= i < self.entries().len() ==> call_requires(
                    injection,
                    (&#[trigger] self.entries()[i].0,),
                ),
        ensures
            match r {
                Ok(out) => {
                    &&& out.entries().len() == self.entries().len()
                    &&& keys_distinct(out.entries())
                    &&& forall|i: int|
                        0 <= i < self.entries().len() ==> (#[trigger] out.entries()[i]).1
                            == self.entries()[i].1
                    &&& forall|i: int|
                        0 <= i < self.entries().len() ==> call_ensures(
                            injection,
                            (&self.entries()[i].0,),
                            (#[trigger] out.entries()[i]).0,
                        )
                },
                Err(e) => {
                    &&& e == DiagramError::InjectivityViolation
                    &&& exists|i: int, j: int, a: Target2, b: Target2|
                        0 <= i < j < self.entries().len() && #[trigger] call_ensures(
                            injection,
                            (&self.entries()[i].0,),
                            a,
                        ) && #[trigger] call_ensures(injection, (&self.entries()[j].0,), b)
                            && a@ == b@
                },
            },
    {
        let mut out: Vec<(Target2, Coeffs)> = Vec::new();
        let mut i: usize = 0;
        assert(self.entries() == self.terms@);
        while i < self.terms.len()
            invariant
                i <= self.terms@.len(),
                out@.len() == i,
                keys_distinct(out@),
                self.entries() == self.terms@,
                forall|j: int|
                    0 <= j < self.terms@.len() ==> call_requires(
                        injection,
                        (&#[trigger] self.entries()[j].0,),
                    ),
                forall|j: int| 0 <= j < i ==> (#[trigger] out@[j]).1 == self.terms@[j].1,
                forall|j: int|
                    0 <= j < i ==> call_ensures(
                        injection,
                        (&self.terms@[j].0,),
                        (#[trigger] out@[j]).0,
                    ),
            decreases self.terms@.len() - i,
        {
            let new_key = injection(&self.terms[i].0);
            match position(&out, &new_key) {
                Some(p) => {
                    proof {
                        let a = out@[p as int].0;
                        assert(call_ensures(injection, (&self.terms@[p as int].0,), a));
                        assert(call_ensures(injection, (&self.terms@[i as int].0,), new_key));
                    }
                    return Err(DiagramError::InjectivityViolation);
                },
                None => {
                    let ghost prev = out@;
                    out.push((new_key, self.terms[i].1));
                    proof {
                        assert forall|a: int, b: int| 0 <= a < b < out@.len() implies out@[a].0@
                            != out@[b].0@ by {
                            if b < prev.len() {
                                assert(prev[a].0@ != prev[b].0@);
                            } else {
                                assert(prev[a].0@ == out@[a].0@);
                            }
                        }
                    }
                },
            }
            i += 1;
        }
        Ok(LinearCombination { terms: out })
    }

    /// Applies `f` to every key; keys that are sent to one key add up.
    pub fn linearly_extend<Target2: Key, F: Fn(&Target) -> Target2>(&self, f: F) -> (out:
        LinearCombination<Coeffs, Target2>)
        requires
            forall|i: int|
                0 <= i < self.entries().len() ==> call_requires(f, (&#[trigger] self.entries()[i].0,)),
        ensures
            exists|imgs: Seq<Target2>|
                {
                    &&& imgs.len() == self.entries().len()
                    &&& forall|i: int|
                        0 <= i < self.entries().len() ==> call_ensures(
                            f,
                            (&self.entries()[i].0,),
                            #[trigger] imgs[i],
                        )
                    &&& out@ == accumulate(#[trigger] reweighted(self.entries(), imgs))
                },
    {
        let mut acc: Vec<(Target2, Coeffs)> = Vec::new();
        let ghost mut imgs: Seq<Target2> = Seq::empty();
        let mut i: usize = 0;
        proof {
            assert(terms_to_map(acc@) =~= Map::<Target2::V, Coeffs>::empty());
            assert(reweighted(self.terms@.take(0), imgs) =~= Seq::<(Target2::V, Coeffs)>::empty());
        }
        while i < self.terms.len()
            invariant
                i <= self.terms@.len(),
                imgs.len() == i,
                keys_distinct(acc@),
                self.entries() == self.terms@,
                forall|j: int|
                    0 <= j < self.terms@.len() ==> call_requires(f, (&#[trigger] self.entries()[j].0,)),
                forall|j: int|
                    0 <= j < i ==> call_ensures(f, (&self.terms@[j].0,), #[trigger] imgs[j]),
                terms_to_map(acc@) == accumulate(reweighted(self.terms@.take(i as int), imgs)),
            decreases self.terms@.len() - i,
        {
            let new_key = f(&self.terms[i].0);
            let c = self.terms[i].1;
            let ghost old_imgs = imgs;
            proof {
                imgs = imgs.push(new_key);
                let longer = reweighted(self.terms@.take(i + 1), imgs);
                assert(longer.drop_last() =~= reweighted(self.terms@.take(i as int), old_imgs));
                assert(longer.last() == (new_key@, c));
            }
            add_term(&mut acc, new_key, c);
            i += 1;
        }
        proof {
            assert(self.terms@.take(self.terms@.len() as int) =~= self.terms@);
        }
        LinearCombination { terms: acc }
    }

    /// The bilinear extension of `combiner`: every entry of `self` is paired
    /// with every entry of `rhs`, the pair's key is what `combiner` makes of
    /// the two keys, its coefficient the product of the two coefficients, and
    /// pairs with one key add up.
    pub fn linear_combine<U: Key, V: Key, F: Fn(&Target, &U) -> V>(
        &self,
        rhs: LinearCombination<Coeffs, U>,
        combiner: F,
    ) -> (out: LinearCombination<Coeffs, V>)
        requires
            forall|i: int, j: int|
                0 <= i < self.entries().len() && 0 <= j < rhs.entries().len() ==> call_requires(
                    combiner,
                    (&#[trigger] self.entries()[i].0, &#[trigger] rhs.entries()[j].0),
                ),
        ensures
            exists|grid: Seq<Seq<V>>|
                {
                    &&& grid.len() == self.entries().len()
                    &&& forall|i: int|
                        0 <= i < grid.len() ==> (#[trigger] grid[i]).len() == rhs.entries().len()
                    &&& forall|i: int, j: int|
                        0 <= i < self.entries().len() && 0 <= j < rhs.entries().len()
                            ==> call_ensures(
                            combiner,
                            (&self.entries()[i].0, &rhs.entries()[j].0),
                            #[trigger] grid[i][j],
                        )
                    &&& out@ == accumulate(
                        #[trigger] product_terms(
                            grid,
                            self.entries(),
                            rhs.entries(),
                            self.entries().len(),
                        ),
                    )
                },
    {
        let mut acc: Vec<(V, Coeffs)> = Vec::new();
        let ghost mut grid: Seq<Seq<V>> = Seq::empty();
        let ghost lhs = self.entries();
        let ghost rhs_terms = rhs.entries();
        let mut i: usize = 0;
        proof {
            assert(terms_to_map(acc@) =~= Map::<V::V, Coeffs>::empty());
            assert(lhs == self.terms@);
            assert(rhs_terms == rhs.terms@);
        }
        while i < self.terms.len()
            invariant
                i <= self.terms@.len(),
                lhs == self.terms@,
                rhs_terms == rhs.terms@,
                grid.len() == i,
                keys_distinct(acc@),
                forall|a: int, b: int|
                    0 <= a < lhs.len() && 0 <= b < rhs_terms.len() ==> call_requires(
                        combiner,
                        (&#[trigger] lhs[a].0, &#[trigger] rhs_terms[b].0),
                    ),
                forall|a: int| 0 <= a < i ==> (#[trigger] grid[a]).len() == rhs_terms.len(),
                forall|a: int, b: int|
                    0 <= a < i && 0 <= b < rhs_terms.len() ==> call_ensures(
                        combiner,
                        (&lhs[a].0, &rhs_terms[b].0),
                        #[trigger] grid[a][b],
                    ),
                terms_to_map(acc@) == accumulate(product_terms(grid, lhs, rhs_terms, i as nat)),
            decreases self.terms@.len() - i,
        {
            let c1 = self.terms[i].1;
            let ghost mut row: Seq<V> = Seq::empty();
            let ghost done = product_terms(grid, lhs, rhs_terms, i as nat);
            let mut j: usize = 0;
            proof {
                assert(done + product_row(row, c1, rhs_terms.take(0)) =~= done);
            }
            while j < rhs.terms.len()
                invariant
                    i < self.terms@.len(),
                    j <= rhs.terms@.len(),
                    lhs == self.terms@,
                    rhs_terms == rhs.terms@,
                    c1 == lhs[i as int].1,
                    row.len() == j,
                    keys_distinct(acc@),
                    forall|a: int, b: int|
                        0 <= a < lhs.len() && 0 <= b < rhs_terms.len() ==> call_requires(
                            combiner,
                            (&#[trigger] lhs[a].0, &#[trigger] rhs_terms[b].0),
                        ),
                    forall|b: int|
                        0 <= b < j ==> call_ensures(
                            combiner,
                            (&lhs[i as int].0, &rhs_terms[b].0),
                            #[trigger] row[b],
                        ),
                    terms_to_map(acc@) == accumulate(
                        done + product_row(row, c1, rhs_terms.take(j as int)),
                    ),
                decreases rhs.terms@.len() - j,
            {
                let new_key = combiner(&self.terms[i].0, &rhs.terms[j].0);
                let c = c1.times(rhs.terms[j].1);
                let ghost old_row = row;
                proof {
                    row = row.push(new_key);
                    let longer = done + product_row(row, c1, rhs_terms.take(j + 1));
                    assert(longer.drop_last() =~= done + product_row(
                        old_row,
                        c1,
                        rhs_terms.take(j as int),
                    ));
                    assert(longer.last() == (new_key@, c));
                }
                add_term(&mut acc, new_key, c);
                j += 1;
            }
            proof {
                assert(rhs_terms.take(rhs_terms.len() as int) =~= rhs_terms);
                let old_grid = grid;
                grid = grid.push(row);
                lemma_product_terms_prefix(old_grid, grid, lhs, rhs_terms, i as nat);
            }
            i += 1;
        }
        LinearCombination { terms: acc }
    }

    /// The sum with the entries `pairs`; where a key comes twice, the later
    /// coefficient stays.
    pub fn from_iter(pairs: Vec<(Target, Coeffs)>) -> (r: Self)
        ensures
            r@ == collected(Seq::new(pairs@.len(), |i: int| (pairs@[i].0@, pairs@[i].1))),
    {
        let ghost views = Seq::new(pairs@.len(), |i: int| (pairs@[i].0@, pairs@[i].1));
        let mut terms: Vec<(Target, Coeffs)> = Vec::new();
        let mut i: usize = 0;
        proof {
            assert(terms_to_map(terms@) =~= collected(views.take(0)));
        }
        while i < pairs.len()
            invariant
                i <= pairs@.len(),
                views == Seq::new(pairs@.len(), |i: int| (pairs@[i].0@, pairs@[i].1)),
                keys_distinct(terms@),
                terms_to_map(terms@) == collected(views.take(i as int)),
            decreases pairs@.len() - i,
        {
            let k = pairs[i].0.key_clone();
            let c = pairs[i].1;
            let ghost before = terms@;
            proof {
                assert(views.take(i + 1).drop_last() =~= views.take(i as int));
                assert(views.take(i + 1).last() == (k@, c));
            }
            match position(&terms, &k) {
                Some(at) => {
                    terms[at].1 = c;
                    proof {
                        let after = terms@;
                        assert(keys_distinct(after));
                        let m = terms_to_map(before).insert(k@, c);
                        assert forall|kk: Target::V| m.dom().contains(kk) <==> has_key(after, kk) by {
                            if has_key(after, kk) {
                                let j = choose|j: int| 0 <= j < after.len() && #[trigger] after[j].0@ == kk;
                                assert(before[j].0@ == kk);
                            }
                            if has_key(before, kk) {
                                let j = choose|j: int| 0 <= j < before.len() && #[trigger] before[j].0@ == kk;
                                assert(after[j].0@ == kk);
                            }
                            if kk == k@ {
                                assert(after[at as int].0@ == kk);
                            }
                        }
                        assert forall|j: int| 0 <= j < after.len() implies m[#[trigger] after[j].0@]
                            == after[j].1 by {
                            lemma_terms_to_map_at(before, j);
                        }
                        lemma_map_characterized(after, m);
                    }
                },
                None => {
                    terms.push((k, c));
                    proof {
                        assert forall|a: int, b: int| 0 <= a < b < terms@.len() implies terms@[a].0@
                            != terms@[b].0@ by {
                            if b < before.len() {
                                assert(before[a].0@ != before[b].0@);
                            } else {
                                assert(before[a].0@ == terms@[a].0@);
                            }
                        }
                        assert(terms@ =~= before.push((k, c)));
                        lemma_map_of_push(before, k, c);
                    }
                },
            }
            i += 1;
        }
        proof {
            assert(views.take(views.len() as int) =~= views);
        }
        LinearCombination { terms }
    }

    /// The number of terms, those with coefficient zero among them.
    pub fn len(&self) -> (n: usize)
        ensures
            n == self.entries().len(),
    {
        self.terms.len()
    }

    /// The coefficient of the key `k`, if the sum holds the key.
    pub fn coefficient(&self, k: &Target) -> (r: Option<Coeffs>)
        ensures
            match r {
                Some(c) => self@.dom().contains(k@) && self@[k@] == c,
                None => !self@.dom().contains(k@),
            },
    {
        proof {
            use_type_invariant(self);
        }
        match position(&self.terms, k) {
            Some(i) => {
                proof {
                    lemma_terms_to_map_at(self.terms@, i as int);
                }
                Some(self.terms[i].1)
            },
            None => None,
        }
    }
}

/// The position of the entry with key `k`, if there is one.
fn position<K: Key, C>(terms: &Vec<(K, C)>, k: &K) -> (r: Option<usize>)
    ensures
        match r {
            Some(i) => i < terms@.len() && terms@[i as int].0@ == k@,
            None => !has_key(terms@, k@),
        },
{
    let mut i: usize = 0;
    while i < terms.len()
        invariant
            i <= terms@.len(),
            forall|j: int| 0 <= j < i ==> terms@[j].0@ != k@,
        decreases terms@.len() - i,
    {
        if terms[i].0.key_eq(k) {
            return Some(i);
        }
        i += 1;
    }
    None
}

/// Adds `c` times `k` to the entries: onto the entry of `k` if there is one,
/// else as a new last entry.
fn add_term<K: Key, C: Coefficient>(terms: &mut Vec<(K, C)>, k: K, c: C)
    requires
        keys_distinct(old(terms)@),
    ensures
        keys_distinct(final(terms)@),
        terms_to_map(final(terms)@) == insert_term(terms_to_map(old(terms)@), k@, c),
{
    let ghost before = terms@;
    match position(terms, &k) {
        Some(i) => {
            let sum = terms[i].1.plus(c);
            terms[i].1 = sum;
            proof {
                let after = terms@;
                assert(keys_distinct(after));
                lemma_terms_to_map_at(before, i as int);
                assert forall|kk: K::V| has_key(after, kk) <==> has_key(before, kk) by {
                    if has_key(after, kk) {
                        let j = choose|j: int| 0 <= j < after.len() && #[trigger] after[j].0@ == kk;
                        assert(before[j].0@ == kk);
                    }
                    if has_key(before, kk) {
                        let j = choose|j: int| 0 <= j < before.len() && #[trigger] before[j].0@ == kk;
                        assert(after[j].0@ == kk);
                    }
                }
                assert forall|kk: K::V| has_key(after, kk) implies terms_to_map(after)[kk]
                    == insert_term(terms_to_map(before), k@, c)[kk] by {
                    let j = choose|j: int| 0 <= j < after.len() && #[trigger] after[j].0@ == kk;
                    lemma_terms_to_map_at(after, j);
                    lemma_terms_to_map_at(before, j);
                }
                assert(terms_to_map(after) =~= insert_term(terms_to_map(before), k@, c));
            }
        },
        None => {
            terms.push((k, c));
            proof {
                let after = terms@;
                assert(keys_distinct(after));
                let n = before.len() as int;
                assert forall|kk: K::V| has_key(after, kk) <==> (has_key(before, kk) || kk
                    == k@) by {
                    if has_key(after, kk) {
                        let j = choose|j: int| 0 <= j < after.len() && #[trigger] after[j].0@ == kk;
                        if j < n {
                            assert(before[j].0@ == kk);
                        }
                    }
                    if has_key(before, kk) {
                        let j = choose|j: int| 0 <= j < before.len() && #[trigger] before[j].0@ == kk;
                        assert(after[j].0@ == kk);
                    }
                    if kk == k@ {
                        assert(after[n].0@ == kk);
                    }
                }
                assert forall|kk: K::V| has_key(after, kk) implies terms_to_map(after)[kk]
                    == insert_term(terms_to_map(before), k@, c)[kk] by {
                    let j = choose|j: int| 0 <= j < after.len() && #[trigger] after[j].0@ == kk;
                    lemma_terms_to_map_at(after, j);
                    if j < n {
                        lemma_terms_to_map_at(before, j);
                    }
                }
                assert(terms_to_map(after) =~= insert_term(terms_to_map(before), k@, c));
            }
        },
    }
}

/// Adds every entry of `rhs` onto `acc`.
fn add_terms<K: Key, C: Coefficient>(acc: &mut Vec<(K, C)>, rhs: &Vec<(K, C)>)
    requires
        keys_distinct(old(acc)@),
        keys_distinct(rhs@),
    ensures
        keys_distinct(final(acc)@),
        terms_to_map(final(acc)@) == sum_maps(terms_to_map(old(acc)@), terms_to_map(rhs@)),
{
    let ghost a = terms_to_map(acc@);
    let mut i: usize = 0;
    proof {
        assert(terms_to_map(rhs@.take(0)) =~= Map::<K::V, C>::empty());
        assert(sum_maps(a, Map::<K::V, C>::empty()) =~= a);
    }
    while i < rhs.len()
        invariant
            i <= rhs@.len(),
            keys_distinct(rhs@),
            keys_distinct(acc@),
            terms_to_map(acc@) == sum_maps(a, terms_to_map(rhs@.take(i as int))),
        decreases rhs@.len() - i,
    {
        let k = rhs[i].0.key_clone();
        let c = rhs[i].1;
        add_term(acc, k, c);
        proof {
            lemma_map_of_take(rhs@, i as int);
            let b = terms_to_map(rhs@.take(i as int));
            assert(insert_term(sum_maps(a, b), k@, c) =~= sum_maps(a, b.insert(k@, c)));
        }
        i += 1;
    }
    proof {
        assert(rhs@.take(rhs@.len() as int) =~= rhs@);
    }
}

/// Replaces every coefficient by its negation.
fn negate_terms<K: Key, C: Coefficient>(terms: &mut Vec<(K, C)>)
    requires
        keys_distinct(old(terms)@),
    ensures
        keys_distinct(final(terms)@),
        terms_to_map(final(terms)@) == negated_map(terms_to_map(old(terms)@)),
        final(terms)@.len() == old(terms)@.len(),
        forall|j: int| 0 <= j < old(terms)@.len() ==> (#[trigger] final(terms)@[j]).0 == old(terms)@[j].0,
{
    let ghost before = terms@;
    let mut i: usize = 0;
    while i < terms.len()
        invariant
            i <= terms@.len(),
            terms@.len() == before.len(),
            forall|j: int| 0 <= j < before.len() ==> (#[trigger] terms@[j]).0 == before[j].0,
            forall|j: int| 0 <= j < i ==> (#[trigger] terms@[j]).1 == before[j].1.ring_neg(),
            forall|j: int| i <= j < before.len() ==> (#[trigger] terms@[j]).1 == before[j].1,
        decreases terms@.len() - i,
    {
        let v = terms[i].1.negated();
        terms[i].1 = v;
        i += 1;
    }
    proof {
        let after = terms@;
        assert forall|a: int, b: int| 0 <= a < b < after.len() implies after[a].0@ != after[b].0@ by {
            assert(before[a].0@ != before[b].0@);
        }
        let m = negated_map(terms_to_map(before));
        assert forall|k: K::V| m.dom().contains(k) <==> has_key(after, k) by {
            if has_key(after, k) {
                let j = choose|j: int| 0 <= j < after.len() && #[trigger] after[j].0@ == k;
                assert(before[j].0@ == k);
            }
            if has_key(before, k) {
                let j = choose|j: int| 0 <= j < before.len() && #[trigger] before[j].0@ == k;
                assert(after[j].0@ == k);
            }
        }
        assert forall|j: int| 0 <= j < after.len() implies m[#[trigger] after[j].0@] == after[j].1 by {
            lemma_terms_to_map_at(before, j);
        }
        lemma_map_characterized(after, m);
    }
}

/// Multiplies every coefficient by `c` on the right.
fn scale_terms<K: Key, C: Coefficient>(terms: &mut Vec<(K, C)>, c: C)
    requires
        keys_distinct(old(terms)@),
    ensures
        keys_distinct(final(terms)@),
        terms_to_map(final(terms)@) == scaled_map(terms_to_map(old(terms)@), c),
        final(terms)@.len() == old(terms)@.len(),
        forall|j: int| 0 <= j < old(terms)@.len() ==> (#[trigger] final(terms)@[j]).0 == old(terms)@[j].0,
        forall|j: int| 0 <= j < old(terms)@.len() ==> (#[trigger] final(terms)@[j]).1 == old(terms)@[j].1.ring_mul(c),
{
    let ghost before = terms@;
    let mut i: usize = 0;
    while i < terms.len()
        invariant
            i <= terms@.len(),
            terms@.len() == before.len(),
            forall|j: int| 0 <= j < before.len() ==> (#[trigger] terms@[j]).0 == before[j].0,
            forall|j: int| 0 <= j < i ==> (#[trigger] terms@[j]).1 == before[j].1.ring_mul(c),
            forall|j: int| i <= j < before.len() ==> (#[trigger] terms@[j]).1 == before[j].1,
        decreases terms@.len() - i,
    {
        let v = terms[i].1.times(c);
        terms[i].1 = v;
        i += 1;
    }
    proof {
        let after = terms@;
        assert forall|a: int, b: int| 0 <= a < b < after.len() implies after[a].0@ != after[b].0@ by {
            assert(before[a].0@ != before[b].0@);
        }
        let m = scaled_map(terms_to_map(before), c);
        assert forall|k: K::V| m.dom().contains(k) <==> has_key(after, k) by {
            if has_key(after, k) {
                let j = choose|j: int| 0 <= j < after.len() && #[trigger] after[j].0@ == k;
                assert(before[j].0@ == k);
            }
            if has_key(before, k) {
                let j = choose|j: int| 0 <= j < before.len() && #[trigger] before[j].0@ == k;
                assert(after[j].0@ == k);
            }
        }
        assert forall|j: int| 0 <= j < after.len() implies m[#[trigger] after[j].0@] == after[j].1 by {
            lemma_terms_to_map_at(before, j);
        }
        lemma_map_characterized(after, m);
    }
}

/// The entries whose coefficient is not zero, in their order.
fn nonzero_terms<K: Key, C: Coefficient>(terms: &Vec<(K, C)>) -> (out: Vec<(K, C)>)
    requires
        keys_distinct(terms@),
    ensures
        keys_distinct(out@),
        terms_to_map(out@) == simplified_map(terms_to_map(terms@)),
{
    let mut out: Vec<(K, C)> = Vec::new();
    let mut i: usize = 0;
    proof {
        assert(terms_to_map(out@) =~= simplified_map(terms_to_map(terms@.take(0))));
    }
    while i < terms.len()
        invariant
            i <= terms@.len(),
            keys_distinct(terms@),
            keys_distinct(out@),
            terms_to_map(out@) == simplified_map(terms_to_map(terms@.take(i as int))),
        decreases terms@.len() - i,
    {
        let c = terms[i].1;
        proof {
            lemma_map_of_take(terms@, i as int);
        }
        let ghost head = terms_to_map(terms@.take(i as int));
        if !c.is_zero() {
            let k = terms[i].0.key_clone();
            let ghost prev = out@;
            out.push((k, c));
            proof {
                assert(!has_key(prev, k@)) by {
                    if has_key(prev, k@) {
                        assert(terms_to_map(prev).dom().contains(k@));
                        assert(simplified_map(head).dom().contains(k@));
                        assert(head.dom().contains(terms@[i as int].0@));
                    }
                }
                assert forall|a: int, b: int| 0 <= a < b < out@.len() implies out@[a].0@ != out@[b].0@ by {
                    if b < prev.len() {
                        assert(prev[a].0@ != prev[b].0@);
                    } else {
                        assert(prev[a].0@ == out@[a].0@);
                    }
                }
                assert(out@ =~= prev.push((k, c)));
                lemma_map_of_push(prev, k, c);
                assert(simplified_map(head).insert(k@, c) =~= simplified_map(head.insert(k@, c)));
            }
        } else {
            proof {
                assert(simplified_map(head) =~= simplified_map(head.insert(terms@[i as int].0@, c)));
            }
        }
        i += 1;
    }
    proof {
        assert(terms@.take(terms@.len() as int) =~= terms@);
    }
    out
}

impl<Coeffs: Coefficient, Target: Key> std::ops::Add for LinearCombination<Coeffs, Target> {
    type Output = Self;

    fn add(self, rhs: Self) -> (r: Self)
        ensures
            r@ == sum_maps(self@, rhs@),
    {
        self.plus(rhs)
    }
}

impl<Coeffs: Coefficient, Target: Key> vstd::std_specs::ops::AddSpecImpl for LinearCombination<Coeffs, Target> {
    open spec fn obeys_add_spec() -> bool {
        false
    }

    open spec fn add_req(self, rhs: Self) -> bool {
        true
    }

    open spec fn add_spec(self, rhs: Self) -> Self {
        self
    }
}

impl<Coeffs: Coefficient, Target: Key> std::ops::Sub for LinearCombination<Coeffs, Target> {
    type Output = Self;

    fn sub(self, rhs: Self) -> (r: Self)
        ensures
            r@ == difference_maps(self@, rhs@),
    {
        self.minus(rhs)
    }
}

impl<Coeffs: Coefficient, Target: Key> vstd::std_specs::ops::SubSpecImpl for LinearCombination<Coeffs, Target> {
    open spec fn obeys_sub_spec() -> bool {
        false
    }

    open spec fn sub_req(self, rhs: Self) -> bool {
        true
    }

    open spec fn sub_spec(self, rhs: Self) -> Self {
        self
    }
}

impl<Coeffs: Coefficient, Target: Key> std::ops::Neg for LinearCombination<Coeffs, Target> {
    type Output = Self;

    fn neg(self) -> (r: Self)
        ensures
            r@ == negated_map(self@),
    {
        self.negated()
    }
}

impl<Coeffs: Coefficient, Target: Key> vstd::std_specs::ops::NegSpecImpl for LinearCombination<Coeffs, Target> {
    open spec fn obeys_neg_spec() -> bool {
        false
    }

    open spec fn neg_req(self) -> bool {
        true
    }

    open spec fn neg_spec(self) -> Self {
        self
    }
}

impl<Coeffs: Coefficient, Target: Key> std::ops::Mul<Coeffs> for LinearCombination<Coeffs, Target> {
    type Output = Self;

    fn mul(self, rhs: Coeffs) -> (r: Self)
        ensures
            r@ == scaled_map(self@, rhs),
    {
        self.scaled(rhs)
    }
}

impl<Coeffs: Coefficient, Target: Key> vstd::std_specs::ops::MulSpecImpl<Coeffs> for LinearCombination<Coeffs, Target> {
    open spec fn obeys_mul_spec() -> bool {
        false
    }

    open spec fn mul_req(self, rhs: Coeffs) -> bool {
        true
    }

    open spec fn mul_spec(self, rhs: Coeffs) -> Self {
        self
    }
}

impl<Coeffs: Coefficient, Target: Key> PartialEq for LinearCombination<Coeffs, Target> {
    fn eq(&self, other: &Self) -> (b: bool) {
        proof {
            use_type_invariant(self);
            use_type_invariant(other);
        }
        let forth = covered_by(&self.terms, &other.terms);
        let back = covered_by(&other.terms, &self.terms);
        proof {
            if forth && back {
                assert(self@ =~= other@);
            }
        }
        forth && back
    }
}

impl<Coeffs: Coefficient, Target: Key> vstd::std_specs::cmp::PartialEqSpecImpl for LinearCombination<Coeffs, Target> {
    open spec fn obeys_eq_spec() -> bool {
        true
    }

    open spec fn eq_spec(&self, other: &Self) -> bool {
        self@ == other@
    }
}

impl<Coeffs: Coefficient, Target: Key> Clone for LinearCombination<Coeffs, Target> {
    fn clone(&self) -> (r: Self)
        ensures
            r@ == self@,
            r.entries().len() == self.entries().len(),
            forall|i: int|
                0 <= i < self.entries().len() ==> (#[trigger] r.entries()[i]).0@
                    == self.entries()[i].0@ && r.entries()[i].1 == self.entries()[i].1,
    {
        proof {
            use_type_invariant(self);
        }
        let mut terms: Vec<(Target, Coeffs)> = Vec::new();
        let mut i: usize = 0;
        while i < self.terms.len()
            invariant
                i <= self.terms@.len(),
                terms@.len() == i,
                forall|j: int|
                    0 <= j < i ==> (#[trigger] terms@[j]).0@ == self.terms@[j].0@ && terms@[j].1
                        == self.terms@[j].1,
            decreases self.terms@.len() - i,
        {
            terms.push((self.terms[i].0.key_clone(), self.terms[i].1));
            i += 1;
        }
        proof {
            lemma_same_views_same_map(self.terms@, terms@);
        }
        LinearCombination { terms }
    }
}

/// Whether every entry of `a` stands in `b` with the same coefficient.
fn covered_by<K: Key, C: Coefficient>(a: &Vec<(K, C)>, b: &Vec<(K, C)>) -> (r: bool)
    requires
        keys_distinct(a@),
        keys_distinct(b@),
    ensures
        r == forall|k: K::V| #[trigger]
            terms_to_map(a@).dom().contains(k) ==> terms_to_map(b@).dom().contains(k)
                && terms_to_map(b@)[k] == terms_to_map(a@)[k],
{
    let mut i: usize = 0;
    while i < a.len()
        invariant
            i <= a@.len(),
            keys_distinct(a@),
            keys_distinct(b@),
            forall|j: int|
                0 <= j < i ==> terms_to_map(b@).dom().contains(#[trigger] a@[j].0@) && terms_to_map(
                    b@,
                )[a@[j].0@] == a@[j].1,
        decreases a@.len() - i,
    {
        proof {
            lemma_terms_to_map_at(a@, i as int);
        }
        match position(b, &a[i].0) {
            Some(p) => {
                proof {
                    lemma_terms_to_map_at(b@, p as int);
                }
                if !b[p].1.same(&a[i].1) {
                    return false;
                }
            },
            None => {
                return false;
            },
        }
        i += 1;
    }
    proof {
        assert forall|k: K::V| #[trigger]
            terms_to_map(a@).dom().contains(k) implies terms_to_map(b@).dom().contains(k)
            && terms_to_map(b@)[k] == terms_to_map(a@)[k] by {
            let j = choose|j: int| 0 <= j < a@.len() && #[trigger] a@[j].0@ == k;
            lemma_terms_to_map_at(a@, j);
        }
    }
    true
}

/// Two lists that agree in the views of their keys and in their coefficients,
/// entry by entry, stand for the same map.
pub proof fn lemma_same_views_same_map<K: Key, C>(a: Seq<(K, C)>, b: Seq<(K, C)>)
    requires
        keys_distinct(a),
        a.len() == b.len(),
        forall|i: int| 0 <= i < a.len() ==> (#[trigger] b[i]).0@ == a[i].0@ && b[i].1 == a[i].1,
    ensures
        keys_distinct(b),
        terms_to_map(b) == terms_to_map(a),
{
    assert forall|i: int, j: int| 0 <= i < j < b.len() implies b[i].0@ != b[j].0@ by {
        assert(a[i].0@ != a[j].0@);
    }
    let m = terms_to_map(a);
    assert forall|k: K::V| m.dom().contains(k) <==> has_key(b, k) by {
        if has_key(b, k) {
            let j = choose|j: int| 0 <= j < b.len() && #[trigger] b[j].0@ == k;
            assert(a[j].0@ == k);
        }
        if has_key(a, k) {
            let j = choose|j: int| 0 <= j < a.len() && #[trigger] a[j].0@ == k;
            assert(b[j].0@ == k);
        }
    }
    assert forall|i: int| 0 <= i < b.len() implies m[#[trigger] b[i].0@] == b[i].1 by {
        lemma_terms_to_map_at(a, i);
    }
    lemma_map_characterized(b, m);
}

/// Addition of formal sums is commutative: `a + b` and `b + a` are the same sum.
pub proof fn lemma_addition_commutes<Coeffs: Coefficient, Target: Key>(
    a: LinearCombination<Coeffs, Target>,
    b: LinearCombination<Coeffs, Target>,
)
    ensures
        sum_maps(a@, b@) == sum_maps(b@, a@),
        simplified_map(sum_maps(a@, b@)) == simplified_map(sum_maps(b@, a@)),
{
    assert forall|k: Target::V| a@.dom().contains(k) && b@.dom().contains(k) implies a@[k].ring_add(
        b@[k],
    ) == b@[k].ring_add(a@[k]) by {
        Coeffs::lemma_add_commutative(a@[k], b@[k]);
    }
    assert(sum_maps(a@, b@) =~= sum_maps(b@, a@));
}

/// Addition of formal sums is associative: `(a + b) + c` and `a + (b + c)`
/// are the same sum.
pub proof fn lemma_addition_associates<Coeffs: Coefficient, Target: Key>(
    a: LinearCombination<Coeffs, Target>,
    b: LinearCombination<Coeffs, Target>,
    c: LinearCombination<Coeffs, Target>,
)
    ensures
        sum_maps(sum_maps(a@, b@), c@) == sum_maps(a@, sum_maps(b@, c@)),
{
    assert forall|k: Target::V|
        a@.dom().contains(k) && b@.dom().contains(k) && c@.dom().contains(k) implies a@[k].ring_add(
        b@[k],
    ).ring_add(c@[k]) == a@[k].ring_add(b@[k].ring_add(c@[k])) by {
        Coeffs::lemma_add_associative(a@[k], b@[k], c@[k]);
    }
    assert(sum_maps(sum_maps(a@, b@), c@) =~= sum_maps(a@, sum_maps(b@, c@)));
}

/// A formal sum cancels against its negation: `a + (-a)` and `a - a`
/// simplify to the sum without terms.
pub proof fn lemma_negation_cancels<Coeffs: Coefficient, Target: Key>(
    a: LinearCombination<Coeffs, Target>,
)
    ensures
        simplified_map(sum_maps(a@, negated_map(a@))) == Map::<Target::V, Coeffs>::empty(),
        simplified_map(difference_maps(a@, a@)) == Map::<Target::V, Coeffs>::empty(),
{
    assert forall|k: Target::V| a@.dom().contains(k) implies a@[k].ring_add(a@[k].ring_neg())
        == Coeffs::ring_zero() by {
        Coeffs::lemma_add_negation(a@[k]);
    }
    assert(simplified_map(sum_maps(a@, negated_map(a@))) =~= Map::<Target::V, Coeffs>::empty());
}

/// Scaling by one changes nothing: `a * 1` is `a`.
pub proof fn lemma_scaling_by_one<Coeffs: Coefficient, Target: Key>(
    a: LinearCombination<Coeffs, Target>,
)
    ensures
        scaled_map(a@, Coeffs::ring_one()) == a@,
{
    assert forall|k: Target::V| a@.dom().contains(k) implies a@[k].ring_mul(Coeffs::ring_one())
        == a@[k] by {
        Coeffs::lemma_mul_one(a@[k]);
    }
    assert(scaled_map(a@, Coeffs::ring_one()) =~= a@);
}

impl<Coeffs: Coefficient, Target: Key> std::ops::AddAssign for LinearCombination<Coeffs, Target> {
    /// Adds `rhs` onto this sum.
    fn add_assign(&mut self, rhs: Self)
        ensures
            final(self)@ == sum_maps(old(self)@, rhs@),
    {
        let mut fresh = Self::new();
        std::mem::swap(self, &mut fresh);
        *self = fresh.plus(rhs);
    }
}

impl<Coeffs: Coefficient, Target: Key> std::ops::MulAssign<Coeffs> for LinearCombination<
    Coeffs,
    Target,
> {
    /// Multiplies every coefficient of this sum by `rhs`.
    fn mul_assign(&mut self, rhs: Coeffs)
        ensures
            final(self)@ == scaled_map(old(self)@, rhs),
    {
        let mut fresh = Self::new();
        std::mem::swap(self, &mut fresh);
        *self = fresh.scaled(rhs);
    }
}

} // verus!
