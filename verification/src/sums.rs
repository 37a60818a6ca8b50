//! Finite sums of coefficients, and what a list of terms adds up to at one key.

use vstd::prelude::*;
use crate::coefficient::Coefficient;
use crate::key::Key;
use crate::linear_combination::{accumulate, bilinear_terms};

verus! {

/// The sum of `f(0)`, ..., `f(n - 1)`.
pub open spec fn sum<C: Coefficient>(n: int, f: spec_fn(int) -> C) -> C
    decreases n,
{
    if n <= 0 {
        C::ring_zero()
    } else {
        sum(n - 1, f).ring_add(f(n - 1))
    }
}

/// Zero is neutral for addition on the left too.
pub proof fn lemma_zero_add<C: Coefficient>(a: C)
    ensures
        C::ring_zero().ring_add(a) == a,
        a.ring_add(C::ring_zero()) == a,
{
    C::lemma_add_zero(a);
    C::lemma_add_commutative(a, C::ring_zero());
}

/// Sums of equal terms are equal.
pub proof fn lemma_sum_equal<C: Coefficient>(n: int, f: spec_fn(int) -> C, g: spec_fn(int) -> C)
    requires
        forall|i: int| 0 <= i < n ==> #[trigger] f(i) == g(i),
    ensures
        sum(n, f) == sum(n, g),
    decreases n,
{
    if n > 0 {
        lemma_sum_equal(n - 1, f, g);
        assert(f(n - 1) == g(n - 1));
    }
}

/// A sum of zeros is zero.
pub proof fn lemma_sum_zero<C: Coefficient>(n: int, f: spec_fn(int) -> C)
    requires
        forall|i: int| 0 <= i < n ==> #[trigger] f(i) == C::ring_zero(),
    ensures
        sum(n, f) == C::ring_zero(),
    decreases n,
{
    if n > 0 {
        lemma_sum_zero(n - 1, f);
        assert(f(n - 1) == C::ring_zero());
        lemma_zero_add(C::ring_zero());
    }
}

/// A sum with one term that may not be zero is that term.
pub proof fn lemma_sum_single<C: Coefficient>(n: int, f: spec_fn(int) -> C, at: int)
    requires
        0 <= at < n,
        forall|i: int| 0 <= i < n && i != at ==> #[trigger] f(i) == C::ring_zero(),
    ensures
        sum(n, f) == f(at),
    decreases n,
{
    if at == n - 1 {
        lemma_sum_zero(n - 1, f);
        lemma_zero_add(f(at));
    } else {
        lemma_sum_single(n - 1, f, at);
        assert(f(n - 1) == C::ring_zero());
        lemma_zero_add(f(at));
    }
}

/// Four terms added in pairs, either way.
pub proof fn lemma_add_pairs<C: Coefficient>(a: C, b: C, c: C, d: C)
    ensures
        a.ring_add(b).ring_add(c.ring_add(d)) == a.ring_add(c).ring_add(b.ring_add(d)),
{
    C::lemma_add_associative(a.ring_add(b), c, d);
    C::lemma_add_associative(a, b, c);
    C::lemma_add_commutative(b, c);
    C::lemma_add_associative(a, c, b);
    C::lemma_add_associative(a.ring_add(c), b, d);
}

/// The sum of sums, term by term.
pub proof fn lemma_sum_add<C: Coefficient>(
    n: int,
    f: spec_fn(int) -> C,
    g: spec_fn(int) -> C,
    both: spec_fn(int) -> C,
)
    requires
        forall|i: int| 0 <= i < n ==> #[trigger] both(i) == f(i).ring_add(g(i)),
    ensures
        sum(n, both) == sum(n, f).ring_add(sum(n, g)),
    decreases n,
{
    if n <= 0 {
        lemma_zero_add(C::ring_zero());
    } else {
        lemma_sum_add(n - 1, f, g, both);
        assert(both(n - 1) == f(n - 1).ring_add(g(n - 1)));
        lemma_add_pairs(sum(n - 1, f), sum(n - 1, g), f(n - 1), g(n - 1));
    }
}

/// A sum times a number is the sum of the terms times the number.
pub proof fn lemma_sum_times<C: Coefficient>(
    n: int,
    f: spec_fn(int) -> C,
    c: C,
    scaled: spec_fn(int) -> C,
)
    requires
        forall|i: int| 0 <= i < n ==> #[trigger] scaled(i) == f(i).ring_mul(c),
    ensures
        sum(n, scaled) == sum(n, f).ring_mul(c),
    decreases n,
{
    if n <= 0 {
        C::lemma_mul_zero(c);
    } else {
        lemma_sum_times(n - 1, f, c, scaled);
        assert(scaled(n - 1) == f(n - 1).ring_mul(c));
        C::lemma_mul_distributive(sum(n - 1, f), f(n - 1), c);
    }
}

/// A number times a sum is the sum of the number times the terms.
pub proof fn lemma_times_sum<C: Coefficient>(
    n: int,
    f: spec_fn(int) -> C,
    c: C,
    scaled: spec_fn(int) -> C,
)
    requires
        forall|i: int| 0 <= i < n ==> #[trigger] scaled(i) == c.ring_mul(f(i)),
    ensures
        sum(n, scaled) == c.ring_mul(sum(n, f)),
    decreases n,
{
    if n <= 0 {
        C::lemma_mul_zero(c);
    } else {
        lemma_times_sum(n - 1, f, c, scaled);
        assert(scaled(n - 1) == c.ring_mul(f(n - 1)));
        C::lemma_mul_distributive(c, sum(n - 1, f), f(n - 1));
    }
}

/// The rows of a table, each added up.
pub open spec fn row_sums<C: Coefficient>(m: int, table: spec_fn(int, int) -> C) -> spec_fn(int) -> C {
    |i: int| sum(m, |j: int| table(i, j))
}

/// The columns of a table, each added up.
pub open spec fn column_sums<C: Coefficient>(n: int, table: spec_fn(int, int) -> C) -> spec_fn(
    int,
) -> C {
    |j: int| sum(n, |i: int| table(i, j))
}

/// A table can be added up by rows or by columns.
pub proof fn lemma_sum_exchange<C: Coefficient>(n: int, m: int, table: spec_fn(int, int) -> C)
    ensures
        sum(n, row_sums(m, table)) == sum(m, column_sums(n, table)),
    decreases n,
{
    let rows = row_sums(m, table);
    let columns = column_sums(n, table);
    if n <= 0 {
        assert forall|j: int| 0 <= j < m implies #[trigger] columns(j) == C::ring_zero() by {}
        lemma_sum_zero(m, columns);
    } else {
        lemma_sum_exchange(n - 1, m, table);
        let shorter = column_sums(n - 1, table);
        let last_row = |j: int| table(n - 1, j);
        assert forall|j: int| 0 <= j < m implies #[trigger] columns(j) == shorter(j).ring_add(
            last_row(j),
        ) by {
            let column = |i: int| table(i, j);
            assert(sum(n, column) == sum(n - 1, column).ring_add(column(n - 1)));
        }
        lemma_sum_add(m, shorter, last_row, columns);
        assert(rows(n - 1) == sum(m, last_row));
    }
}

/// What the terms with the key `k` add up to.
pub open spec fn total<KV, C: Coefficient>(s: Seq<(KV, C)>, k: KV) -> C {
    sum(s.len() as int, picked(s, k))
}

/// The coefficient of the term at a place if its key is `k`, else zero.
pub open spec fn picked<KV, C: Coefficient>(s: Seq<(KV, C)>, k: KV) -> spec_fn(int) -> C {
    |i: int|
        if s[i].0 == k {
            s[i].1
        } else {
            C::ring_zero()
        }
}

/// Some term of the list has the key `k`.
pub open spec fn mentions<KV, C>(s: Seq<(KV, C)>, k: KV) -> bool {
    exists|i: int| 0 <= i < s.len() && (#[trigger] s[i]).0 == k
}

/// The total of a list with one more term.
pub proof fn lemma_total_push<KV, C: Coefficient>(s: Seq<(KV, C)>, key: KV, c: C, k: KV)
    ensures
        total(s.push((key, c)), k) == total(s, k).ring_add(
            if key == k {
                c
            } else {
                C::ring_zero()
            },
        ),
{
    let longer = s.push((key, c));
    assert forall|i: int| 0 <= i < s.len() implies #[trigger] picked(longer, k)(i) == picked(s, k)(
        i,
    ) by {
        assert(longer[i] == s[i]);
    }
    lemma_sum_equal(s.len() as int, picked(longer, k), picked(s, k));
    assert(sum(longer.len() as int, picked(longer, k)) == sum(
        longer.len() - 1,
        picked(longer, k),
    ).ring_add(picked(longer, k)(longer.len() - 1)));
}

/// The total at a key that no term has is zero.
pub proof fn lemma_total_absent<KV, C: Coefficient>(s: Seq<(KV, C)>, k: KV)
    requires
        !mentions(s, k),
    ensures
        total(s, k) == C::ring_zero(),
{
    assert forall|i: int| 0 <= i < s.len() implies #[trigger] picked(s, k)(i) == C::ring_zero() by {
        assert(s[i].0 != k);
    }
    lemma_sum_zero(s.len() as int, picked(s, k));
}

/// The total of two lists, one after the other.
pub proof fn lemma_total_concat<KV, C: Coefficient>(s: Seq<(KV, C)>, t: Seq<(KV, C)>, k: KV)
    ensures
        total(s + t, k) == total(s, k).ring_add(total(t, k)),
    decreases t.len(),
{
    if t.len() == 0 {
        assert(s + t =~= s);
        lemma_zero_add(total(s, k));
    } else {
        let head = t.drop_last();
        let last = t.last();
        assert(s + t =~= (s + head).push(last));
        assert(t =~= head.push(last));
        lemma_total_concat(s, head, k);
        lemma_total_push(s + head, last.0, last.1, k);
        lemma_total_push(head, last.0, last.1, k);
        let extra = if last.0 == k {
            last.1
        } else {
            C::ring_zero()
        };
        C::lemma_add_associative(total(s, k), total(head, k), extra);
    }
}

/// A list adds up to a map that has the keys of its terms, and at every key
/// the total of the terms with that key.
pub proof fn lemma_accumulate_total<KV, C: Coefficient>(s: Seq<(KV, C)>, k: KV)
    ensures
        accumulate(s).dom().contains(k) <==> mentions(s, k),
        accumulate(s).dom().contains(k) ==> accumulate(s)[k] == total(s, k),
    decreases s.len(),
{
    if s.len() > 0 {
        let head = s.drop_last();
        let last = s.last();
        assert(s =~= head.push(last));
        lemma_accumulate_total(head, k);
        lemma_accumulate_total(head, last.0);
        lemma_total_push(head, last.0, last.1, k);
        if mentions(head, k) {
            let i = choose|i: int| 0 <= i < head.len() && (#[trigger] head[i]).0 == k;
            assert(s[i].0 == k);
        }
        if mentions(s, k) {
            let i = choose|i: int| 0 <= i < s.len() && (#[trigger] s[i]).0 == k;
            if i < head.len() {
                assert(head[i].0 == k);
            }
        }
        if last.0 == k {
            assert(s[s.len() - 1].0 == k);
            if !mentions(head, k) {
                lemma_total_absent(head, k);
                lemma_zero_add(last.1);
            }
        } else {
            lemma_zero_add(total(head, k));
        }
    } else {
        if mentions(s, k) {
            let i = choose|i: int| 0 <= i < s.len() && (#[trigger] s[i]).0 == k;
        }
    }
}

/// Two lists with the same keys and the same totals add up to the same map.
pub proof fn lemma_same_totals<KV, C: Coefficient>(s: Seq<(KV, C)>, t: Seq<(KV, C)>)
    requires
        forall|k: KV| #[trigger] mentions(s, k) <==> mentions(t, k),
        forall|k: KV| mentions(s, k) ==> #[trigger] total(s, k) == total(t, k),
    ensures
        accumulate(s) == accumulate(t),
{
    assert forall|k: KV| accumulate(s).dom().contains(k) <==> accumulate(t).dom().contains(k) by {
        lemma_accumulate_total(s, k);
        lemma_accumulate_total(t, k);
        assert(mentions(s, k) <==> mentions(t, k));
    }
    assert forall|k: KV| accumulate(s).dom().contains(k) implies accumulate(s)[k] == accumulate(
        t,
    )[k] by {
        lemma_accumulate_total(s, k);
        lemma_accumulate_total(t, k);
        assert(total(s, k) == total(t, k));
    }
    assert(accumulate(s) =~= accumulate(t));
}

/// The entries of a list with the views of their keys.
pub open spec fn views_of<K: Key, C>(terms: Seq<(K, C)>) -> Seq<(K::V, C)> {
    Seq::new(terms.len(), |i: int| (terms[i].0@, terms[i].1))
}

/// One row of products: the term `left` with every term of `rhs` in turn.
pub open spec fn product_line<A, B, K, C: Coefficient>(
    left: (A, C),
    rhs: Seq<(B, C)>,
    g: spec_fn(A, B) -> K,
) -> Seq<(K, C)> {
    Seq::new(rhs.len(), |j: int| (g(left.0, rhs[j].0), left.1.ring_mul(rhs[j].1)))
}

/// The products of the first `rows` terms of `lhs` with the terms of `rhs`,
/// row after row.
pub open spec fn products<A, B, K, C: Coefficient>(
    lhs: Seq<(A, C)>,
    rhs: Seq<(B, C)>,
    g: spec_fn(A, B) -> K,
    rows: nat,
) -> Seq<(K, C)>
    decreases rows,
{
    if rows == 0 {
        Seq::empty()
    } else {
        products(lhs, rhs, g, (rows - 1) as nat) + product_line(lhs[rows - 1], rhs, g)
    }
}

/// The terms of a bilinear extension are the products of the two lists of views.
pub proof fn lemma_bilinear_is_products<K1: Key, K2: Key, KV, C: Coefficient>(
    lhs: Seq<(K1, C)>,
    rhs: Seq<(K2, C)>,
    g: spec_fn(K1::V, K2::V) -> KV,
    rows: nat,
)
    requires
        rows <= lhs.len(),
    ensures
        bilinear_terms(lhs, rhs, g, rows) == products(views_of(lhs), views_of(rhs), g, rows),
    decreases rows,
{
    if rows > 0 {
        lemma_bilinear_is_products(lhs, rhs, g, (rows - 1) as nat);
        let i = rows - 1;
        assert(Seq::new(
            rhs.len(),
            |j: int| (g(lhs[i].0@, rhs[j].0@), lhs[i].1.ring_mul(rhs[j].1)),
        ) =~= product_line(views_of(lhs)[i], views_of(rhs), g));
    }
}

/// What a function of the terms adds up to over a list.
pub open spec fn sum_over<K, C: Coefficient>(s: Seq<(K, C)>, f: spec_fn((K, C)) -> C) -> C {
    sum(s.len() as int, |p: int| f(s[p]))
}

/// The sum over two lists, one after the other.
pub proof fn lemma_sum_over_concat<K, C: Coefficient>(
    s: Seq<(K, C)>,
    t: Seq<(K, C)>,
    f: spec_fn((K, C)) -> C,
)
    ensures
        sum_over(s + t, f) == sum_over(s, f).ring_add(sum_over(t, f)),
    decreases t.len(),
{
    let whole = s + t;
    if t.len() == 0 {
        assert(whole =~= s);
        lemma_zero_add(sum_over(s, f));
    } else {
        let head = t.drop_last();
        lemma_sum_over_concat(s, head, f);
        let a = |p: int| f(whole[p]);
        let b = |p: int| f((s + head)[p]);
        let c = |p: int| f(t[p]);
        let d = |p: int| f(head[p]);
        assert forall|p: int| 0 <= p < whole.len() - 1 implies #[trigger] a(p) == b(p) by {
            assert(whole[p] == (s + head)[p]);
        }
        lemma_sum_equal(whole.len() - 1, a, b);
        assert forall|p: int| 0 <= p < t.len() - 1 implies #[trigger] c(p) == d(p) by {
            assert(t[p] == head[p]);
        }
        lemma_sum_equal(t.len() - 1, c, d);
        assert((s + head).len() == whole.len() - 1);
        assert(head.len() == t.len() - 1);
        assert(whole[whole.len() - 1] == t[t.len() - 1]);
        assert(sum(whole.len() as int, a) == sum(whole.len() - 1, a).ring_add(a(whole.len() - 1)));
        assert(sum(t.len() as int, c) == sum(t.len() - 1, c).ring_add(c(t.len() - 1)));
        C::lemma_add_associative(sum_over(s, f), sum_over(head, f), f(t[t.len() - 1]));
    }
}

/// What a function adds up to over one row of products.
pub open spec fn line_sums<A, B, K, C: Coefficient>(
    lhs: Seq<(A, C)>,
    rhs: Seq<(B, C)>,
    g: spec_fn(A, B) -> K,
    f: spec_fn((K, C)) -> C,
) -> spec_fn(int) -> C {
    |i: int| sum_over(product_line(lhs[i], rhs, g), f)
}

/// The sum over a list of products is the sum of the sums over the rows.
pub proof fn lemma_sum_over_products<A, B, K, C: Coefficient>(
    lhs: Seq<(A, C)>,
    rhs: Seq<(B, C)>,
    g: spec_fn(A, B) -> K,
    rows: nat,
    f: spec_fn((K, C)) -> C,
)
    ensures
        sum_over(products(lhs, rhs, g, rows), f) == sum(rows as int, line_sums(lhs, rhs, g, f)),
    decreases rows,
{
    if rows > 0 {
        lemma_sum_over_products(lhs, rhs, g, (rows - 1) as nat, f);
        lemma_sum_over_concat(
            products(lhs, rhs, g, (rows - 1) as nat),
            product_line(lhs[rows - 1], rhs, g),
            f,
        );
    }
}

/// The total at a key is the sum of the picked coefficients over the list.
pub open spec fn pick<K, C: Coefficient>(k: K) -> spec_fn((K, C)) -> C {
    |e: (K, C)|
        if e.0 == k {
            e.1
        } else {
            C::ring_zero()
        }
}

/// The total is a sum over the list.
pub proof fn lemma_total_is_sum_over<K, C: Coefficient>(s: Seq<(K, C)>, k: K)
    ensures
        total(s, k) == sum_over(s, pick(k)),
{
    let f = pick::<K, C>(k);
    let a = |p: int| f(s[p]);
    assert forall|p: int| 0 <= p < s.len() implies #[trigger] picked(s, k)(p) == a(p) by {}
    lemma_sum_equal(s.len() as int, picked(s, k), a);
}

/// A key is mentioned by a list of products exactly when it is made of a
/// term of each list.
pub proof fn lemma_products_mention<A, B, K, C: Coefficient>(
    lhs: Seq<(A, C)>,
    rhs: Seq<(B, C)>,
    g: spec_fn(A, B) -> K,
    rows: nat,
    k: K,
)
    ensures
        mentions(products(lhs, rhs, g, rows), k) <==> exists|i: int, j: int|
            0 <= i < rows && 0 <= j < rhs.len() && #[trigger] g(lhs[i].0, rhs[j].0) == k,
    decreases rows,
{
    let all = products(lhs, rhs, g, rows);
    if rows > 0 {
        let head = products(lhs, rhs, g, (rows - 1) as nat);
        let line = product_line(lhs[rows - 1], rhs, g);
        lemma_products_mention(lhs, rhs, g, (rows - 1) as nat, k);
        if mentions(all, k) {
            let p = choose|p: int| 0 <= p < all.len() && (#[trigger] all[p]).0 == k;
            if p < head.len() {
                assert(head[p].0 == k);
                let (i, j) = choose|i: int, j: int|
                    0 <= i < rows - 1 && 0 <= j < rhs.len() && #[trigger] g(lhs[i].0, rhs[j].0) == k;
                assert(0 <= i < rows && g(lhs[i].0, rhs[j].0) == k);
            } else {
                let j = p - head.len();
                assert(line[j].0 == k);
                assert(g(lhs[rows - 1].0, rhs[j].0) == k);
            }
        }
        if exists|i: int, j: int|
            0 <= i < rows && 0 <= j < rhs.len() && #[trigger] g(lhs[i].0, rhs[j].0) == k {
            let (i, j) = choose|i: int, j: int|
                0 <= i < rows && 0 <= j < rhs.len() && #[trigger] g(lhs[i].0, rhs[j].0) == k;
            if i < rows - 1 {
                assert(mentions(head, k));
                let p = choose|p: int| 0 <= p < head.len() && (#[trigger] head[p]).0 == k;
                assert(all[p].0 == k);
            } else {
                assert(line[j].0 == k);
                assert(all[head.len() + j].0 == k);
            }
        }
    } else {
        if mentions(all, k) {
            let p = choose|p: int| 0 <= p < all.len() && (#[trigger] all[p]).0 == k;
        }
    }
}

/// The list without the terms that have the key `k`.
pub open spec fn without_key<K, C>(s: Seq<(K, C)>, k: K) -> Seq<(K, C)>
    decreases s.len(),
{
    if s.len() == 0 {
        Seq::empty()
    } else if s.last().0 == k {
        without_key(s.drop_last(), k)
    } else {
        without_key(s.drop_last(), k).push(s.last())
    }
}

/// The sum over a list with one more term.
pub proof fn lemma_sum_over_push<K, C: Coefficient>(
    s: Seq<(K, C)>,
    e: (K, C),
    f: spec_fn((K, C)) -> C,
)
    ensures
        sum_over(s.push(e), f) == sum_over(s, f).ring_add(f(e)),
{
    assert(s.push(e) =~= s + seq![e]);
    lemma_sum_over_concat(s, seq![e], f);
    let one = |p: int| f(seq![e][p]);
    assert(sum(1, one) == sum(0, one).ring_add(one(0)));
    lemma_zero_add(f(e));
}

/// What is left without a key mentions the other keys, and has their totals.
pub proof fn lemma_without_key<K, C: Coefficient>(s: Seq<(K, C)>, k: K, other: K)
    requires
        other != k,
    ensures
        mentions(without_key(s, k), other) <==> mentions(s, other),
        !mentions(without_key(s, k), k),
        total(without_key(s, k), other) == total(s, other),
    decreases s.len(),
{
    let rest = without_key(s, k);
    if s.len() > 0 {
        let head = s.drop_last();
        let last = s.last();
        assert(s =~= head.push(last));
        lemma_without_key(head, k, other);
        lemma_total_push(head, last.0, last.1, other);
        let shorter = without_key(head, k);
        if mentions(head, other) {
            let i = choose|i: int| 0 <= i < head.len() && (#[trigger] head[i]).0 == other;
            assert(s[i].0 == other);
        }
        if mentions(s, other) {
            let i = choose|i: int| 0 <= i < s.len() && (#[trigger] s[i]).0 == other;
            if i < head.len() {
                assert(head[i].0 == other);
            }
        }
        if last.0 == k {
            lemma_zero_add(total(head, other));
        } else {
            lemma_total_push(shorter, last.0, last.1, other);
            if mentions(shorter, other) {
                let i = choose|i: int| 0 <= i < shorter.len() && (#[trigger] shorter[i]).0 == other;
                assert(rest[i].0 == other);
            }
            if mentions(rest, other) {
                let i = choose|i: int| 0 <= i < rest.len() && (#[trigger] rest[i]).0 == other;
                if i < shorter.len() {
                    assert(shorter[i].0 == other);
                }
            }
            if last.0 == other {
                assert(rest[rest.len() - 1].0 == other);
                assert(s[s.len() - 1].0 == other);
            }
            if mentions(rest, k) {
                let i = choose|i: int| 0 <= i < rest.len() && (#[trigger] rest[i]).0 == k;
                if i < shorter.len() {
                    assert(shorter[i].0 == k);
                }
            }
        }
    } else {
        if mentions(rest, k) {
            let i = choose|i: int| 0 <= i < rest.len() && (#[trigger] rest[i]).0 == k;
        }
        if mentions(s, other) {
            let i = choose|i: int| 0 <= i < s.len() && (#[trigger] s[i]).0 == other;
        }
    }
}

/// `f` is additive in the coefficient: at one key, the value at a sum is
/// the sum of the values, and the value at zero is zero.
pub open spec fn additive<K, C: Coefficient>(f: spec_fn((K, C)) -> C) -> bool {
    &&& forall|k: K, a: C, b: C| #[trigger] f((k, a.ring_add(b))) == f((k, a)).ring_add(f((k, b)))
    &&& forall|k: K| #[trigger] f((k, C::ring_zero())) == C::ring_zero()
}

/// The sum of an additive function over a list is its sum over the list
/// without a key, and its value at that key with the total of the key.
pub proof fn lemma_split_key<K, C: Coefficient>(s: Seq<(K, C)>, k: K, f: spec_fn((K, C)) -> C)
    requires
        additive(f),
    ensures
        sum_over(s, f) == sum_over(without_key(s, k), f).ring_add(f((k, total(s, k)))),
    decreases s.len(),
{
    if s.len() == 0 {
        assert(f((k, C::ring_zero())) == C::ring_zero());
        lemma_zero_add(C::ring_zero());
    } else {
        let head = s.drop_last();
        let last = s.last();
        assert(s =~= head.push(last));
        lemma_split_key(head, k, f);
        lemma_sum_over_push(head, last, f);
        lemma_total_push(head, last.0, last.1, k);
        let rest = sum_over(without_key(head, k), f);
        let at_key = f((k, total(head, k)));
        if last.0 == k {
            assert(f((k, total(head, k).ring_add(last.1))) == f((k, total(head, k))).ring_add(
                f((k, last.1)),
            ));
            C::lemma_add_associative(rest, at_key, f(last));
        } else {
            lemma_sum_over_push(without_key(head, k), last, f);
            lemma_zero_add(total(head, k));
            C::lemma_add_associative(rest, at_key, f(last));
            C::lemma_add_commutative(at_key, f(last));
            C::lemma_add_associative(rest, f(last), at_key);
        }
    }
}

/// `merged` has every key of `s` once, with the total of the key in `s`.
pub open spec fn merges<K, C: Coefficient>(merged: Seq<(K, C)>, s: Seq<(K, C)>) -> bool {
    &&& forall|i: int, j: int|
        0 <= i < j < merged.len() ==> (#[trigger] merged[i]).0 != (#[trigger] merged[j]).0
    &&& forall|k: K| #[trigger] mentions(merged, k) <==> mentions(s, k)
    &&& forall|i: int| 0 <= i < merged.len() ==> (#[trigger] merged[i]).1 == total(s, merged[i].0)
}

/// The sum of an additive function over a list is its sum over the merged list.
pub proof fn lemma_merged_sum<K, C: Coefficient>(
    merged: Seq<(K, C)>,
    s: Seq<(K, C)>,
    f: spec_fn((K, C)) -> C,
)
    requires
        additive(f),
        merges(merged, s),
    ensures
        sum_over(merged, f) == sum_over(s, f),
    decreases merged.len(),
{
    if merged.len() == 0 {
        if s.len() > 0 {
            let first = s[0];
            assert(s[0].0 == first.0);
            assert(mentions(s, first.0));
            assert(mentions(merged, first.0));
            let i = choose|i: int| 0 <= i < merged.len() && (#[trigger] merged[i]).0 == first.0;
            assert(false);
        }
        assert(s =~= merged);
    } else {
        let head = merged.drop_last();
        let last = merged.last();
        let k = last.0;
        let rest = without_key(s, k);
        assert(merged =~= head.push(last));
        assert forall|other: K| #[trigger] mentions(head, other) <==> mentions(rest, other) by {
            if other == k {
                if mentions(head, other) {
                    let i = choose|i: int| 0 <= i < head.len() && (#[trigger] head[i]).0 == other;
                    assert(merged[i].0 != merged[merged.len() - 1].0);
                }
                lemma_without_key_absent(s, k);
            } else {
                lemma_without_key(s, k, other);
                if mentions(head, other) {
                    let i = choose|i: int| 0 <= i < head.len() && (#[trigger] head[i]).0 == other;
                    assert(merged[i].0 == other);
                }
                if mentions(merged, other) {
                    let i = choose|i: int| 0 <= i < merged.len() && (#[trigger] merged[i]).0 == other;
                    assert(head[i].0 == other);
                }
            }
        }
        assert forall|i: int| 0 <= i < head.len() implies (#[trigger] head[i]).1 == total(
            rest,
            head[i].0,
        ) by {
            assert(merged[i].0 != merged[merged.len() - 1].0);
            lemma_without_key(s, k, head[i].0);
            assert(head[i] == merged[i]);
        }
        lemma_merged_sum(head, rest, f);
        lemma_sum_over_push(head, last, f);
        lemma_split_key(s, k, f);
        assert(merged[merged.len() - 1].1 == total(s, merged[merged.len() - 1].0));
    }
}

/// What is left without a key does not mention the key.
pub proof fn lemma_without_key_absent<K, C: Coefficient>(s: Seq<(K, C)>, k: K)
    ensures
        !mentions(without_key(s, k), k),
    decreases s.len(),
{
    let rest = without_key(s, k);
    if s.len() > 0 {
        lemma_without_key_absent(s.drop_last(), k);
        let shorter = without_key(s.drop_last(), k);
        if mentions(rest, k) {
            let i = choose|i: int| 0 <= i < rest.len() && (#[trigger] rest[i]).0 == k;
            if s.last().0 != k {
                if i < shorter.len() {
                    assert(shorter[i].0 == k);
                }
            }
        }
    } else {
        if mentions(rest, k) {
            let i = choose|i: int| 0 <= i < rest.len() && (#[trigger] rest[i]).0 == k;
        }
    }
}

/// What the products of one term with the terms of `rhs` add up to at the key `k`.
pub open spec fn line_total<A, B, K, C: Coefficient>(
    rhs: Seq<(B, C)>,
    g: spec_fn(A, B) -> K,
    k: K,
) -> spec_fn((A, C)) -> C {
    |e: (A, C)| sum_over(product_line(e, rhs, g), pick(k))
}

/// The product of the term `left` with a term, if it has the key `k`, else zero.
pub open spec fn product_pick<A, B, K, C: Coefficient>(
    left: (A, C),
    g: spec_fn(A, B) -> K,
    k: K,
) -> spec_fn((B, C)) -> C {
    |e: (B, C)|
        if g(left.0, e.0) == k {
            left.1.ring_mul(e.1)
        } else {
            C::ring_zero()
        }
}

/// The sum over a row of products is a sum over the terms of `rhs`.
pub proof fn lemma_line_is_sum_over<A, B, K, C: Coefficient>(
    left: (A, C),
    rhs: Seq<(B, C)>,
    g: spec_fn(A, B) -> K,
    k: K,
)
    ensures
        sum_over(product_line(left, rhs, g), pick(k)) == sum_over(rhs, product_pick(left, g, k)),
{
    let line = product_line(left, rhs, g);
    let a = |p: int| pick::<K, C>(k)(line[p]);
    let b = |p: int| product_pick(left, g, k)(rhs[p]);
    assert forall|p: int| 0 <= p < rhs.len() implies #[trigger] a(p) == b(p) by {}
    lemma_sum_equal(rhs.len() as int, a, b);
}

/// The total of a list of products is the sum of the totals of its rows.
pub proof fn lemma_products_total<A, B, K, C: Coefficient>(
    lhs: Seq<(A, C)>,
    rhs: Seq<(B, C)>,
    g: spec_fn(A, B) -> K,
    k: K,
)
    ensures
        total(products(lhs, rhs, g, lhs.len()), k) == sum_over(lhs, line_total(rhs, g, k)),
{
    let all = products(lhs, rhs, g, lhs.len());
    lemma_total_is_sum_over(all, k);
    lemma_sum_over_products(lhs, rhs, g, lhs.len(), pick(k));
    let a = line_sums(lhs, rhs, g, pick(k));
    let b = |p: int| line_total(rhs, g, k)(lhs[p]);
    assert forall|p: int| 0 <= p < lhs.len() implies #[trigger] a(p) == b(p) by {}
    lemma_sum_equal(lhs.len() as int, a, b);
}

/// The total of a row of products is additive in the coefficient of the
/// term on the left.
pub proof fn lemma_line_total_additive<A, B, K, C: Coefficient>(
    rhs: Seq<(B, C)>,
    g: spec_fn(A, B) -> K,
    k: K,
)
    ensures
        additive(line_total(rhs, g, k)),
{
    let f = line_total(rhs, g, k);
    assert forall|key: A, a: C, b: C| #[trigger] f((key, a.ring_add(b))) == f((key, a)).ring_add(
        f((key, b)),
    ) by {
        lemma_line_is_sum_over((key, a.ring_add(b)), rhs, g, k);
        lemma_line_is_sum_over((key, a), rhs, g, k);
        lemma_line_is_sum_over((key, b), rhs, g, k);
        let both = |p: int| product_pick((key, a.ring_add(b)), g, k)(rhs[p]);
        let first = |p: int| product_pick((key, a), g, k)(rhs[p]);
        let second = |p: int| product_pick((key, b), g, k)(rhs[p]);
        assert forall|p: int| 0 <= p < rhs.len() implies #[trigger] both(p) == first(p).ring_add(
            second(p),
        ) by {
            C::lemma_mul_distributive(a, b, rhs[p].1);
            lemma_zero_add(C::ring_zero());
        }
        lemma_sum_add(rhs.len() as int, first, second, both);
    }
    assert forall|key: A| #[trigger] f((key, C::ring_zero())) == C::ring_zero() by {
        lemma_line_is_sum_over((key, C::ring_zero()), rhs, g, k);
        let none = |p: int| product_pick((key, C::ring_zero()), g, k)(rhs[p]);
        assert forall|p: int| 0 <= p < rhs.len() implies #[trigger] none(p) == C::ring_zero() by {
            C::lemma_mul_zero(rhs[p].1);
        }
        lemma_sum_zero(rhs.len() as int, none);
    }
}

/// The product with a term on the left is additive in the coefficient of
/// the term on the right.
pub proof fn lemma_product_pick_additive<A, B, K, C: Coefficient>(
    left: (A, C),
    g: spec_fn(A, B) -> K,
    k: K,
)
    ensures
        additive(product_pick(left, g, k)),
{
    let f = product_pick(left, g, k);
    assert forall|key: B, a: C, b: C| #[trigger] f((key, a.ring_add(b))) == f((key, a)).ring_add(
        f((key, b)),
    ) by {
        C::lemma_mul_distributive(left.1, a, b);
        lemma_zero_add(C::ring_zero());
    }
    assert forall|key: B| #[trigger] f((key, C::ring_zero())) == C::ring_zero() by {
        C::lemma_mul_zero(left.1);
    }
}

/// In a product of two lists, the list on the left can be merged first.
pub proof fn lemma_merge_left<A, B, K, C: Coefficient>(
    merged: Seq<(A, C)>,
    s: Seq<(A, C)>,
    rhs: Seq<(B, C)>,
    g: spec_fn(A, B) -> K,
)
    requires
        merges(merged, s),
    ensures
        accumulate(products(merged, rhs, g, merged.len())) == accumulate(
            products(s, rhs, g, s.len()),
        ),
{
    let first = products(merged, rhs, g, merged.len());
    let second = products(s, rhs, g, s.len());
    assert forall|k: K| #[trigger] mentions(first, k) <==> mentions(second, k) by {
        lemma_products_mention(merged, rhs, g, merged.len(), k);
        lemma_products_mention(s, rhs, g, s.len(), k);
        if mentions(first, k) {
            let (i, j) = choose|i: int, j: int|
                0 <= i < merged.len() && 0 <= j < rhs.len() && #[trigger] g(merged[i].0, rhs[j].0)
                    == k;
            assert(mentions(merged, merged[i].0));
            let p = choose|p: int| 0 <= p < s.len() && (#[trigger] s[p]).0 == merged[i].0;
            assert(g(s[p].0, rhs[j].0) == k);
        }
        if mentions(second, k) {
            let (p, j) = choose|p: int, j: int|
                0 <= p < s.len() && 0 <= j < rhs.len() && #[trigger] g(s[p].0, rhs[j].0) == k;
            assert(mentions(s, s[p].0));
            assert(mentions(merged, s[p].0));
            let i = choose|i: int| 0 <= i < merged.len() && (#[trigger] merged[i]).0 == s[p].0;
            assert(g(merged[i].0, rhs[j].0) == k);
        }
    }
    assert forall|k: K| mentions(first, k) implies #[trigger] total(first, k) == total(second, k) by {
        lemma_products_total(merged, rhs, g, k);
        lemma_products_total(s, rhs, g, k);
        lemma_line_total_additive(rhs, g, k);
        lemma_merged_sum(merged, s, line_total(rhs, g, k));
    }
    lemma_same_totals(first, second);
}

/// In a product of two lists, the list on the right can be merged first.
pub proof fn lemma_merge_right<A, B, K, C: Coefficient>(
    lhs: Seq<(A, C)>,
    merged: Seq<(B, C)>,
    s: Seq<(B, C)>,
    g: spec_fn(A, B) -> K,
)
    requires
        merges(merged, s),
    ensures
        accumulate(products(lhs, merged, g, lhs.len())) == accumulate(
            products(lhs, s, g, lhs.len()),
        ),
{
    let first = products(lhs, merged, g, lhs.len());
    let second = products(lhs, s, g, lhs.len());
    assert forall|k: K| #[trigger] mentions(first, k) <==> mentions(second, k) by {
        lemma_products_mention(lhs, merged, g, lhs.len(), k);
        lemma_products_mention(lhs, s, g, lhs.len(), k);
        if mentions(first, k) {
            let (i, j) = choose|i: int, j: int|
                0 <= i < lhs.len() && 0 <= j < merged.len() && #[trigger] g(lhs[i].0, merged[j].0)
                    == k;
            assert(mentions(merged, merged[j].0));
            let p = choose|p: int| 0 <= p < s.len() && (#[trigger] s[p]).0 == merged[j].0;
            assert(g(lhs[i].0, s[p].0) == k);
        }
        if mentions(second, k) {
            let (i, p) = choose|i: int, p: int|
                0 <= i < lhs.len() && 0 <= p < s.len() && #[trigger] g(lhs[i].0, s[p].0) == k;
            assert(mentions(s, s[p].0));
            assert(mentions(merged, s[p].0));
            let j = choose|j: int| 0 <= j < merged.len() && (#[trigger] merged[j]).0 == s[p].0;
            assert(g(lhs[i].0, merged[j].0) == k);
        }
    }
    assert forall|k: K| mentions(first, k) implies #[trigger] total(first, k) == total(second, k) by {
        lemma_products_total(lhs, merged, g, k);
        lemma_products_total(lhs, s, g, k);
        let a = |p: int| line_total(merged, g, k)(lhs[p]);
        let b = |p: int| line_total(s, g, k)(lhs[p]);
        assert forall|p: int| 0 <= p < lhs.len() implies #[trigger] a(p) == b(p) by {
            lemma_line_is_sum_over(lhs[p], merged, g, k);
            lemma_line_is_sum_over(lhs[p], s, g, k);
            lemma_product_pick_additive(lhs[p], g, k);
            lemma_merged_sum(merged, s, product_pick(lhs[p], g, k));
        }
        lemma_sum_equal(lhs.len() as int, a, b);
    }
    lemma_same_totals(first, second);
}

/// The product of three terms bracketed to the left, if it has the key `k`, else zero.
pub open spec fn cell_left<A, B, D, K1, K, C: Coefficient>(
    f: Seq<(A, C)>,
    g: Seq<(B, C)>,
    h: Seq<(D, C)>,
    g1: spec_fn(A, B) -> K1,
    g2: spec_fn(K1, D) -> K,
    k: K,
    i: int,
    j: int,
) -> spec_fn(int) -> C {
    |l: int|
        if g2(g1(f[i].0, g[j].0), h[l].0) == k {
            f[i].1.ring_mul(g[j].1).ring_mul(h[l].1)
        } else {
            C::ring_zero()
        }
}

/// The sums of `cell_left` over the last list.
pub open spec fn row_left<A, B, D, K1, K, C: Coefficient>(
    f: Seq<(A, C)>,
    g: Seq<(B, C)>,
    h: Seq<(D, C)>,
    g1: spec_fn(A, B) -> K1,
    g2: spec_fn(K1, D) -> K,
    k: K,
    i: int,
) -> spec_fn(int) -> C {
    |j: int| sum(h.len() as int, cell_left(f, g, h, g1, g2, k, i, j))
}

/// The sums of `row_left` over the middle list.
pub open spec fn all_left<A, B, D, K1, K, C: Coefficient>(
    f: Seq<(A, C)>,
    g: Seq<(B, C)>,
    h: Seq<(D, C)>,
    g1: spec_fn(A, B) -> K1,
    g2: spec_fn(K1, D) -> K,
    k: K,
) -> spec_fn(int) -> C {
    |i: int| sum(g.len() as int, row_left(f, g, h, g1, g2, k, i))
}

/// The product of three terms bracketed to the right, if it has the key `k`, else zero.
pub open spec fn cell_right<A, B, D, K2, K, C: Coefficient>(
    f: Seq<(A, C)>,
    g: Seq<(B, C)>,
    h: Seq<(D, C)>,
    g3: spec_fn(B, D) -> K2,
    g4: spec_fn(A, K2) -> K,
    k: K,
    i: int,
    j: int,
) -> spec_fn(int) -> C {
    |l: int|
        if g4(f[i].0, g3(g[j].0, h[l].0)) == k {
            f[i].1.ring_mul(g[j].1.ring_mul(h[l].1))
        } else {
            C::ring_zero()
        }
}

/// The sums of `cell_right` over the last list.
pub open spec fn row_right<A, B, D, K2, K, C: Coefficient>(
    f: Seq<(A, C)>,
    g: Seq<(B, C)>,
    h: Seq<(D, C)>,
    g3: spec_fn(B, D) -> K2,
    g4: spec_fn(A, K2) -> K,
    k: K,
    i: int,
) -> spec_fn(int) -> C {
    |j: int| sum(h.len() as int, cell_right(f, g, h, g3, g4, k, i, j))
}

/// The sums of `row_right` over the middle list.
pub open spec fn all_right<A, B, D, K2, K, C: Coefficient>(
    f: Seq<(A, C)>,
    g: Seq<(B, C)>,
    h: Seq<(D, C)>,
    g3: spec_fn(B, D) -> K2,
    g4: spec_fn(A, K2) -> K,
    k: K,
) -> spec_fn(int) -> C {
    |i: int| sum(g.len() as int, row_right(f, g, h, g3, g4, k, i))
}

/// The total of the products of three lists, bracketed to the left, is a
/// sum over the three lists.
pub proof fn lemma_total_left<A, B, D, K1, K, C: Coefficient>(
    f: Seq<(A, C)>,
    g: Seq<(B, C)>,
    h: Seq<(D, C)>,
    g1: spec_fn(A, B) -> K1,
    g2: spec_fn(K1, D) -> K,
    k: K,
)
    ensures
        total(
            products(products(f, g, g1, f.len()), h, g2, products(f, g, g1, f.len()).len()),
            k,
        ) == sum(f.len() as int, all_left(f, g, h, g1, g2, k)),
{
    let inner = products(f, g, g1, f.len());
    let psi = line_total(h, g2, k);
    lemma_products_total(inner, h, g2, k);
    lemma_sum_over_products(f, g, g1, f.len(), psi);
    let lines = line_sums(f, g, g1, psi);
    let target = all_left(f, g, h, g1, g2, k);
    assert forall|i: int| 0 <= i < f.len() implies #[trigger] lines(i) == target(i) by {
        let line = product_line(f[i], g, g1);
        let a = |p: int| psi(line[p]);
        let b = row_left(f, g, h, g1, g2, k, i);
        assert forall|j: int| 0 <= j < g.len() implies #[trigger] a(j) == b(j) by {
            let e = line[j];
            let last = product_line(e, h, g2);
            let c = |p: int| pick::<K, C>(k)(last[p]);
            let d = cell_left(f, g, h, g1, g2, k, i, j);
            assert forall|l: int| 0 <= l < h.len() implies #[trigger] c(l) == d(l) by {}
            lemma_sum_equal(h.len() as int, c, d);
        }
        lemma_sum_equal(g.len() as int, a, b);
    }
    lemma_sum_equal(f.len() as int, lines, target);
}

/// The total of the products of three lists, bracketed to the right, is a
/// sum over the three lists.
pub proof fn lemma_total_right<A, B, D, K2, K, C: Coefficient>(
    f: Seq<(A, C)>,
    g: Seq<(B, C)>,
    h: Seq<(D, C)>,
    g3: spec_fn(B, D) -> K2,
    g4: spec_fn(A, K2) -> K,
    k: K,
)
    ensures
        total(products(f, products(g, h, g3, g.len()), g4, f.len()), k) == sum(
            f.len() as int,
            all_right(f, g, h, g3, g4, k),
        ),
{
    let inner = products(g, h, g3, g.len());
    lemma_products_total(f, inner, g4, k);
    let a = |p: int| line_total(inner, g4, k)(f[p]);
    let target = all_right(f, g, h, g3, g4, k);
    assert forall|i: int| 0 <= i < f.len() implies #[trigger] a(i) == target(i) by {
        let chi = product_pick(f[i], g4, k);
        lemma_line_is_sum_over(f[i], inner, g4, k);
        lemma_sum_over_products(g, h, g3, g.len(), chi);
        let lines = line_sums(g, h, g3, chi);
        let b = row_right(f, g, h, g3, g4, k, i);
        assert forall|j: int| 0 <= j < g.len() implies #[trigger] lines(j) == b(j) by {
            let last = product_line(g[j], h, g3);
            let c = |p: int| chi(last[p]);
            let d = cell_right(f, g, h, g3, g4, k, i, j);
            assert forall|l: int| 0 <= l < h.len() implies #[trigger] c(l) == d(l) by {}
            lemma_sum_equal(h.len() as int, c, d);
        }
        lemma_sum_equal(g.len() as int, lines, b);
    }
    lemma_sum_equal(f.len() as int, a, target);
}

/// The keys fit: a key made of three keys is the same for both bracketings.
pub open spec fn keys_associate<A, B, D, K1, K2, K, C>(
    f: Seq<(A, C)>,
    g: Seq<(B, C)>,
    h: Seq<(D, C)>,
    g1: spec_fn(A, B) -> K1,
    g2: spec_fn(K1, D) -> K,
    g3: spec_fn(B, D) -> K2,
    g4: spec_fn(A, K2) -> K,
) -> bool {
    forall|i: int, j: int, l: int|
        0 <= i < f.len() && 0 <= j < g.len() && 0 <= l < h.len() ==> #[trigger] g2(
            g1(f[i].0, g[j].0),
            h[l].0,
        ) == g4(f[i].0, #[trigger] g3(g[j].0, h[l].0))
}

/// The products of three lists add up to the same map for both
/// bracketings, where the keys do.
pub proof fn lemma_products_associative<A, B, D, K1, K2, K, C: Coefficient>(
    f: Seq<(A, C)>,
    g: Seq<(B, C)>,
    h: Seq<(D, C)>,
    g1: spec_fn(A, B) -> K1,
    g2: spec_fn(K1, D) -> K,
    g3: spec_fn(B, D) -> K2,
    g4: spec_fn(A, K2) -> K,
)
    requires
        keys_associate(f, g, h, g1, g2, g3, g4),
    ensures
        accumulate(
            products(products(f, g, g1, f.len()), h, g2, products(f, g, g1, f.len()).len()),
        ) == accumulate(products(f, products(g, h, g3, g.len()), g4, f.len())),
{
    let fg = products(f, g, g1, f.len());
    let gh = products(g, h, g3, g.len());
    let first = products(fg, h, g2, fg.len());
    let second = products(f, gh, g4, f.len());
    assert forall|k: K| #[trigger] mentions(first, k) <==> mentions(second, k) by {
        lemma_products_mention(fg, h, g2, fg.len(), k);
        lemma_products_mention(f, gh, g4, f.len(), k);
        if mentions(first, k) {
            let (p, l) = choose|p: int, l: int|
                0 <= p < fg.len() && 0 <= l < h.len() && #[trigger] g2(fg[p].0, h[l].0) == k;
            assert(mentions(fg, fg[p].0));
            lemma_products_mention(f, g, g1, f.len(), fg[p].0);
            let (i, j) = choose|i: int, j: int|
                0 <= i < f.len() && 0 <= j < g.len() && #[trigger] g1(f[i].0, g[j].0) == fg[p].0;
            assert(g2(g1(f[i].0, g[j].0), h[l].0) == g4(f[i].0, g3(g[j].0, h[l].0)));
            let inner = g3(g[j].0, h[l].0);
            lemma_products_mention(g, h, g3, g.len(), inner);
            assert(mentions(gh, inner));
            let q = choose|q: int| 0 <= q < gh.len() && (#[trigger] gh[q]).0 == inner;
            assert(g4(f[i].0, gh[q].0) == k);
        }
        if mentions(second, k) {
            let (i, q) = choose|i: int, q: int|
                0 <= i < f.len() && 0 <= q < gh.len() && #[trigger] g4(f[i].0, gh[q].0) == k;
            assert(mentions(gh, gh[q].0));
            lemma_products_mention(g, h, g3, g.len(), gh[q].0);
            let (j, l) = choose|j: int, l: int|
                0 <= j < g.len() && 0 <= l < h.len() && #[trigger] g3(g[j].0, h[l].0) == gh[q].0;
            assert(g2(g1(f[i].0, g[j].0), h[l].0) == g4(f[i].0, g3(g[j].0, h[l].0)));
            let inner = g1(f[i].0, g[j].0);
            lemma_products_mention(f, g, g1, f.len(), inner);
            assert(mentions(fg, inner));
            let p = choose|p: int| 0 <= p < fg.len() && (#[trigger] fg[p]).0 == inner;
            assert(g2(fg[p].0, h[l].0) == k);
        }
    }
    assert forall|k: K| mentions(first, k) implies #[trigger] total(first, k) == total(second, k) by {
        lemma_total_left(f, g, h, g1, g2, k);
        lemma_total_right(f, g, h, g3, g4, k);
        let a = all_left(f, g, h, g1, g2, k);
        let b = all_right(f, g, h, g3, g4, k);
        assert forall|i: int| 0 <= i < f.len() implies #[trigger] a(i) == b(i) by {
            let ra = row_left(f, g, h, g1, g2, k, i);
            let rb = row_right(f, g, h, g3, g4, k, i);
            assert forall|j: int| 0 <= j < g.len() implies #[trigger] ra(j) == rb(j) by {
                let ca = cell_left(f, g, h, g1, g2, k, i, j);
                let cb = cell_right(f, g, h, g3, g4, k, i, j);
                assert forall|l: int| 0 <= l < h.len() implies #[trigger] ca(l) == cb(l) by {
                    assert(g2(g1(f[i].0, g[j].0), h[l].0) == g4(f[i].0, g3(g[j].0, h[l].0)));
                    C::lemma_mul_associative(f[i].1, g[j].1, h[l].1);
                }
                lemma_sum_equal(h.len() as int, ca, cb);
            }
            lemma_sum_equal(g.len() as int, ra, rb);
        }
        lemma_sum_equal(f.len() as int, a, b);
    }
    lemma_same_totals(first, second);
}

} // verus!
