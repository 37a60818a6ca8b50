//! Perfect matchings of `2n` labelled endpoints, in canonical form.

use vstd::prelude::*;
use vstd::relations::injective_on;
use vstd::set_lib::*;
use crate::error::DiagramError;
use crate::key::Key;
use crate::pair::Pair;

verus! {

/// Some pair of the list has `v` as an endpoint.
pub open spec fn covered(pairs: Seq<Pair>, v: int) -> bool {
    exists|i: int| 0 <= i < pairs.len() && #[trigger] pairs[i].touches(v)
}

/// The list joins `a` with `b`.
pub open spec fn paired(pairs: Seq<Pair>, a: int, b: int) -> bool {
    exists|i: int| 0 <= i < pairs.len() && #[trigger] pairs[i].touches(a) && pairs[i].other(a) == b
}

/// The two pairs have no endpoint in common.
pub open spec fn disjoint(p: Pair, q: Pair) -> bool {
    p.0 != q.0 && p.0 != q.1 && p.1 != q.0 && p.1 != q.1
}

/// The `n` pairs cover the indices `0..2n`, each exactly once.
pub open spec fn is_matching(pairs: Seq<Pair>) -> bool {
    &&& forall|i: int|
        0 <= i < pairs.len() ==> (#[trigger] pairs[i]).0 < 2 * pairs.len() && pairs[i].1 < 2
            * pairs.len() && pairs[i].0 != pairs[i].1
    &&& forall|i: int, j: int|
        0 <= i < j < pairs.len() ==> disjoint(#[trigger] pairs[i], #[trigger] pairs[j])
    &&& forall|v: int| 0 <= v < 2 * pairs.len() ==> #[trigger] covered(pairs, v)
}

/// Every pair has its smaller endpoint first, and the pairs stand in the
/// order of their first endpoints. For a matching this is the
/// lexicographic order.
pub open spec fn is_canonical(pairs: Seq<Pair>) -> bool {
    &&& forall|i: int| 0 <= i < pairs.len() ==> (#[trigger] pairs[i]).0 < pairs[i].1
    &&& forall|i: int, j: int|
        0 <= i < j < pairs.len() ==> (#[trigger] pairs[i]).0 < (#[trigger] pairs[j]).0
}

/// The two lists join the same endpoints.
pub open spec fn same_pairing(a: Seq<Pair>, b: Seq<Pair>) -> bool {
    forall|x: int, y: int| #[trigger] paired(a, x, y) <==> paired(b, x, y)
}

/// The endpoint that the list joins to `v`.
pub open spec fn partner(pairs: Seq<Pair>, v: int) -> int {
    pairs[choose|i: int| 0 <= i < pairs.len() && #[trigger] pairs[i].touches(v)].other(v)
}

/// `t[v]` is the endpoint that the list joins to `v`, for every `v` below `2n`.
pub open spec fn table_matches(pairs: Seq<Pair>, t: Seq<usize>) -> bool {
    &&& t.len() == 2 * pairs.len()
    &&& forall|i: int|
        0 <= i < pairs.len() ==> (#[trigger] pairs[i]).0 < t.len() && pairs[i].1 < t.len()
            && t[pairs[i].0 as int] == pairs[i].1 && t[pairs[i].1 as int] == pairs[i].0
}

/// `t` sends every index below its length to another one, and back.
pub open spec fn is_involution(t: Seq<usize>) -> bool {
    forall|v: int|
        0 <= v < t.len() ==> 0 <= #[trigger] t[v] < t.len() && t[v] != v && t[t[v] as int] == v
}

/// In a matching, the pair that touches `v` is unique, so `partner` is what
/// any such pair says.
pub proof fn lemma_partner_unique(pairs: Seq<Pair>, i: int, v: int)
    requires
        is_matching(pairs),
        0 <= i < pairs.len(),
        pairs[i].touches(v),
    ensures
        partner(pairs, v) == pairs[i].other(v),
        paired(pairs, v, partner(pairs, v)),
        0 <= partner(pairs, v) < 2 * pairs.len(),
        partner(pairs, v) != v,
{
    let j = choose|j: int| 0 <= j < pairs.len() && #[trigger] pairs[j].touches(v);
    if j < i {
        assert(disjoint(pairs[j], pairs[i]));
    } else if i < j {
        assert(disjoint(pairs[i], pairs[j]));
    }
}

/// In a matching every index below `2n` has a partner below `2n`, which is
/// another index and has the first as its own partner.
pub proof fn lemma_partner_involution(pairs: Seq<Pair>, v: int)
    requires
        is_matching(pairs),
        0 <= v < 2 * pairs.len(),
    ensures
        0 <= partner(pairs, v) < 2 * pairs.len(),
        partner(pairs, v) != v,
        partner(pairs, partner(pairs, v)) == v,
        paired(pairs, v, partner(pairs, v)),
{
    assert(covered(pairs, v));
    let i = choose|i: int| 0 <= i < pairs.len() && #[trigger] pairs[i].touches(v);
    lemma_partner_unique(pairs, i, v);
    let w = pairs[i].other(v);
    assert(pairs[i].touches(w));
    lemma_partner_unique(pairs, i, w);
}

/// In a matching, what is joined to `a` is the partner of `a`.
pub proof fn lemma_paired_is_partner(pairs: Seq<Pair>, a: int, b: int)
    requires
        is_matching(pairs),
        paired(pairs, a, b),
    ensures
        partner(pairs, a) == b,
        partner(pairs, b) == a,
        0 <= a < 2 * pairs.len(),
        0 <= b < 2 * pairs.len(),
        a != b,
{
    let i = choose|i: int|
        0 <= i < pairs.len() && #[trigger] pairs[i].touches(a) && pairs[i].other(a) == b;
    lemma_partner_unique(pairs, i, a);
    assert(pairs[i].touches(b));
    lemma_partner_unique(pairs, i, b);
}

/// The canonical matching that joins what `pairs` joins.
pub open spec fn canonical_form(pairs: Seq<Pair>) -> Seq<Pair> {
    choose|s: Seq<Pair>| is_matching(s) && is_canonical(s) && same_pairing(s, pairs)
}

/// Two canonical matchings that join the same endpoints have the same pair
/// at every place up to `k`.
proof fn lemma_canonical_agree(s: Seq<Pair>, t: Seq<Pair>, k: int)
    requires
        is_matching(s),
        is_canonical(s),
        is_matching(t),
        is_canonical(t),
        same_pairing(s, t),
        s.len() == t.len(),
        0 <= k < s.len(),
    ensures
        s[k] == t[k],
    decreases k,
{
    assert forall|i: int| 0 <= i < k implies s[i] == t[i] by {
        lemma_canonical_agree(s, t, i);
    }
    let a = s[k];
    let b = t[k];
    assert(s[k].touches(a.0 as int) && s[k].other(a.0 as int) == a.1);
    assert(paired(s, a.0 as int, a.1 as int));
    assert(paired(t, a.0 as int, a.1 as int));
    let j = choose|j: int|
        0 <= j < t.len() && #[trigger] t[j].touches(a.0 as int) && t[j].other(a.0 as int) == a.1;
    assert(t[j].0 < t[j].1);
    assert(t[j] == a);
    if j < k {
        assert(s[j] == t[j]);
        assert(s[j].0 < s[k].0);
    } else if j > k {
        assert(t[k].0 < t[j].0);
    }
    assert(t[k].touches(b.0 as int) && t[k].other(b.0 as int) == b.1);
    assert(paired(t, b.0 as int, b.1 as int));
    assert(paired(s, b.0 as int, b.1 as int));
    let i = choose|i: int|
        0 <= i < s.len() && #[trigger] s[i].touches(b.0 as int) && s[i].other(b.0 as int) == b.1;
    assert(s[i].0 < s[i].1);
    assert(s[i] == b);
    if i < k {
        assert(s[i] == t[i]);
        assert(t[i].0 < t[k].0);
    } else if i > k {
        assert(s[k].0 < s[i].0);
    }
}

/// A matching has one canonical form only: two canonical matchings that
/// join the same endpoints are the same list.
pub proof fn lemma_canonical_unique(s: Seq<Pair>, t: Seq<Pair>)
    requires
        is_matching(s),
        is_canonical(s),
        is_matching(t),
        is_canonical(t),
        same_pairing(s, t),
    ensures
        s == t,
{
    if s.len() < t.len() {
        let v = 2 * s.len() as int;
        assert(covered(t, v));
        let j = choose|j: int| 0 <= j < t.len() && #[trigger] t[j].touches(v);
        assert(paired(t, v, t[j].other(v)));
        assert(paired(s, v, t[j].other(v)));
        lemma_paired_is_partner(s, v, t[j].other(v));
    } else if t.len() < s.len() {
        let v = 2 * t.len() as int;
        assert(covered(s, v));
        let j = choose|j: int| 0 <= j < s.len() && #[trigger] s[j].touches(v);
        assert(paired(s, v, s[j].other(v)));
        assert(paired(t, v, s[j].other(v)));
        lemma_paired_is_partner(t, v, s[j].other(v));
    }
    assert forall|k: int| 0 <= k < s.len() implies s[k] == t[k] by {
        lemma_canonical_agree(s, t, k);
    }
    assert(s =~= t);
}

/// A canonical matching that joins what `pairs` joins is the canonical form of `pairs`.
pub proof fn lemma_is_canonical_form(s: Seq<Pair>, pairs: Seq<Pair>)
    requires
        is_matching(s),
        is_canonical(s),
        same_pairing(s, pairs),
    ensures
        s == canonical_form(pairs),
{
    let c = canonical_form(pairs);
    assert(is_matching(c) && is_canonical(c) && same_pairing(c, pairs));
    assert forall|x: int, y: int| #[trigger] paired(s, x, y) <==> paired(c, x, y) by {
        assert(paired(s, x, y) <==> paired(pairs, x, y));
        assert(paired(c, x, y) <==> paired(pairs, x, y));
    }
    lemma_canonical_unique(s, c);
}

/// A canonical matching is its own canonical form.
pub proof fn lemma_canonical_form_of_canonical(s: Seq<Pair>)
    requires
        is_matching(s),
        is_canonical(s),
    ensures
        canonical_form(s) == s,
{
    lemma_is_canonical_form(s, s);
}

/// The list with every pair turned over: domain and codomain change places.
pub open spec fn flipped(pairs: Seq<Pair>, source: int, target: int) -> Seq<Pair> {
    Seq::new(
        pairs.len(),
        |i: int|
            Pair(
                Pair::flip_index(pairs[i].0 as int, source, target) as usize,
                Pair::flip_index(pairs[i].1 as int, source, target) as usize,
            ),
    )
}

/// The matching of the identity on `n` points: point `i` of the domain is
/// joined to point `i` of the codomain.
pub open spec fn identity_pairs(n: nat) -> Seq<Pair> {
    Seq::new(n, |i: int| Pair(i as usize, (i + n) as usize))
}

/// The identity's list of pairs is a matching in canonical form.
pub proof fn lemma_identity_pairs(n: nat)
    requires
        2 * n <= usize::MAX,
    ensures
        is_matching(identity_pairs(n)),
        is_canonical(identity_pairs(n)),
{
    let s = identity_pairs(n);
    assert forall|v: int| 0 <= v < 2 * s.len() implies #[trigger] covered(s, v) by {
        if v < n {
            assert(s[v].touches(v));
        } else {
            assert(s[v - n].touches(v));
        }
    }
}

/// The table of partners of a matching.
pub open spec fn partner_seq(pairs: Seq<Pair>) -> Seq<usize> {
    Seq::new(2 * pairs.len(), |v: int| partner(pairs, v) as usize)
}

/// The pairs of an involution below `v`: every index below `v` that is sent
/// upwards, with its image, in the order of the indices.
pub open spec fn low_pairs(t: Seq<usize>, v: nat) -> Seq<Pair>
    decreases v,
{
    if v == 0 {
        Seq::empty()
    } else {
        let rest = low_pairs(t, (v - 1) as nat);
        if t[v - 1] > v - 1 {
            rest.push(Pair((v - 1) as usize, t[v - 1]))
        } else {
            rest
        }
    }
}

/// What `low_pairs` holds.
proof fn lemma_low_pairs(t: Seq<usize>, v: nat)
    requires
        is_involution(t),
        v <= t.len(),
        t.len() <= usize::MAX,
    ensures
        is_canonical(low_pairs(t, v)),
        forall|k: int|
            0 <= k < low_pairs(t, v).len() ==> (#[trigger] low_pairs(t, v)[k]).0 < v && low_pairs(
                t,
                v,
            )[k].1 < t.len() && t[low_pairs(t, v)[k].0 as int] == low_pairs(t, v)[k].1,
        forall|u: int|
            0 <= u < v && #[trigger] t[u] > u ==> exists|k: int|
                0 <= k < low_pairs(t, v).len() && (#[trigger] low_pairs(t, v)[k]).0 == u,
    decreases v,
{
    if v > 0 {
        let rest = low_pairs(t, (v - 1) as nat);
        let out = low_pairs(t, v);
        lemma_low_pairs(t, (v - 1) as nat);
        assert forall|u: int| 0 <= u < v && #[trigger] t[u] > u implies exists|k: int|
            0 <= k < out.len() && (#[trigger] out[k]).0 == u by {
            if u < v - 1 {
                let k = choose|k: int| 0 <= k < rest.len() && (#[trigger] rest[k]).0 == u;
                assert(out[k].0 == u);
            } else {
                assert(out[rest.len() as int].0 == u);
            }
        }
    }
}

/// The pairs of an involution form a canonical matching that joins every
/// index to its image.
pub proof fn lemma_low_pairs_matching(t: Seq<usize>)
    requires
        is_involution(t),
        t.len() <= usize::MAX,
    ensures
        is_canonical(low_pairs(t, t.len())),
        is_matching(low_pairs(t, t.len())),
        2 * low_pairs(t, t.len()).len() == t.len(),
        forall|x: int, y: int|
            #[trigger] paired(low_pairs(t, t.len()), x, y) <==> 0 <= x < t.len() && t[x] == y,
{
    let out = low_pairs(t, t.len());
    lemma_low_pairs(t, t.len());
    lemma_involution_halves(t);
    let up = Set::new(|u: int| 0 <= u < t.len() && t[u] > u);
    let firsts = out.map_values(|p: Pair| p.0 as int);
    assert(firsts.no_duplicates()) by {
        assert forall|i: int, j: int|
            0 <= i < firsts.len() && 0 <= j < firsts.len() && i != j implies firsts[i]
            != firsts[j] by {
            if i < j {
                assert(out[i].0 < out[j].0);
            } else {
                assert(out[j].0 < out[i].0);
            }
        }
    }
    firsts.unique_seq_to_set();
    assert(firsts.to_set() =~= up) by {
        assert forall|u: int| up.contains(u) implies firsts.to_set().contains(u) by {
            assert(t[u] > u);
            let k = choose|k: int| 0 <= k < out.len() && (#[trigger] out[k]).0 == u;
            assert(firsts[k] == u);
        }
        assert forall|u: int| firsts.to_set().contains(u) implies up.contains(u) by {
            let k = choose|k: int| 0 <= k < firsts.len() && firsts[k] == u;
            assert(out[k].0 == u);
        }
    }
    lemma_involution_pairs(t, out);
}

/// Every matching has a canonical form: a canonical matching that joins the
/// same endpoints, with as many pairs.
pub proof fn lemma_canonical_form_exists(pairs: Seq<Pair>)
    requires
        is_matching(pairs),
        2 * pairs.len() <= usize::MAX,
    ensures
        is_matching(canonical_form(pairs)),
        is_canonical(canonical_form(pairs)),
        same_pairing(canonical_form(pairs), pairs),
        canonical_form(pairs).len() == pairs.len(),
{
    let t = partner_seq(pairs);
    assert forall|v: int| 0 <= v < t.len() implies 0 <= #[trigger] t[v] < t.len() && t[v] != v
        && t[t[v] as int] == v by {
        lemma_partner_involution(pairs, v);
    }
    let out = low_pairs(t, t.len());
    lemma_low_pairs_matching(t);
    assert forall|x: int, y: int| #[trigger] paired(out, x, y) <==> paired(pairs, x, y) by {
        if paired(out, x, y) {
            lemma_partner_involution(pairs, x);
        }
        if paired(pairs, x, y) {
            lemma_paired_is_partner(pairs, x, y);
        }
    }
    let c = canonical_form(pairs);
    assert(is_matching(c) && is_canonical(c) && same_pairing(c, pairs));
    lemma_is_canonical_form(out, pairs);
}

/// Turning a matching over gives a matching, and turning it back gives the
/// pairs that were there.
pub proof fn lemma_flipped_is_matching(pairs: Seq<Pair>, source: int, target: int)
    requires
        is_matching(pairs),
        0 <= source,
        0 <= target,
        source + target == 2 * pairs.len(),
        2 * pairs.len() <= usize::MAX,
    ensures
        is_matching(flipped(pairs, source, target)),
        flipped(pairs, source, target).len() == pairs.len(),
        forall|x: int, y: int|
            0 <= x < source + target && 0 <= y < source + target ==> (#[trigger] paired(
                pairs,
                x,
                y,
            ) <==> paired(
                flipped(pairs, source, target),
                Pair::flip_index(x, source, target),
                Pair::flip_index(y, source, target),
            )),
{
    let out = flipped(pairs, source, target);
    let fa = |v: int| Pair::flip_index(v, source, target);
    let ga = |w: int| Pair::flip_index(w, target, source);
    let fb = |v: int| v;
    let in_a = |w: int| true;
    assert forall|i: int| 0 <= i < pairs.len() implies (#[trigger] out[i]).0 == fa(pairs[i].0 as int)
        && out[i].1 == fa(pairs[i].1 as int) by {
        assert(pairs[i].0 < 2 * pairs.len());
    }
    lemma_merge_is_matching(pairs, Seq::<Pair>::empty(), out, fa, fb, ga, fb, in_a);
    assert forall|x: int, y: int| 0 <= x < source + target && 0 <= y < source + target implies (
    #[trigger] paired(pairs, x, y) <==> paired(
        out,
        Pair::flip_index(x, source, target),
        Pair::flip_index(y, source, target),
    )) by {
        assert(paired(pairs, x, y) <==> paired(out, fa(x), fa(y)));
    }
}

/// Turning a diagram over twice gives the diagram back: the canonical form
/// of the turned canonical form of the turned matching is the matching.
pub proof fn lemma_flip_involution(pairs: Seq<Pair>, source: int, target: int)
    requires
        is_matching(pairs),
        is_canonical(pairs),
        0 <= source,
        0 <= target,
        source + target == 2 * pairs.len(),
        2 * pairs.len() <= usize::MAX,
    ensures
        canonical_form(flipped(canonical_form(flipped(pairs, source, target)), target, source))
            == pairs,
{
    let once = flipped(pairs, source, target);
    lemma_flipped_is_matching(pairs, source, target);
    lemma_canonical_form_exists(once);
    let mid = canonical_form(once);
    let twice = flipped(mid, target, source);
    lemma_flipped_is_matching(mid, target, source);
    lemma_canonical_form_exists(twice);
    let back = canonical_form(twice);
    assert forall|x: int, y: int| #[trigger] paired(back, x, y) <==> paired(pairs, x, y) by {
        let fx = Pair::flip_index(x, source, target);
        let fy = Pair::flip_index(y, source, target);
        if paired(pairs, x, y) {
            lemma_paired_is_partner(pairs, x, y);
            assert(paired(once, fx, fy));
            assert(paired(mid, fx, fy));
            assert(paired(
                twice,
                Pair::flip_index(fx, target, source),
                Pair::flip_index(fy, target, source),
            ));
            assert(paired(twice, x, y));
        }
        if paired(back, x, y) {
            lemma_paired_is_partner(back, x, y);
            assert(paired(twice, x, y));
            assert(Pair::flip_index(fx, target, source) == x);
            assert(Pair::flip_index(fy, target, source) == y);
            assert(paired(mid, fx, fy));
            assert(paired(once, fx, fy));
        }
    }
    lemma_canonical_unique(back, pairs);
}

/// A perfect matching: `n` pairs over the endpoints `0..2n`.
#[derive(Debug)]
pub struct PerfectMatching {
    pairs: Vec<Pair>,
}

impl View for PerfectMatching {
    type V = Seq<Pair>;

    closed spec fn view(&self) -> Seq<Pair> {
        self.pairs@
    }
}

/// The table of partners of a list of pairs, where the list is a matching.
fn partner_table(pairs: &Vec<Pair>) -> (r: Option<Vec<usize>>)
    requires
        2 * pairs@.len() <= usize::MAX,
    ensures
        match r {
            Some(t) => is_matching(pairs@) && table_matches(pairs@, t@) && is_involution(t@),
            None => !is_matching(pairs@),
        },
{
    let n = pairs.len();
    let total = 2 * n;
    let mut table: Vec<usize> = Vec::new();
    let mut v: usize = 0;
    while v < total
        invariant
            v <= total,
            table@.len() == v,
            forall|u: int| 0 <= u < v ==> #[trigger] table@[u] == total,
        decreases total - v,
    {
        table.push(total);
        v += 1;
    }
    let mut k: usize = 0;
    while k < n
        invariant
            k <= n,
            n == pairs@.len(),
            total == 2 * n,
            table@.len() == total,
            forall|u: int|
                0 <= u < total && #[trigger] table@[u] != total ==> exists|i: int|
                    0 <= i < k && #[trigger] pairs@[i].touches(u),
            forall|i: int|
                0 <= i < k ==> (#[trigger] pairs@[i]).0 < total && pairs@[i].1 < total
                    && pairs@[i].0 != pairs@[i].1 && table@[pairs@[i].0 as int] == pairs@[i].1
                    && table@[pairs@[i].1 as int] == pairs@[i].0,
            forall|i: int, j: int|
                0 <= i < j < k ==> disjoint(#[trigger] pairs@[i], #[trigger] pairs@[j]),
        decreases n - k,
    {
        let a = pairs[k].0;
        let b = pairs[k].1;
        if a >= total || b >= total || a == b {
            return None;
        }
        if table[a] != total || table[b] != total {
            proof {
                let u = if table@[a as int] != total {
                    a
                } else {
                    b
                };
                let i = choose|i: int| 0 <= i < k && #[trigger] pairs@[i].touches(u as int);
                assert(!disjoint(pairs@[i], pairs@[k as int]));
            }
            return None;
        }
        proof {
            assert forall|i: int| 0 <= i < k implies disjoint(
                #[trigger] pairs@[i],
                pairs@[k as int],
            ) by {
                assert(table@[pairs@[i].0 as int] != total);
                assert(table@[pairs@[i].1 as int] != total);
            }
        }
        let ghost before = table@;
        table.set(a, b);
        table.set(b, a);
        proof {
            assert forall|u: int| 0 <= u < total && #[trigger] table@[u] != total implies exists|
                i: int,
            |
                0 <= i < k + 1 && #[trigger] pairs@[i].touches(u) by {
                if u == a || u == b {
                    assert(pairs@[k as int].touches(u));
                } else {
                    assert(before[u] != total);
                    let i = choose|i: int| 0 <= i < k && #[trigger] pairs@[i].touches(u);
                    assert(pairs@[i].touches(u));
                }
            }
        }
        k += 1;
    }
    let mut w: usize = 0;
    while w < total
        invariant
            w <= total,
            table@.len() == total,
            forall|u: int| 0 <= u < w ==> #[trigger] table@[u] != total,
            n == pairs@.len(),
            total == 2 * n,
            forall|i: int|
                0 <= i < n ==> (#[trigger] pairs@[i]).0 < total && pairs@[i].1 < total
                    && table@[pairs@[i].0 as int] == pairs@[i].1 && table@[pairs@[i].1 as int]
                    == pairs@[i].0,
        decreases total - w,
    {
        if table[w] == total {
            proof {
                if is_matching(pairs@) {
                    assert(covered(pairs@, w as int));
                    let i = choose|i: int| 0 <= i < pairs@.len() && #[trigger] pairs@[i].touches(
                        w as int,
                    );
                    assert(pairs@[i].0 < total);
                }
            }
            return None;
        }
        w += 1;
    }
    proof {
        assert forall|u: int| 0 <= u < 2 * pairs@.len() implies #[trigger] covered(pairs@, u) by {
            assert(table@[u] != total);
            let i = choose|i: int| 0 <= i < n && #[trigger] pairs@[i].touches(u);
            assert(pairs@[i].touches(u));
        }
        assert(is_matching(pairs@));
        assert forall|u: int| 0 <= u < table@.len() implies 0 <= #[trigger] table@[u] < table@.len()
            && table@[u] != u && table@[table@[u] as int] == u by {
            assert(covered(pairs@, u));
            let i = choose|i: int| 0 <= i < pairs@.len() && #[trigger] pairs@[i].touches(u);
            assert(pairs@[i].0 < total);
        }
    }
    Some(table)
}

/// An involution of `0..len` sends exactly half of the indices upwards.
pub proof fn lemma_involution_halves(t: Seq<usize>)
    requires
        is_involution(t),
    ensures
        Set::new(|u: int| 0 <= u < t.len() && t[u] > u).finite(),
        2 * Set::new(|u: int| 0 <= u < t.len() && t[u] > u).len() == t.len(),
{
    let len = t.len() as int;
    let up = Set::new(|u: int| 0 <= u < len && t[u] > u);
    let down = Set::new(|u: int| 0 <= u < len && t[u] < u);
    let all = set_int_range(0, len);
    lemma_int_range(0, len);
    lemma_len_subset(up, all);
    lemma_len_subset(down, all);
    let f = |u: int| t[u] as int;
    assert(injective_on(f, up)) by {
        assert forall|x1: int, x2: int|
            up.contains(x1) && up.contains(x2) && #[trigger] f(x1) == #[trigger] f(x2) implies x1
            == x2 by {
            assert(t[t[x1] as int] == x1);
            assert(t[t[x2] as int] == x2);
        }
    }
    assert(up.map(f) =~= down) by {
        assert forall|w: int| down.contains(w) implies up.map(f).contains(w) by {
            let u = t[w] as int;
            assert(t[t[w] as int] == w);
            assert(up.contains(u) && w == f(u));
        }
        assert forall|w: int| up.map(f).contains(w) implies down.contains(w) by {
            let u = choose|u: int| up.contains(u) && w == f(u);
            assert(t[t[u] as int] == u);
        }
    }
    lemma_map_size(up, down, f);
    assert(up + down =~= all) by {
        assert forall|u: int| all.contains(u) implies (up + down).contains(u) by {
            assert(t[u] != u);
        }
    }
    assert(up.disjoint(down));
    lemma_set_disjoint_lens(up, down);
}

/// The pairs of an involution, each with its smaller index first, in the
/// order of the smaller indices.
fn pairs_of_table(t: &Vec<usize>) -> (out: Vec<Pair>)
    requires
        is_involution(t@),
    ensures
        is_canonical(out@),
        2 * out@.len() == t@.len(),
        forall|k: int|
            0 <= k < out@.len() ==> (#[trigger] out@[k]).1 < t@.len() && t@[out@[k].0 as int]
                == out@[k].1,
        forall|u: int|
            0 <= u < t@.len() && #[trigger] t@[u] > u ==> exists|k: int|
                0 <= k < out@.len() && (#[trigger] out@[k]).0 == u,
{
    let mut out: Vec<Pair> = Vec::new();
    let mut v: usize = 0;
    while v < t.len()
        invariant
            v <= t@.len(),
            is_involution(t@),
            is_canonical(out@),
            forall|k: int|
                0 <= k < out@.len() ==> (#[trigger] out@[k]).0 < v && out@[k].1 < t@.len()
                    && t@[out@[k].0 as int] == out@[k].1,
            forall|u: int|
                0 <= u < v && #[trigger] t@[u] > u ==> exists|k: int|
                    0 <= k < out@.len() && (#[trigger] out@[k]).0 == u,
        decreases t@.len() - v,
    {
        if t[v] > v {
            let ghost prev = out@;
            out.push(Pair(v, t[v]));
            proof {
                assert forall|u: int| 0 <= u < v + 1 && #[trigger] t@[u] > u implies exists|k: int|
                    0 <= k < out@.len() && (#[trigger] out@[k]).0 == u by {
                    if u < v {
                        let k = choose|k: int| 0 <= k < prev.len() && (#[trigger] prev[k]).0 == u;
                        assert(out@[k].0 == u);
                    } else {
                        assert(out@[prev.len() as int].0 == u);
                    }
                }
            }
        }
        v += 1;
    }
    proof {
        lemma_involution_halves(t@);
        let up = Set::new(|u: int| 0 <= u < t@.len() && t@[u] > u);
        let firsts = out@.map_values(|p: Pair| p.0 as int);
        assert(firsts.no_duplicates()) by {
            assert forall|i: int, j: int| 0 <= i < firsts.len() && 0 <= j < firsts.len() && i != j implies firsts[i] != firsts[j] by {
                if i < j {
                    assert(out@[i].0 < out@[j].0);
                } else {
                    assert(out@[j].0 < out@[i].0);
                }
            }
        }
        firsts.unique_seq_to_set();
        assert(firsts.to_set() =~= up) by {
            assert forall|u: int| up.contains(u) implies firsts.to_set().contains(u) by {
                assert(t@[u] > u);
                let k = choose|k: int| 0 <= k < out@.len() && (#[trigger] out@[k]).0 == u;
                assert(firsts[k] == u);
            }
            assert forall|u: int| firsts.to_set().contains(u) implies up.contains(u) by {
                let k = choose|k: int| 0 <= k < firsts.len() && firsts[k] == u;
                assert(out@[k].0 == u);
            }
        }
    }
    out
}

/// A list that holds the pairs of an involution, smaller index first and in
/// the order of the smaller indices, is a canonical matching that joins
/// every index to its image.
pub proof fn lemma_involution_pairs(t: Seq<usize>, out: Seq<Pair>)
    requires
        is_involution(t),
        is_canonical(out),
        2 * out.len() == t.len(),
        forall|k: int|
            0 <= k < out.len() ==> (#[trigger] out[k]).1 < t.len() && t[out[k].0 as int] == out[k].1,
        forall|u: int|
            0 <= u < t.len() && #[trigger] t[u] > u ==> exists|k: int|
                0 <= k < out.len() && (#[trigger] out[k]).0 == u,
    ensures
        is_matching(out),
        forall|x: int, y: int| #[trigger] paired(out, x, y) <==> 0 <= x < t.len() && t[x] == y,
{
    assert forall|i: int, j: int| 0 <= i < j < out.len() implies disjoint(
        #[trigger] out[i],
        #[trigger] out[j],
    ) by {
        let a = out[i];
        let b = out[j];
        assert(a.0 < b.0);
        assert(t[t[a.0 as int] as int] == a.0);
        assert(t[t[b.0 as int] as int] == b.0);
    }
    assert forall|v: int| 0 <= v < 2 * out.len() implies #[trigger] covered(out, v) by {
        if t[v] > v {
            let k = choose|k: int| 0 <= k < out.len() && (#[trigger] out[k]).0 == v;
            assert(out[k].touches(v));
        } else {
            let w = t[v] as int;
            assert(t[w] == v);
            assert(t[w] > w);
            let k = choose|k: int| 0 <= k < out.len() && (#[trigger] out[k]).0 == w;
            assert(out[k].touches(v));
        }
    }
    assert(is_matching(out));
    assert forall|x: int, y: int| #[trigger] paired(out, x, y) <==> 0 <= x < t.len() && t[x]
        == y by {
        if paired(out, x, y) {
            let k = choose|k: int|
                0 <= k < out.len() && #[trigger] out[k].touches(x) && out[k].other(x) == y;
            assert(t[t[out[k].0 as int] as int] == out[k].0);
        }
        if 0 <= x < t.len() && t[x] == y {
            assert(t[y] == x);
            if x < y {
                let k = choose|k: int| 0 <= k < out.len() && (#[trigger] out[k]).0 == x;
                assert(out[k].touches(x) && out[k].other(x) == y);
            } else {
                let k = choose|k: int| 0 <= k < out.len() && (#[trigger] out[k]).0 == y;
                assert(out[k].touches(x) && out[k].other(x) == y);
            }
        }
    }
}

/// A list that holds the pairs of the partner table of a matching, smaller
/// index first and in the order of the smaller indices, is a canonical
/// matching that joins what the first joins.
proof fn lemma_table_pairs(pairs: Seq<Pair>, t: Seq<usize>, out: Seq<Pair>)
    requires
        is_matching(pairs),
        table_matches(pairs, t),
        is_involution(t),
        is_canonical(out),
        2 * out.len() == t.len(),
        forall|k: int|
            0 <= k < out.len() ==> (#[trigger] out[k]).1 < t.len() && t[out[k].0 as int] == out[k].1,
        forall|u: int|
            0 <= u < t.len() && #[trigger] t[u] > u ==> exists|k: int|
                0 <= k < out.len() && (#[trigger] out[k]).0 == u,
    ensures
        is_matching(out),
        same_pairing(out, pairs),
{
    assert forall|i: int, j: int| 0 <= i < j < out.len() implies disjoint(
        #[trigger] out[i],
        #[trigger] out[j],
    ) by {
        let a = out[i];
        let b = out[j];
        assert(a.0 < b.0);
        assert(t[t[a.0 as int] as int] == a.0);
        assert(t[t[b.0 as int] as int] == b.0);
    }
    assert forall|v: int| 0 <= v < 2 * out.len() implies #[trigger] covered(out, v) by {
        if t[v] > v {
            let k = choose|k: int| 0 <= k < out.len() && (#[trigger] out[k]).0 == v;
            assert(out[k].touches(v));
        } else {
            let w = t[v] as int;
            assert(t[w] == v);
            assert(t[w] > w);
            let k = choose|k: int| 0 <= k < out.len() && (#[trigger] out[k]).0 == w;
            assert(out[k].touches(v));
        }
    }
    assert(is_matching(out));
    assert forall|x: int, y: int| #[trigger] paired(out, x, y) <==> paired(pairs, x, y) by {
        if paired(out, x, y) {
            let k = choose|k: int|
                0 <= k < out.len() && #[trigger] out[k].touches(x) && out[k].other(x) == y;
            assert(t[x] == y) by {
                assert(t[t[out[k].0 as int] as int] == out[k].0);
            }
            assert(covered(pairs, x));
            let i = choose|i: int| 0 <= i < pairs.len() && #[trigger] pairs[i].touches(x);
            assert(pairs[i].touches(x) && pairs[i].other(x) == y);
        }
        if paired(pairs, x, y) {
            let i = choose|i: int|
                0 <= i < pairs.len() && #[trigger] pairs[i].touches(x) && pairs[i].other(x) == y;
            assert(t[x] == y && t[y] == x);
            if x < y {
                let k = choose|k: int| 0 <= k < out.len() && (#[trigger] out[k]).0 == x;
                assert(out[k].touches(x) && out[k].other(x) == y);
            } else {
                let k = choose|k: int| 0 <= k < out.len() && (#[trigger] out[k]).0 == y;
                assert(out[k].touches(x) && out[k].other(x) == y);
            }
        }
    }
}

/// Where an endpoint goes when every index from `threshold` on moves up by `amount`.
pub open spec fn shift_index_spec(v: int, threshold: int, amount: int) -> int {
    if v >= threshold {
        v + amount
    } else {
        v
    }
}

/// The pair with both endpoints shifted.
pub open spec fn shift_pair(p: Pair, threshold: int, amount: int) -> Pair {
    Pair(
        shift_index_spec(p.0 as int, threshold, amount) as usize,
        shift_index_spec(p.1 as int, threshold, amount) as usize,
    )
}

/// The list with every pair shifted.
pub open spec fn shifted(pairs: Seq<Pair>, threshold: int, amount: int) -> Seq<Pair> {
    Seq::new(pairs.len(), |i: int| shift_pair(pairs[i], threshold, amount))
}

/// Two matchings whose endpoints are renamed into one index range, the first
/// by `fa` and the second by `fb`, together form a matching of that range
/// when the two renamings are one-to-one, do not meet, and leave no index out.
/// `ga` and `gb` undo the renamings, and `in_a` tells the image of `fa` from
/// that of `fb`.
pub proof fn lemma_merge_is_matching(
    a: Seq<Pair>,
    b: Seq<Pair>,
    out: Seq<Pair>,
    fa: spec_fn(int) -> int,
    fb: spec_fn(int) -> int,
    ga: spec_fn(int) -> int,
    gb: spec_fn(int) -> int,
    in_a: spec_fn(int) -> bool,
)
    requires
        is_matching(a),
        is_matching(b),
        out.len() == a.len() + b.len(),
        forall|i: int|
            0 <= i < a.len() ==> (#[trigger] out[i]).0 == fa(a[i].0 as int) && out[i].1 == fa(
                a[i].1 as int,
            ),
        forall|i: int|
            0 <= i < b.len() ==> (#[trigger] out[a.len() + i]).0 == fb(b[i].0 as int) && out[a.len()
                + i].1 == fb(b[i].1 as int),
        forall|v: int|
            0 <= v < 2 * a.len() ==> 0 <= #[trigger] fa(v) < 2 * out.len() && in_a(fa(v)) && ga(
                fa(v),
            ) == v,
        forall|v: int|
            0 <= v < 2 * b.len() ==> 0 <= #[trigger] fb(v) < 2 * out.len() && !in_a(fb(v)) && gb(
                fb(v),
            ) == v,
        forall|w: int|
            0 <= w < 2 * out.len() ==> if #[trigger] in_a(w) {
                0 <= ga(w) < 2 * a.len() && fa(ga(w)) == w
            } else {
                0 <= gb(w) < 2 * b.len() && fb(gb(w)) == w
            },
    ensures
        is_matching(out),
        forall|x: int, y: int|
            0 <= x < 2 * a.len() && 0 <= y < 2 * a.len() ==> (#[trigger] paired(a, x, y) <==> paired(
                out,
                fa(x),
                fa(y),
            )),
        forall|x: int, y: int|
            0 <= x < 2 * b.len() && 0 <= y < 2 * b.len() ==> (#[trigger] paired(b, x, y) <==> paired(
                out,
                fb(x),
                fb(y),
            )),
{
    let na = a.len() as int;
    assert forall|i: int| 0 <= i < out.len() implies (#[trigger] out[i]).0 < 2 * out.len()
        && out[i].1 < 2 * out.len() && out[i].0 != out[i].1 by {
        if i < na {
            assert(a[i].0 != a[i].1);
            assert(ga(fa(a[i].0 as int)) == a[i].0);
            assert(ga(fa(a[i].1 as int)) == a[i].1);
        } else {
            let j = i - na;
            assert(out[na + j].0 == fb(b[j].0 as int));
            assert(b[j].0 != b[j].1);
            assert(gb(fb(b[j].0 as int)) == b[j].0);
            assert(gb(fb(b[j].1 as int)) == b[j].1);
        }
    }
    assert forall|i: int, j: int| 0 <= i < j < out.len() implies disjoint(
        #[trigger] out[i],
        #[trigger] out[j],
    ) by {
        if j < na {
            assert(disjoint(a[i], a[j]));
            assert(ga(fa(a[i].0 as int)) == a[i].0 && ga(fa(a[i].1 as int)) == a[i].1);
            assert(ga(fa(a[j].0 as int)) == a[j].0 && ga(fa(a[j].1 as int)) == a[j].1);
        } else if i >= na {
            let i2 = i - na;
            let j2 = j - na;
            assert(out[na + i2].0 == fb(b[i2].0 as int));
            assert(out[na + j2].0 == fb(b[j2].0 as int));
            assert(disjoint(b[i2], b[j2]));
            assert(gb(fb(b[i2].0 as int)) == b[i2].0 && gb(fb(b[i2].1 as int)) == b[i2].1);
            assert(gb(fb(b[j2].0 as int)) == b[j2].0 && gb(fb(b[j2].1 as int)) == b[j2].1);
        } else {
            let j2 = j - na;
            assert(out[na + j2].0 == fb(b[j2].0 as int));
            assert(in_a(fa(a[i].0 as int)) && in_a(fa(a[i].1 as int)));
            assert(!in_a(fb(b[j2].0 as int)) && !in_a(fb(b[j2].1 as int)));
        }
    }
    assert forall|w: int| 0 <= w < 2 * out.len() implies #[trigger] covered(out, w) by {
        if in_a(w) {
            let v = ga(w);
            assert(covered(a, v));
            let i = choose|i: int| 0 <= i < a.len() && #[trigger] a[i].touches(v);
            assert(out[i].touches(w));
        } else {
            let v = gb(w);
            assert(covered(b, v));
            let i = choose|i: int| 0 <= i < b.len() && #[trigger] b[i].touches(v);
            assert(out[na + i].touches(w));
        }
    }
    assert(is_matching(out));
    assert forall|x: int, y: int| 0 <= x < 2 * a.len() && 0 <= y < 2 * a.len() implies (
    #[trigger] paired(a, x, y) <==> paired(out, fa(x), fa(y))) by {
        assert(covered(a, x));
        let i = choose|i: int| 0 <= i < a.len() && #[trigger] a[i].touches(x);
        lemma_partner_unique(a, i, x);
        assert(out[i].touches(fa(x)));
        lemma_partner_unique(out, i, fa(x));
        let z = a[i].other(x);
        assert(out[i].other(fa(x)) == fa(z)) by {
            assert(ga(fa(a[i].0 as int)) == a[i].0 && ga(fa(a[i].1 as int)) == a[i].1);
        }
        assert(paired(a, x, z));
        assert(paired(out, fa(x), fa(z)));
        if paired(a, x, y) {
            lemma_paired_is_partner(a, x, y);
        }
        if paired(out, fa(x), fa(y)) {
            lemma_paired_is_partner(out, fa(x), fa(y));
            assert(ga(fa(y)) == y && ga(fa(z)) == z);
        }
    }
    assert forall|x: int, y: int| 0 <= x < 2 * b.len() && 0 <= y < 2 * b.len() implies (
    #[trigger] paired(b, x, y) <==> paired(out, fb(x), fb(y))) by {
        assert(covered(b, x));
        let i = choose|i: int| 0 <= i < b.len() && #[trigger] b[i].touches(x);
        lemma_partner_unique(b, i, x);
        assert(out[na + i].touches(fb(x)));
        lemma_partner_unique(out, na + i, fb(x));
        let z = b[i].other(x);
        assert(out[na + i].other(fb(x)) == fb(z)) by {
            assert(gb(fb(b[i].0 as int)) == b[i].0 && gb(fb(b[i].1 as int)) == b[i].1);
        }
        assert(paired(b, x, z));
        assert(paired(out, fb(x), fb(z)));
        if paired(b, x, y) {
            lemma_paired_is_partner(b, x, y);
        }
        if paired(out, fb(x), fb(y)) {
            lemma_paired_is_partner(out, fb(x), fb(y));
            assert(gb(fb(y)) == y && gb(fb(z)) == z);
        }
    }
}

/// The pairs of two diagrams placed side by side, the first with `s1`
/// domain and `t1` codomain points, the second with `s2` domain points: the
/// codomain of the first makes room for the domain of the second, which
/// comes after the domain of the first, and the codomain of the second
/// comes last.
pub open spec fn stacked(a: Seq<Pair>, b: Seq<Pair>, s1: int, t1: int, s2: int) -> Seq<Pair> {
    shifted(a, s1, s2) + shifted(shifted(b, 0, s1), s1 + s2, t1)
}

/// Two matchings placed side by side form a matching.
pub proof fn lemma_stacked_is_matching(
    a: Seq<Pair>,
    b: Seq<Pair>,
    s1: int,
    t1: int,
    s2: int,
    t2: int,
)
    requires
        is_matching(a),
        is_matching(b),
        0 <= s1,
        0 <= t1,
        0 <= s2,
        0 <= t2,
        2 * a.len() == s1 + t1,
        2 * b.len() == s2 + t2,
        s1 + t1 + s2 + t2 <= usize::MAX,
    ensures
        is_matching(stacked(a, b, s1, t1, s2)),
        stacked(a, b, s1, t1, s2).len() == a.len() + b.len(),
{
    let out = stacked(a, b, s1, t1, s2);
    let fa = |v: int| shift_index_spec(v, s1, s2);
    let fb = |v: int| shift_index_spec(shift_index_spec(v, 0, s1), s1 + s2, t1);
    let ga = |w: int|
        if w < s1 {
            w
        } else {
            w - s2
        };
    let gb = |w: int|
        if w < s1 + s2 {
            w - s1
        } else {
            w - s1 - t1
        };
    let in_a = |w: int| w < s1 || (s1 + s2 <= w < s1 + s2 + t1);
    assert forall|i: int| 0 <= i < a.len() implies (#[trigger] out[i]).0 == fa(a[i].0 as int)
        && out[i].1 == fa(a[i].1 as int) by {
        assert(a[i].0 < 2 * a.len());
    }
    assert forall|i: int| 0 <= i < b.len() implies (#[trigger] out[a.len() + i]).0 == fb(
        b[i].0 as int,
    ) && out[a.len() + i].1 == fb(b[i].1 as int) by {
        assert(b[i].0 < 2 * b.len());
        assert(out[a.len() + i] == shifted(shifted(b, 0, s1), s1 + s2, t1)[i]);
    }
    lemma_merge_is_matching(a, b, out, fa, fb, ga, gb, in_a);
}

impl PerfectMatching {
    /// The list is a matching in canonical form.
    pub open spec fn well_formed(&self) -> bool {
        is_matching(self@) && is_canonical(self@)
    }

    /// The number of endpoints, `2n`.
    pub open spec fn endpoints(&self) -> nat {
        2 * self@.len()
    }

    /// The matching without pairs.
    pub fn empty() -> (r: PerfectMatching)
        ensures
            r@ == Seq::<Pair>::empty(),
            r.well_formed(),
    {
        PerfectMatching { pairs: Vec::new() }
    }

    /// The matching that joins what `pairs` joins, if `pairs` covers `0..2n`
    /// exactly once.
    pub fn from_iter(pairs: Vec<Pair>) -> (r: Result<PerfectMatching, DiagramError>)
        requires
            2 * pairs@.len() <= usize::MAX,
        ensures
            match r {
                Ok(m) => {
                    &&& is_matching(pairs@)
                    &&& m.well_formed()
                    &&& m@.len() == pairs@.len()
                    &&& same_pairing(m@, pairs@)
                    &&& m@ == canonical_form(pairs@)
                },
                Err(e) => e == DiagramError::MalformedMatching && !is_matching(pairs@),
            },
    {
        match partner_table(&pairs) {
            Some(table) => {
                let out = pairs_of_table(&table);
                proof {
                    lemma_table_pairs(pairs@, table@, out@);
                    lemma_is_canonical_form(out@, pairs@);
                }
                Ok(PerfectMatching { pairs: out })
            },
            None => Err(DiagramError::MalformedMatching),
        }
    }

    /// The matching that joins what `pair_prime` joins, if `pair_prime`
    /// covers `0..2n` exactly once.
    pub fn new(pair_prime: &[Pair]) -> (r: Result<PerfectMatching, DiagramError>)
        requires
            2 * pair_prime@.len() <= usize::MAX,
        ensures
            match r {
                Ok(m) => {
                    &&& is_matching(pair_prime@)
                    &&& m.well_formed()
                    &&& m@.len() == pair_prime@.len()
                    &&& same_pairing(m@, pair_prime@)
                    &&& m@ == canonical_form(pair_prime@)
                },
                Err(e) => e == DiagramError::MalformedMatching && !is_matching(pair_prime@),
            },
    {
        let mut pairs: Vec<Pair> = Vec::new();
        let mut i: usize = 0;
        while i < pair_prime.len()
            invariant
                i <= pair_prime@.len(),
                pairs@ == pair_prime@.take(i as int),
            decreases pair_prime@.len() - i,
        {
            pairs.push(pair_prime[i]);
            proof {
                assert(pair_prime@.take(i + 1) =~= pair_prime@.take(i as int).push(
                    pair_prime@[i as int],
                ));
            }
            i += 1;
        }
        proof {
            assert(pair_prime@.take(pair_prime@.len() as int) =~= pair_prime@);
        }
        Self::from_iter(pairs)
    }

    /// Brings a matching into canonical form: every pair with its smaller
    /// endpoint first, the pairs in lexicographic order.
    pub fn canonicalize(&mut self)
        requires
            is_matching(old(self)@),
            2 * old(self)@.len() <= usize::MAX,
        ensures
            final(self).well_formed(),
            final(self)@.len() == old(self)@.len(),
            same_pairing(final(self)@, old(self)@),
            final(self)@ == canonical_form(old(self)@),
    {
        match partner_table(&self.pairs) {
            Some(table) => {
                let out = pairs_of_table(&table);
                proof {
                    lemma_table_pairs(self.pairs@, table@, out@);
                    lemma_is_canonical_form(out@, self.pairs@);
                }
                self.pairs = out;
            },
            None => {},
        }
    }

    /// The pairs with every endpoint from `threshold` on moved up by
    /// `shift_amount`.
    pub fn shift_index(&self, threshold: usize, shift_amount: usize) -> (r: PerfectMatching)
        requires
            forall|i: int|
                0 <= i < self@.len() ==> ((#[trigger] self@[i]).0 >= threshold ==> self@[i].0
                    + shift_amount <= usize::MAX) && (self@[i].1 >= threshold ==> self@[i].1
                    + shift_amount <= usize::MAX),
        ensures
            r@ == shifted(self@, threshold as int, shift_amount as int),
    {
        let mut pairs: Vec<Pair> = Vec::new();
        let mut i: usize = 0;
        while i < self.pairs.len()
            invariant
                i <= self.pairs@.len(),
                pairs@.len() == i,
                forall|k: int|
                    0 <= k < self@.len() ==> ((#[trigger] self@[k]).0 >= threshold ==> self@[k].0
                        + shift_amount <= usize::MAX) && (self@[k].1 >= threshold ==> self@[k].1
                        + shift_amount <= usize::MAX),
                forall|k: int|
                    0 <= k < i ==> #[trigger] pairs@[k] == shift_pair(
                        self.pairs@[k],
                        threshold as int,
                        shift_amount as int,
                    ),
            decreases self.pairs@.len() - i,
        {
            let p = self.pairs[i];
            assert(self@[i as int] == p);
            let a = if p.0 >= threshold {
                p.0 + shift_amount
            } else {
                p.0
            };
            let b = if p.1 >= threshold {
                p.1 + shift_amount
            } else {
                p.1
            };
            pairs.push(Pair(a, b));
            i += 1;
        }
        proof {
            assert(pairs@ =~= shifted(self@, threshold as int, shift_amount as int));
        }
        PerfectMatching { pairs }
    }

    /// The matching seen with domain and codomain exchanged: the diagram
    /// with `source` points below and `target` points above, turned over.
    pub fn flip_upside_down(&self, source: usize, target: usize) -> (r: PerfectMatching)
        requires
            self.well_formed(),
            source + target == 2 * self@.len(),
            2 * self@.len() <= usize::MAX,
        ensures
            r.well_formed(),
            r@.len() == self@.len(),
            r@ == canonical_form(flipped(self@, source as int, target as int)),
            forall|x: int, y: int|
                0 <= x < source + target && 0 <= y < source + target ==> (#[trigger] paired(
                    self@,
                    x,
                    y,
                ) <==> paired(
                    r@,
                    Pair::flip_index(x, source as int, target as int),
                    Pair::flip_index(y, source as int, target as int),
                )),
    {
        let mut pairs: Vec<Pair> = Vec::new();
        let mut i: usize = 0;
        while i < self.pairs.len()
            invariant
                i <= self.pairs@.len(),
                pairs@.len() == i,
                is_matching(self@),
                self@ == self.pairs@,
                source + target == 2 * self@.len(),
                2 * self@.len() <= usize::MAX,
                forall|k: int|
                    0 <= k < i ==> (#[trigger] pairs@[k]).0 == Pair::flip_index(
                        self.pairs@[k].0 as int,
                        source as int,
                        target as int,
                    ) && pairs@[k].1 == Pair::flip_index(
                        self.pairs@[k].1 as int,
                        source as int,
                        target as int,
                    ),
            decreases self.pairs@.len() - i,
        {
            assert(self@[i as int].0 < 2 * self@.len());
            pairs.push(self.pairs[i].flip_upside_down(source, target));
            i += 1;
        }
        proof {
            let s = source as int;
            let t = target as int;
            let fa = |v: int| Pair::flip_index(v, s, t);
            let ga = |w: int| Pair::flip_index(w, t, s);
            let fb = |v: int| v;
            let in_a = |w: int| true;
            lemma_merge_is_matching(self@, Seq::<Pair>::empty(), pairs@, fa, fb, ga, fb, in_a);
            assert forall|x: int, y: int| 0 <= x < s + t && 0 <= y < s + t implies (#[trigger] paired(
                self@,
                x,
                y,
            ) <==> paired(pairs@, Pair::flip_index(x, s, t), Pair::flip_index(y, s, t))) by {
                assert(paired(self@, x, y) <==> paired(pairs@, fa(x), fa(y)));
            }
        }
        let ghost turned = pairs@;
        proof {
            assert(turned =~= flipped(self@, source as int, target as int));
        }
        match Self::from_iter(pairs) {
            Ok(m) => {
                proof {
                    assert forall|x: int, y: int|
                        0 <= x < source + target && 0 <= y < source + target implies (
                    #[trigger] paired(self@, x, y) <==> paired(
                        m@,
                        Pair::flip_index(x, source as int, target as int),
                        Pair::flip_index(y, source as int, target as int),
                    )) by {
                        let fx = Pair::flip_index(x, source as int, target as int);
                        let fy = Pair::flip_index(y, source as int, target as int);
                        assert(paired(m@, fx, fy) <==> paired(turned, fx, fy));
                    }
                }
                m
            },
            Err(_) => Self::empty(),
        }
    }

    /// The matching that joins every index to its image under `partners`.
    pub fn from_partners(partners: &Vec<usize>) -> (m: PerfectMatching)
        requires
            is_involution(partners@),
        ensures
            m.well_formed(),
            2 * m@.len() == partners@.len(),
            forall|x: int, y: int|
                #[trigger] paired(m@, x, y) <==> 0 <= x < partners@.len() && partners@[x] == y,
    {
        let out = pairs_of_table(partners);
        proof {
            lemma_involution_pairs(partners@, out@);
        }
        PerfectMatching { pairs: out }
    }

    /// The canonical form of a list that is known to be a matching.
    pub fn from_valid(pairs: Vec<Pair>) -> (m: PerfectMatching)
        requires
            is_matching(pairs@),
            2 * pairs@.len() <= usize::MAX,
        ensures
            m.well_formed(),
            m@.len() == pairs@.len(),
            same_pairing(m@, pairs@),
            m@ == canonical_form(pairs@),
    {
        match Self::from_iter(pairs) {
            Ok(m) => m,
            Err(_) => Self::empty(),
        }
    }

    /// Appends the pairs of `other`.
    pub fn extend(&mut self, other: PerfectMatching)
        ensures
            final(self)@ == old(self)@ + other@,
    {
        let ghost before = self.pairs@;
        let mut i: usize = 0;
        while i < other.pairs.len()
            invariant
                i <= other.pairs@.len(),
                self.pairs@ == before + other.pairs@.take(i as int),
            decreases other.pairs@.len() - i,
        {
            self.pairs.push(other.pairs[i]);
            proof {
                assert(other.pairs@.take(i + 1) =~= other.pairs@.take(i as int).push(
                    other.pairs@[i as int],
                ));
                assert(self.pairs@ =~= before + other.pairs@.take(i + 1));
            }
            i += 1;
        }
        proof {
            assert(other.pairs@.take(other.pairs@.len() as int) =~= other.pairs@);
        }
    }

    /// The number of pairs.
    pub fn len(&self) -> (n: usize)
        ensures
            n == self@.len(),
    {
        self.pairs.len()
    }

    /// The pairs in canonical order.
    pub fn pairs(&self) -> (r: &Vec<Pair>)
        ensures
            r@ == self@,
    {
        &self.pairs
    }
}

impl Clone for PerfectMatching {
    fn clone(&self) -> (r: PerfectMatching)
        ensures
            r@ == self@,
    {
        let mut pairs: Vec<Pair> = Vec::new();
        let mut i: usize = 0;
        while i < self.pairs.len()
            invariant
                i <= self.pairs@.len(),
                pairs@ == self.pairs@.take(i as int),
            decreases self.pairs@.len() - i,
        {
            pairs.push(self.pairs[i]);
            proof {
                assert(self.pairs@.take(i + 1) =~= self.pairs@.take(i as int).push(
                    self.pairs@[i as int],
                ));
            }
            i += 1;
        }
        proof {
            assert(self.pairs@.take(self.pairs@.len() as int) =~= self.pairs@);
        }
        PerfectMatching { pairs }
    }
}

impl PartialEq for PerfectMatching {
    fn eq(&self, other: &PerfectMatching) -> (b: bool) {
        assert(self@ == self.pairs@ && other@ == other.pairs@);
        if self.pairs.len() != other.pairs.len() {
            return false;
        }
        let mut i: usize = 0;
        while i < self.pairs.len()
            invariant
                i <= self.pairs@.len(),
                self.pairs@.len() == other.pairs@.len(),
                forall|k: int| 0 <= k < i ==> self.pairs@[k] == other.pairs@[k],
            decreases self.pairs@.len() - i,
        {
            if self.pairs[i].0 != other.pairs[i].0 || self.pairs[i].1 != other.pairs[i].1 {
                return false;
            }
            i += 1;
        }
        proof {
            assert(self.pairs@ =~= other.pairs@);
        }
        true
    }
}

impl vstd::std_specs::cmp::PartialEqSpecImpl for PerfectMatching {
    open spec fn obeys_eq_spec() -> bool {
        true
    }

    open spec fn eq_spec(&self, other: &PerfectMatching) -> bool {
        self@ == other@
    }
}

impl Key for PerfectMatching {
    fn key_eq(&self, other: &PerfectMatching) -> (b: bool) {
        *self == *other
    }

    fn key_clone(&self) -> (c: PerfectMatching) {
        self.clone()
    }
}

impl Key for (usize, PerfectMatching) {
    fn key_eq(&self, other: &(usize, PerfectMatching)) -> (b: bool) {
        self.0 == other.0 && self.1 == other.1
    }

    fn key_clone(&self) -> (c: (usize, PerfectMatching)) {
        (self.0, self.1.clone())
    }
}

} // verus!
