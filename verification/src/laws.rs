//! Laws of composition and of the adjoint.

use vstd::prelude::*;
use crate::coefficient::Coefficient;
use crate::glue::{
    boundary_mate, boundary_node, closed_loops, glued_pairs, is_glued, lemma_boundary_mate,
    lemma_glued_unique, lemma_loops_counted, loop_leaders, touches_boundary,
};
use crate::graph::{
    connected, edge_joins, lemma_connected_reflexive, lemma_connected_step,
    lemma_connected_symmetric, lemma_connected_transitive,
};
use crate::key::Key;
use crate::linear_combination::{
    accumulate, bilinear_terms, keys_distinct, lemma_map_of_push, lemma_same_views_same_map,
    lemma_terms_to_map_at, terms_to_map,
};
use crate::matching::{
    identity_pairs, is_canonical, is_matching, lemma_flip_involution, lemma_identity_pairs,
    lemma_paired_is_partner, lemma_partner_involution, paired, partner, PerfectMatching,
};
use crate::pair::Pair;
use crate::seam::{is_boundary, seam_edges, seam_nodes, seam_ok};
use crate::associativity::{
    first_interface, lemma_closed_loops_associative, lemma_glued_pairs_associative, triple_ok,
};
use crate::glue::lemma_glued_exists;
use crate::sums::{
    lemma_accumulate_total, lemma_bilinear_is_products, lemma_merge_left, lemma_merge_right,
    lemma_products_associative, mentions, merges, products, total, views_of,
};
use crate::temperley_lieb::{composed_key, composer, flipped_key, BrauerMorphism};

verus! {

/// The entries of a list with the views of their keys.
pub open spec fn term_views<K: Key, C>(terms: Seq<(K, C)>) -> Seq<(K::V, C)> {
    Seq::new(terms.len(), |i: int| (terms[i].0@, terms[i].1))
}

/// A list with distinct keys adds up to its own map.
pub proof fn lemma_accumulate_distinct<K: Key, C: Coefficient>(terms: Seq<(K, C)>)
    requires
        keys_distinct(terms),
    ensures
        accumulate(term_views(terms)) == terms_to_map(terms),
    decreases terms.len(),
{
    if terms.len() == 0 {
        assert(terms_to_map(terms) =~= Map::<K::V, C>::empty());
    } else {
        let head = terms.drop_last();
        let last = terms.last();
        assert(terms =~= head.push(last));
        lemma_map_of_push(head, last.0, last.1);
        lemma_accumulate_distinct(head);
        assert(term_views(terms).drop_last() =~= term_views(head));
    }
}

/// Gluing the identity below a diagram changes nothing: the matching stays
/// and no loop is closed.
pub proof fn lemma_glue_identity_left(m: Seq<Pair>, n: nat)
    requires
        is_matching(m),
        is_canonical(m),
        n <= 2 * m.len(),
        n + 2 * m.len() <= usize::MAX,
    ensures
        glued_pairs(identity_pairs(n), m, n as int) == m,
        closed_loops(identity_pairs(n), m, n as int) == 0,
{
    let id = identity_pairs(n);
    let d = n as int;
    lemma_identity_pairs(n);
    assert(seam_ok(id, m, d));
    let edges = seam_edges(id, m, d);
    let size = 2 * m.len() as int;
    // Endpoint `x` of the diagram is the node `x + n` of the glued graph,
    // and boundary point `x` of the composite is connected to it.
    assert forall|x: int| 0 <= x < size implies connected(
        edges,
        boundary_node(x, d, d),
        #[trigger] (x + n),
    ) by {
        if x < n {
            lemma_connected_reflexive(edges, x);
            assert(edge_joins(edges[x], x, x + n));
            lemma_connected_step(edges, x, x, x + n);
        } else {
            lemma_connected_reflexive(edges, x + n);
        }
    }
    assert forall|x: int| 0 <= x < size implies boundary_mate(id, m, d, x) == partner(m, x) by {
        lemma_partner_involution(m, x);
        let y = partner(m, x);
        let k = choose|k: int|
            0 <= k < m.len() && #[trigger] m[k].touches(x) && m[k].other(x) == y;
        assert(edge_joins(edges[n + k], x + n, y + n));
        assert(connected(edges, boundary_node(x, d, d), x + n));
        lemma_connected_step(edges, boundary_node(x, d, d), x + n, y + n);
        assert(connected(edges, boundary_node(y, d, d), y + n));
        lemma_connected_symmetric(edges, boundary_node(y, d, d), y + n);
        lemma_connected_transitive(edges, boundary_node(x, d, d), y + n, boundary_node(y, d, d));
        lemma_boundary_mate(id, m, d, x);
    }
    assert forall|x: int, y: int| #[trigger] paired(m, x, y) <==> 0 <= x < 2 * d + 2 * m.len() - 2
        * id.len() && y == boundary_mate(id, m, d, x) by {
        if paired(m, x, y) {
            lemma_paired_is_partner(m, x, y);
        }
        if 0 <= x < size {
            lemma_partner_involution(m, x);
        }
    }
    assert(is_glued(id, m, d, m));
    lemma_glued_unique(id, m, d, m);
    lemma_loops_counted(id, m, d);
    assert(loop_leaders(id, m, d) =~= Set::<int>::empty()) by {
        assert forall|v: int| 0 <= v < seam_nodes(id, m, d) implies touches_boundary(id, m, d, v) by {
            if n <= v < 2 * n {
                let x = v - n;
                assert(edge_joins(edges[x], v, x));
                lemma_connected_reflexive(edges, v);
                lemma_connected_step(edges, v, v, x);
                assert(is_boundary(id, m, d, x));
            } else {
                lemma_connected_reflexive(edges, v);
                assert(is_boundary(id, m, d, v));
            }
        }
    }
}

/// Gluing the identity on top of a diagram changes nothing: the matching
/// stays and no loop is closed.
pub proof fn lemma_glue_identity_right(m: Seq<Pair>, n: nat)
    requires
        is_matching(m),
        is_canonical(m),
        n <= 2 * m.len(),
        4 * m.len() <= usize::MAX,
    ensures
        glued_pairs(m, identity_pairs((2 * m.len() - n) as nat), n as int) == m,
        closed_loops(m, identity_pairs((2 * m.len() - n) as nat), n as int) == 0,
{
    let t = (2 * m.len() - n) as nat;
    let id = identity_pairs(t);
    let d = n as int;
    lemma_identity_pairs(t);
    assert(seam_ok(m, id, d));
    let edges = seam_edges(m, id, d);
    let size = 2 * m.len() as int;
    // Endpoint `x` of the diagram is the node `x` of the glued graph, and
    // boundary point `x` of the composite is connected to it.
    assert forall|x: int| 0 <= x < size implies #[trigger] connected(
        edges,
        boundary_node(x, d, t as int),
        x,
    ) by {
        if x < n {
            lemma_connected_reflexive(edges, x);
        } else {
            let i = x - n;
            lemma_connected_reflexive(edges, x + t);
            assert(edge_joins(edges[m.len() + i], x + t, x));
            lemma_connected_step(edges, x + t, x + t, x);
        }
    }
    assert forall|x: int| 0 <= x < size implies boundary_mate(m, id, d, x) == partner(m, x) by {
        lemma_partner_involution(m, x);
        let y = partner(m, x);
        let k = choose|k: int|
            0 <= k < m.len() && #[trigger] m[k].touches(x) && m[k].other(x) == y;
        assert(edge_joins(edges[k], x, y));
        assert(connected(edges, boundary_node(x, d, t as int), x));
        lemma_connected_step(edges, boundary_node(x, d, t as int), x, y);
        assert(connected(edges, boundary_node(y, d, t as int), y));
        lemma_connected_symmetric(edges, boundary_node(y, d, t as int), y);
        lemma_connected_transitive(
            edges,
            boundary_node(x, d, t as int),
            y,
            boundary_node(y, d, t as int),
        );
        lemma_boundary_mate(m, id, d, x);
    }
    assert forall|x: int, y: int| #[trigger] paired(m, x, y) <==> 0 <= x < 2 * d + 2 * id.len() - 2
        * m.len() && y == boundary_mate(m, id, d, x) by {
        if paired(m, x, y) {
            lemma_paired_is_partner(m, x, y);
        }
        if 0 <= x < size {
            lemma_partner_involution(m, x);
        }
    }
    assert(is_glued(m, id, d, m));
    lemma_glued_unique(m, id, d, m);
    lemma_loops_counted(m, id, d);
    assert(loop_leaders(m, id, d) =~= Set::<int>::empty()) by {
        assert forall|v: int| 0 <= v < seam_nodes(m, id, d) implies touches_boundary(m, id, d, v) by {
            if n <= v < n + t {
                let i = v - n;
                assert(edge_joins(edges[m.len() + i], v, v + t));
                lemma_connected_reflexive(edges, v);
                lemma_connected_step(edges, v, v, v + t);
                assert(is_boundary(m, id, d, v + t));
            } else {
                lemma_connected_reflexive(edges, v);
                assert(is_boundary(m, id, d, v));
            }
        }
    }
}

/// The morphism is the identity on `n` points: one term, the identity
/// diagram with coefficient one and no power of the loop value.
pub open spec fn is_identity<T: Coefficient>(id: BrauerMorphism<T>, n: nat) -> bool {
    &&& id.spec_domain() == n
    &&& id.spec_codomain() == n
    &&& id.terms().len() == 1
    &&& id.terms()[0].0@ == (0usize, identity_pairs(n))
    &&& id.terms()[0].1 == T::ring_one()
}

/// The identity is neutral on the left: the composite of the identity on the
/// domain of `f` with `f` has the terms of `f`.
pub proof fn lemma_identity_then<T: Coefficient>(id: BrauerMorphism<T>, f: BrauerMorphism<T>)
    requires
        f.well_formed(),
        is_identity(id, f.spec_domain() as nat),
        2 * f.spec_domain() + f.spec_codomain() <= usize::MAX,
    ensures
        accumulate(
            bilinear_terms(
                id.terms(),
                f.terms(),
                composer(id.spec_domain() as int),
                id.terms().len(),
            ),
        ) == f@,
{
    let n = f.spec_domain() as nat;
    let g = composer(n as int);
    let terms = f.terms();
    let products = bilinear_terms(id.terms(), terms, g, 1);
    assert(bilinear_terms(id.terms(), terms, g, 0) =~= Seq::<((usize, Seq<Pair>), T)>::empty());
    assert(products =~= term_views(terms)) by {
        assert forall|j: int| 0 <= j < terms.len() implies products[j] == term_views(terms)[j] by {
            lemma_terms_to_map_at(terms, j);
            assert(f@.dom().contains(terms[j].0@));
            lemma_glue_identity_left(terms[j].0.1@, n);
            T::lemma_mul_one(terms[j].1);
        }
    }
    lemma_accumulate_distinct(terms);
}

/// The rows of the composite of `f` with a morphism of one term.
proof fn lemma_rows_of_one<T: Coefficient>(
    lhs: Seq<((usize, PerfectMatching), T)>,
    rhs: Seq<((usize, PerfectMatching), T)>,
    g: spec_fn((usize, Seq<Pair>), (usize, Seq<Pair>)) -> (usize, Seq<Pair>),
    rows: nat,
)
    requires
        rows <= lhs.len(),
        rhs.len() == 1,
        forall|i: int|
            0 <= i < rows ==> g(#[trigger] lhs[i].0@, rhs[0].0@) == lhs[i].0@ && lhs[i].1.ring_mul(
                rhs[0].1,
            ) == lhs[i].1,
    ensures
        bilinear_terms(lhs, rhs, g, rows) == term_views(lhs.take(rows as int)),
    decreases rows,
{
    if rows == 0 {
        assert(bilinear_terms(lhs, rhs, g, rows) =~= term_views(lhs.take(0)));
    } else {
        lemma_rows_of_one(lhs, rhs, g, (rows - 1) as nat);
        assert(bilinear_terms(lhs, rhs, g, rows) =~= term_views(lhs.take(rows as int)));
    }
}

/// The identity is neutral on the right: the composite of `f` with the
/// identity on the codomain of `f` has the terms of `f`.
pub proof fn lemma_then_identity<T: Coefficient>(f: BrauerMorphism<T>, id: BrauerMorphism<T>)
    requires
        f.well_formed(),
        is_identity(id, f.spec_codomain() as nat),
        2 * f.spec_domain() + 2 * f.spec_codomain() <= usize::MAX,
    ensures
        accumulate(
            bilinear_terms(
                f.terms(),
                id.terms(),
                composer(f.spec_domain() as int),
                f.terms().len(),
            ),
        ) == f@,
{
    let n = f.spec_domain() as nat;
    let g = composer(n as int);
    let terms = f.terms();
    assert forall|i: int| 0 <= i < terms.len() implies g(#[trigger] terms[i].0@, id.terms()[0].0@)
        == terms[i].0@ && terms[i].1.ring_mul(id.terms()[0].1) == terms[i].1 by {
        lemma_terms_to_map_at(terms, i);
        assert(f@.dom().contains(terms[i].0@));
        lemma_glue_identity_right(terms[i].0.1@, n);
        T::lemma_mul_one(terms[i].1);
    }
    lemma_rows_of_one(terms, id.terms(), g, terms.len());
    assert(terms.take(terms.len() as int) =~= terms);
    lemma_accumulate_distinct(terms);
}

/// `g` is the adjoint of `f` where `conj` conjugates the coefficients: the
/// sizes change places, every diagram is turned over, and every coefficient
/// is conjugated.
pub open spec fn is_adjoint<T: Coefficient>(
    f: BrauerMorphism<T>,
    g: BrauerMorphism<T>,
    conj: spec_fn(T) -> T,
) -> bool {
    &&& g.spec_domain() == f.spec_codomain()
    &&& g.spec_codomain() == f.spec_domain()
    &&& g.terms().len() == f.terms().len()
    &&& forall|i: int|
        0 <= i < f.terms().len() ==> (#[trigger] g.terms()[i]).0@ == flipped_key(
            f.terms()[i].0@,
            f.spec_domain() as int,
            f.spec_codomain() as int,
        ) && g.terms()[i].1 == conj(f.terms()[i].1)
}

/// The adjoint is an involution: where conjugating twice gives every
/// coefficient back, the adjoint of the adjoint is the morphism itself.
pub proof fn lemma_adjoint_involution<T: Coefficient>(
    f: BrauerMorphism<T>,
    g: BrauerMorphism<T>,
    h: BrauerMorphism<T>,
    conj: spec_fn(T) -> T,
)
    requires
        f.well_formed(),
        is_adjoint(f, g, conj),
        is_adjoint(g, h, conj),
        forall|c: T| conj(#[trigger] conj(c)) == c,
    ensures
        h.same_morphism(&f),
{
    let s = f.spec_domain() as int;
    let t = f.spec_codomain() as int;
    assert forall|i: int| 0 <= i < f.terms().len() implies (#[trigger] h.terms()[i]).0@
        == f.terms()[i].0@ && h.terms()[i].1 == f.terms()[i].1 by {
        lemma_terms_to_map_at(f.terms(), i);
        assert(f@.dom().contains(f.terms()[i].0@));
        lemma_flip_involution(f.terms()[i].0.1@, s, t);
        assert(g.terms()[i].0@ == flipped_key(f.terms()[i].0@, s, t));
        assert(h.terms()[i].0@ == flipped_key(g.terms()[i].0@, t, s));
        assert(h.terms()[i].1 == conj(g.terms()[i].1));
    }
    lemma_same_views_same_map(f.terms(), h.terms());
}

/// Composing diagrams is associative: both ways of bracketing three
/// diagrams give the same matching and the same power of the loop value.
pub proof fn lemma_composed_key_associative(
    a: (usize, Seq<Pair>),
    b: (usize, Seq<Pair>),
    c: (usize, Seq<Pair>),
    d0: int,
)
    requires
        triple_ok(a.1, b.1, c.1, d0),
        a.0 + b.0 + c.0 + 4 * a.1.len() + 4 * b.1.len() + 4 * c.1.len() <= usize::MAX,
    ensures
        composed_key(composed_key(a, b, d0), c, d0) == composed_key(
            a,
            composed_key(b, c, first_interface(a.1, d0)),
            d0,
        ),
{
    let d1 = first_interface(a.1, d0);
    let xy = glued_pairs(a.1, b.1, d0);
    let yz = glued_pairs(b.1, c.1, d1);
    lemma_glued_pairs_associative(a.1, b.1, c.1, d0);
    lemma_closed_loops_associative(a.1, b.1, c.1, d0);
    assert(seam_ok(a.1, b.1, d0));
    assert(seam_ok(b.1, c.1, d1));
    lemma_glued_exists(a.1, b.1, d0);
    lemma_glued_exists(b.1, c.1, d1);
    assert(seam_ok(xy, c.1, d0));
    assert(seam_ok(a.1, yz, d0));
    lemma_loops_counted(a.1, b.1, d0);
    lemma_loops_counted(b.1, c.1, d1);
    lemma_loops_counted(xy, c.1, d0);
    lemma_loops_counted(a.1, yz, d0);
}

/// `fg` is the composite of `f` and `g`, `f` first.
pub open spec fn is_composite<T: Coefficient>(
    f: BrauerMorphism<T>,
    g: BrauerMorphism<T>,
    fg: BrauerMorphism<T>,
) -> bool {
    &&& f.spec_codomain() == g.spec_domain()
    &&& fg.well_formed()
    &&& fg.spec_domain() == f.spec_domain()
    &&& fg.spec_codomain() == g.spec_codomain()
    &&& fg@ == accumulate(
        bilinear_terms(
            f.terms(),
            g.terms(),
            composer(f.spec_domain() as int),
            f.terms().len(),
        ),
    )
}

/// The powers of the loop value and the sizes of three morphisms fit `usize`
/// where the three are composed.
pub open spec fn triple_fits<T: Coefficient>(
    f: BrauerMorphism<T>,
    g: BrauerMorphism<T>,
    h: BrauerMorphism<T>,
) -> bool {
    forall|i: int, j: int, l: int|
        0 <= i < f.terms().len() && 0 <= j < g.terms().len() && 0 <= l < h.terms().len() ==> (
        #[trigger] f.terms()[i]).0.0 + (#[trigger] g.terms()[j]).0.0 + (#[trigger] h.terms()[
            l
        ]).0.0 + 2 * f.spec_domain() + 4 * g.spec_domain() + 4 * h.spec_domain() + 2
            * h.spec_codomain() <= usize::MAX
}

/// The views of the terms of a morphism merge the list that the morphism adds up.
proof fn lemma_terms_merge<T: Coefficient>(
    m: BrauerMorphism<T>,
    s: Seq<((usize, Seq<Pair>), T)>,
)
    requires
        m.well_formed(),
        m@ == accumulate(s),
    ensures
        merges(views_of(m.terms()), s),
{
    let terms = m.terms();
    let merged = views_of(terms);
    assert forall|i: int, j: int| 0 <= i < j < merged.len() implies (#[trigger] merged[i]).0 != (
    #[trigger] merged[j]).0 by {
        assert(terms[i].0@ != terms[j].0@);
    }
    assert forall|k: (usize, Seq<Pair>)| #[trigger] mentions(merged, k) <==> mentions(s, k) by {
        lemma_accumulate_total(s, k);
        if mentions(merged, k) {
            let i = choose|i: int| 0 <= i < merged.len() && (#[trigger] merged[i]).0 == k;
            lemma_terms_to_map_at(terms, i);
        }
        if m@.dom().contains(k) {
            let i = choose|i: int| 0 <= i < terms.len() && #[trigger] terms[i].0@ == k;
            assert(merged[i].0 == k);
        }
    }
    assert forall|i: int| 0 <= i < merged.len() implies (#[trigger] merged[i]).1 == total(
        s,
        merged[i].0,
    ) by {
        lemma_terms_to_map_at(terms, i);
        lemma_accumulate_total(s, merged[i].0);
    }
}

/// Composition is associative: `(f∘g)∘h` and `f∘(g∘h)` have the same terms
/// with the same coefficients.
pub proof fn lemma_composition_associative<T: Coefficient>(
    f: BrauerMorphism<T>,
    g: BrauerMorphism<T>,
    h: BrauerMorphism<T>,
    fg: BrauerMorphism<T>,
    gh: BrauerMorphism<T>,
    left: BrauerMorphism<T>,
    right: BrauerMorphism<T>,
)
    requires
        f.well_formed(),
        g.well_formed(),
        h.well_formed(),
        triple_fits(f, g, h),
        is_composite(f, g, fg),
        is_composite(g, h, gh),
        is_composite(fg, h, left),
        is_composite(f, gh, right),
    ensures
        left.same_morphism(&right),
{
    let d0 = f.spec_domain() as int;
    let d1 = g.spec_domain() as int;
    let first = composer(d0);
    let second = composer(d1);
    let fv = views_of(f.terms());
    let gv = views_of(g.terms());
    let hv = views_of(h.terms());
    let fgv = views_of(fg.terms());
    let ghv = views_of(gh.terms());
    let fg_all = products(fv, gv, first, fv.len());
    let gh_all = products(gv, hv, second, gv.len());
    lemma_bilinear_is_products(f.terms(), g.terms(), first, f.terms().len());
    lemma_bilinear_is_products(g.terms(), h.terms(), second, g.terms().len());
    lemma_bilinear_is_products(fg.terms(), h.terms(), first, fg.terms().len());
    lemma_bilinear_is_products(f.terms(), gh.terms(), first, f.terms().len());
    lemma_terms_merge(fg, fg_all);
    lemma_terms_merge(gh, gh_all);
    lemma_merge_left(fgv, fg_all, hv, first);
    lemma_merge_right(fv, ghv, gh_all, first);
    assert forall|i: int, j: int, l: int|
        0 <= i < fv.len() && 0 <= j < gv.len() && 0 <= l < hv.len() implies #[trigger] first(
        first(fv[i].0, gv[j].0),
        hv[l].0,
    ) == first(fv[i].0, #[trigger] second(gv[j].0, hv[l].0)) by {
        lemma_terms_to_map_at(f.terms(), i);
        lemma_terms_to_map_at(g.terms(), j);
        lemma_terms_to_map_at(h.terms(), l);
        assert(f@.dom().contains(fv[i].0));
        assert(g@.dom().contains(gv[j].0));
        assert(h@.dom().contains(hv[l].0));
        assert(f.terms()[i].0.0 + g.terms()[j].0.0 + h.terms()[l].0.0 + 2 * f.spec_domain() + 4
            * g.spec_domain() + 4 * h.spec_domain() + 2 * h.spec_codomain() <= usize::MAX);
        lemma_composed_key_associative(fv[i].0, gv[j].0, hv[l].0, d0);
    }
    lemma_products_associative(fv, gv, hv, first, first, second, first);
}

/// The identity composed with itself closes no loop and keeps its matching.
pub proof fn lemma_identity_squared(n: nat)
    requires
        3 * n <= usize::MAX,
    ensures
        glued_pairs(identity_pairs(n), identity_pairs(n), n as int) == identity_pairs(n),
        closed_loops(identity_pairs(n), identity_pairs(n), n as int) == 0,
        composed_key((0usize, identity_pairs(n)), (0usize, identity_pairs(n)), n as int) == (
            0usize,
            identity_pairs(n),
        ),
{
    lemma_identity_pairs(n);
    lemma_glue_identity_left(identity_pairs(n), n);
}

} // verus!
