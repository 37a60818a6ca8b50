//! Gluing three diagrams: both ways of bracketing give the diagram that is
//! read off the graph of all three.
//!
//! The first diagram, `x`, has `d0` domain points. The graph of all three
//! has the nodes of `x` first, then the codomain of `y`, then the codomain
//! of `z`.

use vstd::prelude::*;
use crate::contraction::{
    below, closed_leaders, edges_embed, edges_split, is_place, lemma_closed_count,
    lemma_large_to_small, lemma_small_to_large, lemma_walk_image, part_contracted, shores_fit,
};
use crate::glue::{
    boundary_node, closed_loops, glued_pairs, is_glued, lemma_boundary_mate, lemma_glued_exists,
    lemma_loops_counted, loop_leaders, touches_boundary,
};
use crate::graph::{
    adjacent, connected, edge_joins, lemma_connected_reflexive, lemma_connected_step,
    lemma_connected_symmetric, lemma_isolated, walk_between,
};
use crate::matching::{is_matching, lemma_canonical_unique, lemma_paired_is_partner, paired};
use crate::pair::Pair;
use crate::seam::{is_boundary, seam_edges, seam_nodes, seam_ok};

verus! {

/// The number of points between `x` and `y`.
pub open spec fn first_interface(x: Seq<Pair>, d0: int) -> int {
    2 * x.len() - d0
}

/// The number of points between `y` and `z`.
pub open spec fn second_interface(x: Seq<Pair>, y: Seq<Pair>, d0: int) -> int {
    2 * y.len() - first_interface(x, d0)
}

/// The number of codomain points of `z`.
pub open spec fn last_side(x: Seq<Pair>, y: Seq<Pair>, z: Seq<Pair>, d0: int) -> int {
    2 * z.len() - second_interface(x, y, d0)
}

/// The number of nodes of the graph of all three.
pub open spec fn triple_nodes(x: Seq<Pair>, z: Seq<Pair>) -> int {
    (2 * x.len() + 2 * z.len()) as int
}

/// The three matchings fit one after the other.
pub open spec fn triple_ok(x: Seq<Pair>, y: Seq<Pair>, z: Seq<Pair>, d0: int) -> bool {
    &&& is_matching(x)
    &&& is_matching(y)
    &&& is_matching(z)
    &&& 0 <= d0
    &&& 0 <= first_interface(x, d0)
    &&& 0 <= second_interface(x, y, d0)
    &&& 0 <= last_side(x, y, z, d0)
    &&& 2 * x.len() + 2 * y.len() + 2 * z.len() <= usize::MAX
}

/// The edges of the graph of all three: the pairs of `x`, the pairs of `y`
/// moved up by `d0`, and the pairs of `z` moved up past the first interface.
pub open spec fn triple_edges(x: Seq<Pair>, y: Seq<Pair>, z: Seq<Pair>, d0: int) -> Seq<(int, int)> {
    Seq::new(
        x.len() + y.len() + z.len(),
        |k: int|
            if k < x.len() {
                (x[k].0 as int, x[k].1 as int)
            } else if k < x.len() + y.len() {
                (y[k - x.len()].0 + d0, y[k - x.len()].1 + d0)
            } else {
                (
                    z[k - x.len() - y.len()].0 + d0 + first_interface(x, d0),
                    z[k - x.len() - y.len()].1 + d0 + first_interface(x, d0),
                )
            },
    )
}

/// The indices below `bound` move up by `by`; the others stay.
pub open spec fn lift(bound: int, by: int) -> spec_fn(int) -> int {
    |v: int|
        if v < bound {
            v
        } else {
            v + by
        }
}

/// In the graph of `x` and `y`, a boundary node is connected to itself and
/// to its mate, which the matching of the composite joins to it.
proof fn lemma_boundary_connected(x: Seq<Pair>, y: Seq<Pair>, d: int, a: int, b: int)
    requires
        seam_ok(x, y, d),
        seam_nodes(x, y, d) <= usize::MAX,
        0 <= a < 2 * d + 2 * y.len() - 2 * x.len(),
        0 <= b < 2 * d + 2 * y.len() - 2 * x.len(),
    ensures
        connected(
            seam_edges(x, y, d),
            boundary_node(a, d, 2 * x.len() - d),
            boundary_node(b, d, 2 * x.len() - d),
        ) <==> a == b || paired(glued_pairs(x, y, d), a, b),
{
    lemma_glued_exists(x, y, d);
    lemma_boundary_mate(x, y, d, a);
    if a == b {
        lemma_connected_reflexive(seam_edges(x, y, d), boundary_node(a, d, 2 * x.len() - d));
    }
}

/// The graph of the composite of `x` and `y`, and of `z`, is the graph of
/// all three with the paths through `x` and `y` replaced by edges.
pub proof fn lemma_left_bracket_fits(x: Seq<Pair>, y: Seq<Pair>, z: Seq<Pair>, d0: int)
    requires
        triple_ok(x, y, z, d0),
    ensures
        is_glued(x, y, d0, glued_pairs(x, y, d0)),
        glued_pairs(x, y, d0).len() == d0 + y.len() - x.len(),
        seam_ok(glued_pairs(x, y, d0), z, d0),
        edges_split(
            triple_edges(x, y, z, d0),
            seam_edges(glued_pairs(x, y, d0), z, d0),
            seam_edges(x, y, d0),
            lift(d0, first_interface(x, d0)),
            0,
        ),
        part_contracted(
            seam_edges(glued_pairs(x, y, d0), z, d0),
            seam_edges(x, y, d0),
            lift(d0, first_interface(x, d0)),
            0,
            below(d0 + 2 * z.len()),
        ),
        edges_embed(
            triple_edges(x, y, z, d0),
            seam_edges(glued_pairs(x, y, d0), z, d0),
            seam_edges(x, y, d0),
            lift(d0, first_interface(x, d0)),
            0,
        ),
{
    let d1 = first_interface(x, d0);
    let d2 = second_interface(x, y, d0);
    let xy = glued_pairs(x, y, d0);
    let large = triple_edges(x, y, z, d0);
    let small = seam_edges(xy, z, d0);
    let part = seam_edges(x, y, d0);
    let place = lift(d0, d1);
    let is_node = below(d0 + 2 * z.len());
    assert(seam_ok(x, y, d0));
    lemma_glued_exists(x, y, d0);
    assert(seam_ok(xy, z, d0));
    // The edges of `x` and `y` are edges of the graph of all three.
    assert forall|h: int, k: int| #[trigger] adjacent(part, h, k) implies adjacent(
        large,
        h + 0,
        k + 0,
    ) by {
        let i = choose|i: int| 0 <= i < part.len() && edge_joins(#[trigger] part[i], h, k);
        assert(edge_joins(large[i], h, k));
    }
    assert forall|a: int, b: int| #[trigger] adjacent(large, a, b) implies adjacent(
        part,
        a - 0,
        b - 0,
    ) || exists|u: int, v: int|
        place(u) == a && place(v) == b && #[trigger] adjacent(small, u, v) by {
        let i = choose|i: int| 0 <= i < large.len() && edge_joins(#[trigger] large[i], a, b);
        if i < x.len() + y.len() {
            assert(edge_joins(part[i], a, b));
        } else {
            let j = i - x.len() - y.len();
            assert(z[j].0 < 2 * z.len());
            assert(edge_joins(small[xy.len() + j], a - d1, b - d1));
            assert(place(a - d1) == a && place(b - d1) == b && adjacent(small, a - d1, b - d1));
        }
    }
    assert forall|u: int, v: int| #[trigger] adjacent(small, u, v) implies is_node(u) && is_node(v)
        && connected(large, place(u), place(v)) by {
        let i = choose|i: int| 0 <= i < small.len() && edge_joins(#[trigger] small[i], u, v);
        if i < xy.len() {
            assert(xy[i].0 < 2 * xy.len() && xy[i].1 < 2 * xy.len());
            assert(xy[i].touches(u) && xy[i].other(u) == v);
            assert(paired(xy, u, v));
            lemma_boundary_connected(x, y, d0, u, v);
            let walk = choose|walk: Seq<int>| #[trigger]
                walk_between(part, walk, boundary_node(u, d0, d1), boundary_node(v, d0, d1));
            let same = |h: int| h;
            assert forall|h: int, k: int| #[trigger] adjacent(part, h, k) implies connected(
                large,
                same(h),
                same(k),
            ) by {
                assert(adjacent(large, h + 0, k + 0));
                lemma_connected_reflexive(large, h);
                lemma_connected_step(large, h, h, k);
            }
            lemma_walk_image(part, large, same, walk, walk.len() - 1);
        } else {
            let j = i - xy.len();
            assert(z[j].0 < 2 * z.len() && z[j].1 < 2 * z.len());
            assert(edge_joins(large[x.len() + y.len() + j], place(u), place(v)));
            lemma_connected_reflexive(large, place(u));
            lemma_connected_step(large, place(u), place(u), place(v));
        }
    }
    assert forall|u: int, v: int|
        is_node(u) && is_node(v) && #[trigger] connected(part, place(u) - 0, place(v) - 0) implies connected(
        small,
        u,
        v,
    ) by {
        if u >= d0 + d2 {
            // No edge of `x` or `y` touches the place of `u`.
            assert forall|k: int| 0 <= k < part.len() implies (#[trigger] part[k]).0 != place(u)
                && part[k].1 != place(u) by {
                if k < x.len() {
                    assert(x[k].0 < 2 * x.len());
                } else {
                    assert(y[k - x.len()].0 < 2 * y.len());
                }
            }
            lemma_isolated(part, place(u), place(v));
            lemma_connected_reflexive(small, u);
        } else if v >= d0 + d2 {
            assert forall|k: int| 0 <= k < part.len() implies (#[trigger] part[k]).0 != place(v)
                && part[k].1 != place(v) by {
                if k < x.len() {
                    assert(x[k].0 < 2 * x.len());
                } else {
                    assert(y[k - x.len()].0 < 2 * y.len());
                }
            }
            lemma_connected_symmetric(part, place(u), place(v));
            lemma_isolated(part, place(v), place(u));
            lemma_connected_reflexive(small, u);
        } else {
            lemma_boundary_connected(x, y, d0, u, v);
            if u == v {
                lemma_connected_reflexive(small, u);
            } else {
                let i = choose|i: int|
                    0 <= i < xy.len() && #[trigger] xy[i].touches(u) && xy[i].other(u) == v;
                assert(edge_joins(small[i], u, v));
                lemma_connected_reflexive(small, u);
                lemma_connected_step(small, u, u, v);
            }
        }
    }
}

/// Two nodes of the graph of the composite of `x` and `y`, and of `z`, are
/// connected exactly when their places are connected in the graph of all three.
pub proof fn lemma_left_bracket(x: Seq<Pair>, y: Seq<Pair>, z: Seq<Pair>, d0: int, s: int, b: int)
    requires
        triple_ok(x, y, z, d0),
        0 <= s < d0 + 2 * z.len(),
        0 <= b < d0 + 2 * z.len(),
    ensures
        connected(seam_edges(glued_pairs(x, y, d0), z, d0), s, b) <==> connected(
            triple_edges(x, y, z, d0),
            lift(d0, first_interface(x, d0))(s),
            lift(d0, first_interface(x, d0))(b),
        ),
{
    let large = triple_edges(x, y, z, d0);
    let small = seam_edges(glued_pairs(x, y, d0), z, d0);
    let part = seam_edges(x, y, d0);
    let place = lift(d0, first_interface(x, d0));
    let is_node = below(d0 + 2 * z.len());
    lemma_left_bracket_fits(x, y, z, d0);
    if connected(small, s, b) {
        lemma_small_to_large(large, small, part, place, 0, s, b);
    }
    if connected(large, place(s), place(b)) {
        assert(is_node(s) && is_node(b));
        lemma_large_to_small(large, small, part, place, 0, is_node, s, b);
    }
}

/// The sizes fit where `y` and `z` are glued first.
proof fn lemma_right_sizes(x: Seq<Pair>, y: Seq<Pair>, z: Seq<Pair>, d0: int)
    requires
        triple_ok(x, y, z, d0),
    ensures
        seam_ok(y, z, first_interface(x, d0)),
        seam_nodes(y, z, first_interface(x, d0)) <= usize::MAX,
        is_glued(y, z, first_interface(x, d0), glued_pairs(y, z, first_interface(x, d0))),
        is_matching(glued_pairs(y, z, first_interface(x, d0))),
        glued_pairs(y, z, first_interface(x, d0)).len() == first_interface(x, d0) + z.len() - y.len(),
        seam_ok(x, glued_pairs(y, z, first_interface(x, d0)), d0),
{
    let d1 = first_interface(x, d0);
    assert(seam_ok(y, z, d1));
    lemma_glued_exists(y, z, d1);
}

/// Every edge of the graph of all three is an edge of `x` or an edge of `y`
/// or `z`.
proof fn lemma_right_split(x: Seq<Pair>, y: Seq<Pair>, z: Seq<Pair>, d0: int, a: int, b: int)
    requires
        triple_ok(x, y, z, d0),
        adjacent(triple_edges(x, y, z, d0), a, b),
    ensures
        adjacent(seam_edges(y, z, first_interface(x, d0)), a - d0, b - d0) || (a < 2 * x.len() && b
            < 2 * x.len() && adjacent(
            seam_edges(x, glued_pairs(y, z, first_interface(x, d0)), d0),
            a,
            b,
        )),
{
    let d1 = first_interface(x, d0);
    let yz = glued_pairs(y, z, d1);
    let large = triple_edges(x, y, z, d0);
    let small = seam_edges(x, yz, d0);
    let part = seam_edges(y, z, d1);
    let i = choose|i: int| 0 <= i < large.len() && edge_joins(#[trigger] large[i], a, b);
    lemma_right_sizes(x, y, z, d0);
    if i < x.len() {
        assert(x[i].0 < 2 * x.len() && x[i].1 < 2 * x.len());
        assert(edge_joins(small[i], a, b));
    } else {
        assert(edge_joins(part[i - x.len()], a - d0, b - d0));
    }
}

/// Every edge of `y` and `z` is an edge of the graph of all three.
proof fn lemma_right_part(x: Seq<Pair>, y: Seq<Pair>, z: Seq<Pair>, d0: int, h: int, k: int)
    requires
        triple_ok(x, y, z, d0),
        adjacent(seam_edges(y, z, first_interface(x, d0)), h, k),
    ensures
        adjacent(triple_edges(x, y, z, d0), h + d0, k + d0),
        connected(triple_edges(x, y, z, d0), h + d0, k + d0),
{
    let d1 = first_interface(x, d0);
    let large = triple_edges(x, y, z, d0);
    let part = seam_edges(y, z, d1);
    let i = choose|i: int| 0 <= i < part.len() && edge_joins(#[trigger] part[i], h, k);
    assert(edge_joins(large[x.len() + i], h + d0, k + d0));
    lemma_connected_reflexive(large, h + d0);
    lemma_connected_step(large, h + d0, h + d0, k + d0);
}

/// Nodes that are connected through `y` and `z` are connected in the graph
/// of all three.
proof fn lemma_right_part_connected(
    x: Seq<Pair>,
    y: Seq<Pair>,
    z: Seq<Pair>,
    d0: int,
    h: int,
    k: int,
)
    requires
        triple_ok(x, y, z, d0),
        connected(seam_edges(y, z, first_interface(x, d0)), h, k),
    ensures
        connected(triple_edges(x, y, z, d0), h + d0, k + d0),
{
    let large = triple_edges(x, y, z, d0);
    let part = seam_edges(y, z, first_interface(x, d0));
    let walk = choose|walk: Seq<int>| #[trigger] walk_between(part, walk, h, k);
    let up = |n: int| n + d0;
    assert forall|a: int, b: int| #[trigger] adjacent(part, a, b) implies connected(
        large,
        up(a),
        up(b),
    ) by {
        lemma_right_part(x, y, z, d0, a, b);
    }
    lemma_walk_image(part, large, up, walk, walk.len() - 1);
}

/// Every pair of the composite of `y` and `z` is a path in the graph of all three.
proof fn lemma_right_pair(x: Seq<Pair>, y: Seq<Pair>, z: Seq<Pair>, d0: int, p: int, q: int)
    requires
        triple_ok(x, y, z, d0),
        paired(glued_pairs(y, z, first_interface(x, d0)), p, q),
    ensures
        0 <= p < first_interface(x, d0) + last_side(x, y, z, d0),
        0 <= q < first_interface(x, d0) + last_side(x, y, z, d0),
        connected(
            triple_edges(x, y, z, d0),
            boundary_node(p, first_interface(x, d0), second_interface(x, y, d0)) + d0,
            boundary_node(q, first_interface(x, d0), second_interface(x, y, d0)) + d0,
        ),
{
    let d1 = first_interface(x, d0);
    let d2 = second_interface(x, y, d0);
    let yz = glued_pairs(y, z, d1);
    lemma_right_sizes(x, y, z, d0);
    lemma_paired_is_partner(yz, p, q);
    lemma_boundary_connected(y, z, d1, p, q);
    lemma_right_part_connected(
        x,
        y,
        z,
        d0,
        boundary_node(p, d1, d2),
        boundary_node(q, d1, d2),
    );
}

/// Every edge of the graph of `x` and the composite of `y` and `z` joins
/// two of its nodes, and is a path in the graph of all three.
proof fn lemma_right_small(x: Seq<Pair>, y: Seq<Pair>, z: Seq<Pair>, d0: int, u: int, v: int)
    requires
        triple_ok(x, y, z, d0),
        adjacent(seam_edges(x, glued_pairs(y, z, first_interface(x, d0)), d0), u, v),
    ensures
        0 <= u < 2 * x.len() + last_side(x, y, z, d0),
        0 <= v < 2 * x.len() + last_side(x, y, z, d0),
        connected(
            triple_edges(x, y, z, d0),
            lift(2 * x.len() as int, second_interface(x, y, d0))(u),
            lift(2 * x.len() as int, second_interface(x, y, d0))(v),
        ),
{
    let d1 = first_interface(x, d0);
    let d2 = second_interface(x, y, d0);
    let yz = glued_pairs(y, z, d1);
    let large = triple_edges(x, y, z, d0);
    let small = seam_edges(x, yz, d0);
    let place = lift(2 * x.len() as int, d2);
    lemma_right_sizes(x, y, z, d0);
    let i = choose|i: int| 0 <= i < small.len() && edge_joins(#[trigger] small[i], u, v);
    if i < x.len() {
        assert(x[i].0 < 2 * x.len() && x[i].1 < 2 * x.len());
        assert(edge_joins(large[i], place(u), place(v)));
        lemma_connected_reflexive(large, place(u));
        lemma_connected_step(large, place(u), place(u), place(v));
    } else {
        let j = i - x.len();
        let p = u - d0;
        let q = v - d0;
        assert(yz[j].touches(p) && yz[j].other(p) == q);
        assert(paired(yz, p, q));
        lemma_right_pair(x, y, z, d0, p, q);
        assert(boundary_node(p, d1, d2) + d0 == place(u));
        assert(boundary_node(q, d1, d2) + d0 == place(v));
    }
}

/// Two nodes of the graph of `x` and the composite of `y` and `z` whose
/// places are connected through `y` and `z` are connected.
proof fn lemma_right_contracted(x: Seq<Pair>, y: Seq<Pair>, z: Seq<Pair>, d0: int, u: int, v: int)
    requires
        triple_ok(x, y, z, d0),
        0 <= u < 2 * x.len() + last_side(x, y, z, d0),
        0 <= v < 2 * x.len() + last_side(x, y, z, d0),
        connected(
            seam_edges(y, z, first_interface(x, d0)),
            lift(2 * x.len() as int, second_interface(x, y, d0))(u) - d0,
            lift(2 * x.len() as int, second_interface(x, y, d0))(v) - d0,
        ),
    ensures
        connected(seam_edges(x, glued_pairs(y, z, first_interface(x, d0)), d0), u, v),
{
    let d1 = first_interface(x, d0);
    let d2 = second_interface(x, y, d0);
    let yz = glued_pairs(y, z, d1);
    let small = seam_edges(x, yz, d0);
    let part = seam_edges(y, z, d1);
    let place = lift(2 * x.len() as int, d2);
    lemma_right_sizes(x, y, z, d0);
    if u < d0 {
        // No edge of `y` or `z` touches a node below zero.
        assert forall|k: int| 0 <= k < part.len() implies (#[trigger] part[k]).0 != place(u) - d0
            && part[k].1 != place(u) - d0 by {}
        lemma_isolated(part, place(u) - d0, place(v) - d0);
        lemma_connected_reflexive(small, u);
    } else if v < d0 {
        assert forall|k: int| 0 <= k < part.len() implies (#[trigger] part[k]).0 != place(v) - d0
            && part[k].1 != place(v) - d0 by {}
        lemma_connected_symmetric(part, place(u) - d0, place(v) - d0);
        lemma_isolated(part, place(v) - d0, place(u) - d0);
        lemma_connected_reflexive(small, u);
    } else {
        let p = u - d0;
        let q = v - d0;
        assert(place(u) - d0 == boundary_node(p, d1, d2));
        assert(place(v) - d0 == boundary_node(q, d1, d2));
        lemma_boundary_connected(y, z, d1, p, q);
        if u == v {
            lemma_connected_reflexive(small, u);
        } else {
            let i = choose|i: int|
                0 <= i < yz.len() && #[trigger] yz[i].touches(p) && yz[i].other(p) == q;
            assert(edge_joins(small[x.len() + i], u, v));
            lemma_connected_reflexive(small, u);
            lemma_connected_step(small, u, u, v);
        }
    }
}

/// The graph of `x`, and of the composite of `y` and `z`, is the graph of
/// all three with the paths through `y` and `z` replaced by edges.
pub proof fn lemma_right_bracket_fits(x: Seq<Pair>, y: Seq<Pair>, z: Seq<Pair>, d0: int)
    requires
        triple_ok(x, y, z, d0),
    ensures
        is_glued(y, z, first_interface(x, d0), glued_pairs(y, z, first_interface(x, d0))),
        glued_pairs(y, z, first_interface(x, d0)).len() == first_interface(x, d0) + z.len() - y.len(),
        seam_ok(x, glued_pairs(y, z, first_interface(x, d0)), d0),
        edges_split(
            triple_edges(x, y, z, d0),
            seam_edges(x, glued_pairs(y, z, first_interface(x, d0)), d0),
            seam_edges(y, z, first_interface(x, d0)),
            lift(2 * x.len() as int, second_interface(x, y, d0)),
            d0,
        ),
        part_contracted(
            seam_edges(x, glued_pairs(y, z, first_interface(x, d0)), d0),
            seam_edges(y, z, first_interface(x, d0)),
            lift(2 * x.len() as int, second_interface(x, y, d0)),
            d0,
            below(2 * x.len() + last_side(x, y, z, d0)),
        ),
        edges_embed(
            triple_edges(x, y, z, d0),
            seam_edges(x, glued_pairs(y, z, first_interface(x, d0)), d0),
            seam_edges(y, z, first_interface(x, d0)),
            lift(2 * x.len() as int, second_interface(x, y, d0)),
            d0,
        ),
{
    let d1 = first_interface(x, d0);
    let d2 = second_interface(x, y, d0);
    let d3 = last_side(x, y, z, d0);
    let yz = glued_pairs(y, z, d1);
    let large = triple_edges(x, y, z, d0);
    let small = seam_edges(x, yz, d0);
    let part = seam_edges(y, z, d1);
    let place = lift(2 * x.len() as int, d2);
    let is_node = below(2 * x.len() + d3);
    lemma_right_sizes(x, y, z, d0);
    assert forall|h: int, k: int| #[trigger] adjacent(part, h, k) implies adjacent(
        large,
        h + d0,
        k + d0,
    ) by {
        lemma_right_part(x, y, z, d0, h, k);
    }
    assert forall|a: int, b: int| #[trigger] adjacent(large, a, b) implies adjacent(
        part,
        a - d0,
        b - d0,
    ) || exists|u: int, v: int|
        place(u) == a && place(v) == b && #[trigger] adjacent(small, u, v) by {
        lemma_right_split(x, y, z, d0, a, b);
        if !adjacent(part, a - d0, b - d0) {
            assert(place(a) == a && place(b) == b && adjacent(small, a, b));
        }
    }
    assert forall|u: int, v: int| #[trigger] adjacent(small, u, v) implies is_node(u) && is_node(v)
        && connected(large, place(u), place(v)) by {
        lemma_right_small(x, y, z, d0, u, v);
    }
    assert forall|u: int, v: int|
        is_node(u) && is_node(v) && #[trigger] connected(part, place(u) - d0, place(v) - d0) implies connected(
        small,
        u,
        v,
    ) by {
        lemma_right_contracted(x, y, z, d0, u, v);
    }
}

/// Two nodes of the graph of `x`, and of the composite of `y` and `z`, are
/// connected exactly when their places are connected in the graph of all three.
pub proof fn lemma_right_bracket(x: Seq<Pair>, y: Seq<Pair>, z: Seq<Pair>, d0: int, s: int, b: int)
    requires
        triple_ok(x, y, z, d0),
        0 <= s < 2 * x.len() + last_side(x, y, z, d0),
        0 <= b < 2 * x.len() + last_side(x, y, z, d0),
    ensures
        connected(seam_edges(x, glued_pairs(y, z, first_interface(x, d0)), d0), s, b) <==> connected(
            triple_edges(x, y, z, d0),
            lift(2 * x.len() as int, second_interface(x, y, d0))(s),
            lift(2 * x.len() as int, second_interface(x, y, d0))(b),
        ),
{
    let large = triple_edges(x, y, z, d0);
    let small = seam_edges(x, glued_pairs(y, z, first_interface(x, d0)), d0);
    let part = seam_edges(y, z, first_interface(x, d0));
    let place = lift(2 * x.len() as int, second_interface(x, y, d0));
    let is_node = below(2 * x.len() + last_side(x, y, z, d0));
    lemma_right_bracket_fits(x, y, z, d0);
    if connected(small, s, b) {
        lemma_small_to_large(large, small, part, place, d0, s, b);
    }
    if connected(large, place(s), place(b)) {
        assert(is_node(s) && is_node(b));
        lemma_large_to_small(large, small, part, place, d0, is_node, s, b);
    }
}

/// Two boundary points of the composite of three diagrams are joined by the
/// one bracketing exactly when they are joined by the other.
proof fn lemma_same_mates(x: Seq<Pair>, y: Seq<Pair>, z: Seq<Pair>, d0: int, a: int, b: int)
    requires
        triple_ok(x, y, z, d0),
        0 <= a < d0 + last_side(x, y, z, d0),
        0 <= b < d0 + last_side(x, y, z, d0),
        a != b,
    ensures
        paired(glued_pairs(glued_pairs(x, y, d0), z, d0), a, b) <==> paired(
            glued_pairs(x, glued_pairs(y, z, first_interface(x, d0)), d0),
            a,
            b,
        ),
{
    let d1 = first_interface(x, d0);
    let d2 = second_interface(x, y, d0);
    let xy = glued_pairs(x, y, d0);
    let yz = glued_pairs(y, z, d1);
    lemma_glued_exists(x, y, d0);
    lemma_right_sizes(x, y, z, d0);
    assert(seam_ok(xy, z, d0));
    lemma_glued_exists(xy, z, d0);
    lemma_glued_exists(x, yz, d0);
    lemma_boundary_mate(xy, z, d0, a);
    lemma_boundary_mate(x, yz, d0, a);
    let na = boundary_node(a, d0, d2);
    let nb = boundary_node(b, d0, d2);
    lemma_left_bracket(x, y, z, d0, na, nb);
    let ma = boundary_node(a, d0, d1);
    let mb = boundary_node(b, d0, d1);
    lemma_right_bracket(x, y, z, d0, ma, mb);
    assert(lift(d0, d1)(na) == lift(2 * x.len() as int, d2)(ma));
    assert(lift(d0, d1)(nb) == lift(2 * x.len() as int, d2)(mb));
}

/// Gluing is associative in the matching: both ways of bracketing three
/// diagrams give the same pairs.
pub proof fn lemma_glued_pairs_associative(x: Seq<Pair>, y: Seq<Pair>, z: Seq<Pair>, d0: int)
    requires
        triple_ok(x, y, z, d0),
    ensures
        glued_pairs(glued_pairs(x, y, d0), z, d0) == glued_pairs(
            x,
            glued_pairs(y, z, first_interface(x, d0)),
            d0,
        ),
{
    let d1 = first_interface(x, d0);
    let xy = glued_pairs(x, y, d0);
    let yz = glued_pairs(y, z, d1);
    lemma_glued_exists(x, y, d0);
    lemma_right_sizes(x, y, z, d0);
    assert(seam_ok(xy, z, d0));
    lemma_glued_exists(xy, z, d0);
    lemma_glued_exists(x, yz, d0);
    let first = glued_pairs(xy, z, d0);
    let second = glued_pairs(x, yz, d0);
    assert forall|a: int, b: int| #[trigger] paired(first, a, b) <==> paired(second, a, b) by {
        if paired(first, a, b) {
            lemma_paired_is_partner(first, a, b);
            lemma_same_mates(x, y, z, d0, a, b);
        }
        if paired(second, a, b) {
            lemma_paired_is_partner(second, a, b);
            lemma_same_mates(x, y, z, d0, a, b);
        }
    }
    lemma_canonical_unique(first, second);
}

/// The boundary nodes of the graph of two glued matchings.
pub open spec fn seam_shore(left: Seq<Pair>, right: Seq<Pair>, d: int) -> spec_fn(int) -> bool {
    |b: int| is_boundary(left, right, d, b)
}

/// The boundary nodes of the graph of all three: the domain of `x` and the
/// codomain of `z`.
pub open spec fn triple_shore(x: Seq<Pair>, y: Seq<Pair>, z: Seq<Pair>, d0: int) -> spec_fn(
    int,
) -> bool {
    |w: int| (0 <= w < d0) || (2 * x.len() + second_interface(x, y, d0) <= w < 2 * x.len() + 2
        * z.len())
}

/// The least nodes of the closed loops of the graph of all three.
pub open spec fn triple_loops(x: Seq<Pair>, y: Seq<Pair>, z: Seq<Pair>, d0: int) -> Set<int> {
    closed_leaders(
        triple_nodes(x, z),
        triple_edges(x, y, z, d0),
        triple_shore(x, y, z, d0),
    )
}

/// The closed loops of two glued matchings are the components without a boundary node.
proof fn lemma_loops_are_closed(left: Seq<Pair>, right: Seq<Pair>, d: int)
    requires
        seam_ok(left, right, d),
        seam_nodes(left, right, d) <= usize::MAX,
    ensures
        closed_loops(left, right, d) == closed_leaders(
            seam_nodes(left, right, d),
            seam_edges(left, right, d),
            seam_shore(left, right, d),
        ).len(),
{
    lemma_loops_counted(left, right, d);
    let edges = seam_edges(left, right, d);
    let shore = seam_shore(left, right, d);
    let a = loop_leaders(left, right, d);
    let b = closed_leaders(seam_nodes(left, right, d), edges, shore);
    assert forall|v: int| a.contains(v) implies b.contains(v) by {
        assert forall|w: int| shore(w) implies !#[trigger] connected(edges, v, w) by {
            if connected(edges, v, w) {
                assert(is_boundary(left, right, d, w) && connected(edges, v, w));
            }
        }
    }
    assert forall|v: int| b.contains(v) implies a.contains(v) by {
        if touches_boundary(left, right, d, v) {
            let w = choose|w: int| is_boundary(left, right, d, w) && #[trigger] connected(edges, v, w);
            assert(shore(w));
        }
    }
    assert(a =~= b);
}

/// The sizes and the boundaries fit where `x` and `y` are glued first.
proof fn lemma_left_shores(x: Seq<Pair>, y: Seq<Pair>, z: Seq<Pair>, d0: int)
    requires
        triple_ok(x, y, z, d0),
    ensures
        shores_fit(
            seam_edges(x, y, d0),
            lift(d0, first_interface(x, d0)),
            0,
            d0 + 2 * z.len(),
            d0 + 2 * y.len(),
            triple_nodes(x, z),
            seam_shore(glued_pairs(x, y, d0), z, d0),
            seam_shore(x, y, d0),
            triple_shore(x, y, z, d0),
        ),
{
    let d1 = first_interface(x, d0);
    let d2 = second_interface(x, y, d0);
    let xy = glued_pairs(x, y, d0);
    let part = seam_edges(x, y, d0);
    let place = lift(d0, d1);
    let small_nodes = d0 + 2 * z.len();
    let part_nodes = d0 + 2 * y.len();
    let large_nodes = 2 * x.len() + 2 * z.len();
    let small_shore = seam_shore(xy, z, d0);
    let rim = seam_shore(x, y, d0);
    let large_shore = triple_shore(x, y, z, d0);
    assert(seam_ok(x, y, d0));
    lemma_glued_exists(x, y, d0);
    assert forall|w: int| 0 <= w < large_nodes implies #[trigger] is_place(place, small_nodes, w) || (0
        <= w - 0 < part_nodes && !rim(w - 0)) by {
        if w < d0 {
            assert(place(w) == w);
        } else if w >= d0 + d1 {
            assert(place(w - d1) == w);
        }
    }
    assert forall|h: int| #[trigger] rim(h) implies exists|u: int|
        0 <= u < small_nodes && #[trigger] place(u) == h + 0 by {
        if h < d0 {
            assert(place(h) == h);
        } else {
            assert(place(h - d1) == h);
        }
    }
    assert forall|w: int| #[trigger] large_shore(w) implies exists|u: int|
        0 <= u < small_nodes && small_shore(u) && #[trigger] place(u) == w by {
        if w < d0 {
            assert(small_shore(w) && place(w) == w);
        } else {
            assert(small_shore(w - d1) && place(w - d1) == w);
        }
    }
    assert forall|k: int| 0 <= k < part.len() implies 0 <= (#[trigger] part[k]).0 < part_nodes && 0
        <= part[k].1 < part_nodes by {
        if k < x.len() {
            assert(x[k].0 < 2 * x.len() && x[k].1 < 2 * x.len());
        } else {
            assert(y[k - x.len()].0 < 2 * y.len() && y[k - x.len()].1 < 2 * y.len());
        }
    }
}

/// The sizes and the boundaries fit where `y` and `z` are glued first.
proof fn lemma_right_shores(x: Seq<Pair>, y: Seq<Pair>, z: Seq<Pair>, d0: int)
    requires
        triple_ok(x, y, z, d0),
    ensures
        shores_fit(
            seam_edges(y, z, first_interface(x, d0)),
            lift(2 * x.len() as int, second_interface(x, y, d0)),
            d0,
            2 * x.len() + last_side(x, y, z, d0),
            first_interface(x, d0) + 2 * z.len(),
            triple_nodes(x, z),
            seam_shore(x, glued_pairs(y, z, first_interface(x, d0)), d0),
            seam_shore(y, z, first_interface(x, d0)),
            triple_shore(x, y, z, d0),
        ),
{
    let d1 = first_interface(x, d0);
    let d2 = second_interface(x, y, d0);
    let d3 = last_side(x, y, z, d0);
    let yz = glued_pairs(y, z, d1);
    let part = seam_edges(y, z, d1);
    let place = lift(2 * x.len() as int, d2);
    let small_nodes = 2 * x.len() + d3;
    let part_nodes = d1 + 2 * z.len();
    let large_nodes = 2 * x.len() + 2 * z.len();
    let small_shore = seam_shore(x, yz, d0);
    let rim = seam_shore(y, z, d1);
    let large_shore = triple_shore(x, y, z, d0);
    lemma_right_sizes(x, y, z, d0);
    assert forall|w: int| 0 <= w < large_nodes implies #[trigger] is_place(place, small_nodes, w) || (0
        <= w - d0 < part_nodes && !rim(w - d0)) by {
        if w < d0 + d1 {
            assert(place(w) == w);
        } else if w >= d0 + d1 + d2 {
            assert(place(w - d2) == w);
        }
    }
    assert forall|h: int| #[trigger] rim(h) implies exists|u: int|
        0 <= u < small_nodes && #[trigger] place(u) == h + d0 by {
        if h < d1 {
            assert(place(h + d0) == h + d0);
        } else {
            assert(place(h + d0 - d2) == h + d0);
        }
    }
    assert forall|w: int| #[trigger] large_shore(w) implies exists|u: int|
        0 <= u < small_nodes && small_shore(u) && #[trigger] place(u) == w by {
        if w < d0 {
            assert(small_shore(w) && place(w) == w);
        } else {
            assert(small_shore(w - d2) && place(w - d2) == w);
        }
    }
    assert forall|k: int| 0 <= k < part.len() implies 0 <= (#[trigger] part[k]).0 < part_nodes && 0
        <= part[k].1 < part_nodes by {
        if k < y.len() {
            assert(y[k].0 < 2 * y.len() && y[k].1 < 2 * y.len());
        } else {
            assert(z[k - y.len()].0 < 2 * z.len() && z[k - y.len()].1 < 2 * z.len());
        }
    }
}

/// Both ways of bracketing three diagrams close the loops of the graph of
/// all three, each exactly once.
pub proof fn lemma_loops_of_three(x: Seq<Pair>, y: Seq<Pair>, z: Seq<Pair>, d0: int)
    requires
        triple_ok(x, y, z, d0),
    ensures
        closed_loops(x, y, d0) + closed_loops(glued_pairs(x, y, d0), z, d0) == triple_loops(
            x,
            y,
            z,
            d0,
        ).len(),
        closed_loops(y, z, first_interface(x, d0)) + closed_loops(
            x,
            glued_pairs(y, z, first_interface(x, d0)),
            d0,
        ) == triple_loops(x, y, z, d0).len(),
{
    let d1 = first_interface(x, d0);
    let d2 = second_interface(x, y, d0);
    let d3 = last_side(x, y, z, d0);
    let xy = glued_pairs(x, y, d0);
    let yz = glued_pairs(y, z, d1);
    let large = triple_edges(x, y, z, d0);
    lemma_left_bracket_fits(x, y, z, d0);
    lemma_right_bracket_fits(x, y, z, d0);
    lemma_right_sizes(x, y, z, d0);
    lemma_left_shores(x, y, z, d0);
    lemma_right_shores(x, y, z, d0);
    lemma_loops_are_closed(x, y, d0);
    lemma_loops_are_closed(xy, z, d0);
    lemma_loops_are_closed(y, z, d1);
    lemma_loops_are_closed(x, yz, d0);
    lemma_closed_count(
        large,
        seam_edges(xy, z, d0),
        seam_edges(x, y, d0),
        lift(d0, d1),
        0,
        d0 + 2 * z.len(),
        d0 + 2 * y.len(),
        triple_nodes(x, z),
        seam_shore(xy, z, d0),
        seam_shore(x, y, d0),
        triple_shore(x, y, z, d0),
    );
    lemma_closed_count(
        large,
        seam_edges(x, yz, d0),
        seam_edges(y, z, d1),
        lift(2 * x.len() as int, d2),
        d0,
        2 * x.len() + d3,
        d1 + 2 * z.len(),
        triple_nodes(x, z),
        seam_shore(x, yz, d0),
        seam_shore(y, z, d1),
        triple_shore(x, y, z, d0),
    );
}

/// Gluing is associative in the loops: both ways of bracketing three
/// diagrams close the same number of loops.
pub proof fn lemma_closed_loops_associative(x: Seq<Pair>, y: Seq<Pair>, z: Seq<Pair>, d0: int)
    requires
        triple_ok(x, y, z, d0),
    ensures
        closed_loops(x, y, d0) + closed_loops(glued_pairs(x, y, d0), z, d0) == closed_loops(
            y,
            z,
            first_interface(x, d0),
        ) + closed_loops(x, glued_pairs(y, z, first_interface(x, d0)), d0),
{
    lemma_loops_of_three(x, y, z, d0);
}

} // verus!
