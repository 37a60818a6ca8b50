//! Two matchings glued along a shared interface: the graph of their pairs
//! is a union of paths and cycles, and every path joins two boundary points.
//!
//! The nodes are numbered as follows. The left matching has the nodes
//! `0..2*left.len()`, of which the first `d` are its domain. The right
//! matching has the nodes from `d` on, so that its domain lies on the
//! codomain of the left one. The boundary is what only one of the two has.

use vstd::prelude::*;
use vstd::relations::injective_on;
use vstd::set_lib::*;
use crate::graph::{
    adjacent, connected, edge_joins, lemma_connected_reflexive, lemma_connected_step,
    lemma_connected_symmetric, walk_between,
};
use crate::matching::{is_matching, lemma_partner_involution, lemma_partner_unique, partner};
use crate::pair::Pair;

verus! {

/// The two matchings fit: the codomain of the left lies within the right.
pub open spec fn seam_ok(left: Seq<Pair>, right: Seq<Pair>, d: int) -> bool {
    &&& is_matching(left)
    &&& is_matching(right)
    &&& 0 <= d <= 2 * left.len()
    &&& 2 * left.len() - d <= 2 * right.len()
}

/// The number of nodes of the glued graph.
pub open spec fn seam_nodes(left: Seq<Pair>, right: Seq<Pair>, d: int) -> int {
    d + 2 * right.len()
}

/// The edges of the glued graph: the pairs of the left matching, then the
/// pairs of the right matching moved up by `d`.
pub open spec fn seam_edges(left: Seq<Pair>, right: Seq<Pair>, d: int) -> Seq<(int, int)> {
    Seq::new(
        left.len() + right.len(),
        |k: int|
            if k < left.len() {
                (left[k].0 as int, left[k].1 as int)
            } else {
                (right[k - left.len()].0 + d, right[k - left.len()].1 + d)
            },
    )
}

/// The node belongs to one matching only.
pub open spec fn is_boundary(left: Seq<Pair>, right: Seq<Pair>, d: int, v: int) -> bool {
    (0 <= v < d) || (2 * left.len() <= v < d + 2 * right.len())
}

/// The node belongs to both matchings.
pub open spec fn is_interior(left: Seq<Pair>, right: Seq<Pair>, d: int, v: int) -> bool {
    d <= v < 2 * left.len()
}

/// The node belongs to the left matching (`side` false) or the right one (`side` true).
pub open spec fn on_side(left: Seq<Pair>, right: Seq<Pair>, d: int, v: int, side: bool) -> bool {
    if side {
        d <= v < d + 2 * right.len()
    } else {
        0 <= v < 2 * left.len()
    }
}

/// The node that the matching of `side` joins to `v`.
pub open spec fn step(left: Seq<Pair>, right: Seq<Pair>, d: int, v: int, side: bool) -> int {
    if side {
        partner(right, v - d) + d
    } else {
        partner(left, v)
    }
}

/// The walk that starts at the boundary node `b` and takes an edge of the
/// left and of the right matching in turn: the node reached after `k` edges,
/// and the side whose edge comes next.
pub open spec fn trail(left: Seq<Pair>, right: Seq<Pair>, d: int, b: int, k: nat) -> (int, bool)
    decreases k,
{
    if k == 0 {
        (b, b >= 2 * left.len())
    } else {
        let prev = trail(left, right, d, b, (k - 1) as nat);
        (step(left, right, d, prev.0, prev.1), !prev.1)
    }
}

/// The nodes that the trail reaches after `1` to `k` edges are interior.
pub open spec fn inner(left: Seq<Pair>, right: Seq<Pair>, d: int, b: int, k: int) -> bool {
    forall|j: nat| 1 <= j <= k ==> is_interior(left, right, d, (#[trigger] trail(left, right, d, b, j)).0)
}

/// The trail from `b` leaves the interior after `k` edges, and not before.
pub open spec fn exits_at(left: Seq<Pair>, right: Seq<Pair>, d: int, b: int, k: nat) -> bool {
    &&& k >= 1
    &&& inner(left, right, d, b, k - 1)
    &&& !is_interior(left, right, d, trail(left, right, d, b, k).0)
}

/// The number of edges after which the trail from `b` is back on the boundary.
pub open spec fn exit_index(left: Seq<Pair>, right: Seq<Pair>, d: int, b: int) -> nat {
    choose|k: nat| exits_at(left, right, d, b, k)
}

/// The boundary node at which the trail from `b` ends.
pub open spec fn mate(left: Seq<Pair>, right: Seq<Pair>, d: int, b: int) -> int {
    trail(left, right, d, b, exit_index(left, right, d, b)).0
}

/// A step stays on its side, moves, and is undone by the same step.
pub proof fn lemma_step_ok(left: Seq<Pair>, right: Seq<Pair>, d: int, v: int, side: bool)
    requires
        seam_ok(left, right, d),
        on_side(left, right, d, v, side),
    ensures
        on_side(left, right, d, step(left, right, d, v, side), side),
        step(left, right, d, v, side) != v,
        step(left, right, d, step(left, right, d, v, side), side) == v,
        adjacent(seam_edges(left, right, d), v, step(left, right, d, v, side)),
{
    let edges = seam_edges(left, right, d);
    if side {
        lemma_partner_involution(right, v - d);
        let i = choose|i: int| 0 <= i < right.len() && #[trigger] right[i].touches(v - d);
        lemma_partner_unique(right, i, v - d);
        let k = left.len() + i;
        assert(edge_joins(edges[k], v, step(left, right, d, v, side)));
    } else {
        lemma_partner_involution(left, v);
        let i = choose|i: int| 0 <= i < left.len() && #[trigger] left[i].touches(v);
        lemma_partner_unique(left, i, v);
        assert(edge_joins(edges[i], v, step(left, right, d, v, side)));
    }
}

/// Every edge is a step of one of the two sides.
pub proof fn lemma_adjacent_is_step(left: Seq<Pair>, right: Seq<Pair>, d: int, a: int, b: int)
    requires
        seam_ok(left, right, d),
        adjacent(seam_edges(left, right, d), a, b),
    ensures
        (on_side(left, right, d, a, false) && b == step(left, right, d, a, false)) || (on_side(
            left,
            right,
            d,
            a,
            true,
        ) && b == step(left, right, d, a, true)),
{
    let edges = seam_edges(left, right, d);
    let k = choose|k: int| 0 <= k < edges.len() && edge_joins(#[trigger] edges[k], a, b);
    if k < left.len() {
        assert(left[k].touches(a));
        lemma_partner_unique(left, k, a);
    } else {
        let i = k - left.len();
        assert(right[i].touches(a - d));
        lemma_partner_unique(right, i, a - d);
    }
}

/// While the trail is in the interior, the node it has reached lies on the
/// side whose edge comes next, and the next node lies on that side too.
pub proof fn lemma_trail_valid(left: Seq<Pair>, right: Seq<Pair>, d: int, b: int, k: nat)
    requires
        seam_ok(left, right, d),
        is_boundary(left, right, d, b),
        inner(left, right, d, b, k as int),
    ensures
        on_side(left, right, d, trail(left, right, d, b, k).0, trail(left, right, d, b, k).1),
        on_side(
            left,
            right,
            d,
            trail(left, right, d, b, k + 1).0,
            trail(left, right, d, b, k).1,
        ),
        trail(left, right, d, b, k + 1).1 == !trail(left, right, d, b, k).1,
        trail(left, right, d, b, k + 1).0 != trail(left, right, d, b, k).0,
        step(left, right, d, trail(left, right, d, b, k + 1).0, trail(left, right, d, b, k).1)
            == trail(left, right, d, b, k).0,
        0 <= trail(left, right, d, b, k + 1).0 < seam_nodes(left, right, d),
{
    let cur = trail(left, right, d, b, k);
    if k > 0 {
        assert(is_interior(left, right, d, cur.0));
    }
    lemma_step_ok(left, right, d, cur.0, cur.1);
}

/// The trail does not come to one node twice with the same side next.
pub proof fn lemma_no_repeat(left: Seq<Pair>, right: Seq<Pair>, d: int, b: int, i: nat, j: nat)
    requires
        seam_ok(left, right, d),
        is_boundary(left, right, d, b),
        i < j,
        inner(left, right, d, b, j as int),
    ensures
        trail(left, right, d, b, i) != trail(left, right, d, b, j),
    decreases i,
{
    if i == 0 {
        assert(is_interior(left, right, d, trail(left, right, d, b, j).0));
    } else {
        let i1 = (i - 1) as nat;
        let j1 = (j - 1) as nat;
        assert(inner(left, right, d, b, i1 as int));
        assert(inner(left, right, d, b, j1 as int));
        lemma_trail_valid(left, right, d, b, i1);
        lemma_trail_valid(left, right, d, b, j1);
        lemma_no_repeat(left, right, d, b, i1, j1);
        if trail(left, right, d, b, i) == trail(left, right, d, b, j) {
            assert(trail(left, right, d, b, i1).1 == trail(left, right, d, b, j1).1);
            assert(trail(left, right, d, b, i1).0 == trail(left, right, d, b, j1).0);
        }
    }
}

/// Among more values than there are places, two are the same.
pub proof fn lemma_pigeonhole(f: spec_fn(int) -> int, many: int, places: int)
    requires
        0 <= places < many,
        forall|i: int| 0 <= i < many ==> 0 <= #[trigger] f(i) < places,
    ensures
        exists|i: int, j: int| 0 <= i < j < many && #[trigger] f(i) == #[trigger] f(j),
{
    if !(exists|i: int, j: int| 0 <= i < j < many && #[trigger] f(i) == #[trigger] f(j)) {
        let from = set_int_range(0, many);
        let to = set_int_range(0, places);
        lemma_int_range(0, many);
        lemma_int_range(0, places);
        assert(injective_on(f, from)) by {
            assert forall|x1: int, x2: int|
                from.contains(x1) && from.contains(x2) && #[trigger] f(x1) == #[trigger] f(
                    x2,
                ) implies x1 == x2 by {
                if x1 < x2 {
                    assert(f(x1) != f(x2));
                } else if x2 < x1 {
                    assert(f(x2) != f(x1));
                }
            }
        }
        let image = from.map(f);
        lemma_map_size(from, image, f);
        assert(image.subset_of(to));
        lemma_len_subset(image, to);
    }
}

/// The trail cannot stay in the interior for more edges than twice the
/// number of interior nodes.
pub proof fn lemma_trail_leaves(left: Seq<Pair>, right: Seq<Pair>, d: int, b: int)
    requires
        seam_ok(left, right, d),
        is_boundary(left, right, d, b),
    ensures
        !inner(left, right, d, b, 2 * (2 * left.len() - d) + 1),
{
    let width = 2 * left.len() - d;
    let many = 2 * width + 1;
    if inner(left, right, d, b, many) {
        let f = |i: int|
            {
                let state = trail(left, right, d, b, (i + 1) as nat);
                2 * (state.0 - d) + if state.1 {
                    1int
                } else {
                    0int
                }
            };
        assert forall|i: int| 0 <= i < many implies 0 <= #[trigger] f(i) < 2 * width by {
            assert(is_interior(left, right, d, trail(left, right, d, b, (i + 1) as nat).0));
        }
        lemma_pigeonhole(f, many, 2 * width);
        let (i, j) = choose|i: int, j: int| 0 <= i < j < many && #[trigger] f(i) == #[trigger] f(j);
        let si = trail(left, right, d, b, (i + 1) as nat);
        let sj = trail(left, right, d, b, (j + 1) as nat);
        assert(si.1 == sj.1);
        assert(si.0 == sj.0);
        assert(inner(left, right, d, b, j + 1));
        lemma_no_repeat(left, right, d, b, (i + 1) as nat, (j + 1) as nat);
    }
}

/// The trail leaves the interior: searched from `k` edges on.
proof fn lemma_exit_search(left: Seq<Pair>, right: Seq<Pair>, d: int, b: int, k: nat)
    requires
        seam_ok(left, right, d),
        is_boundary(left, right, d, b),
        k >= 1,
        inner(left, right, d, b, k - 1),
        k <= 2 * (2 * left.len() - d) + 1,
    ensures
        exists|e: nat| exits_at(left, right, d, b, e),
    decreases 2 * (2 * left.len() - d) + 1 - k,
{
    if !is_interior(left, right, d, trail(left, right, d, b, k).0) {
        assert(exits_at(left, right, d, b, k));
    } else {
        assert(inner(left, right, d, b, k as int));
        lemma_trail_leaves(left, right, d, b);
        if k < 2 * (2 * left.len() - d) + 1 {
            lemma_exit_search(left, right, d, b, k + 1);
        }
    }
}

/// The trail from a boundary node leaves the interior, at a boundary node.
pub proof fn lemma_exit(left: Seq<Pair>, right: Seq<Pair>, d: int, b: int)
    requires
        seam_ok(left, right, d),
        is_boundary(left, right, d, b),
    ensures
        exits_at(left, right, d, b, exit_index(left, right, d, b)),
        is_boundary(left, right, d, mate(left, right, d, b)),
{
    assert(inner(left, right, d, b, 0));
    lemma_exit_search(left, right, d, b, 1);
    let e = exit_index(left, right, d, b);
    lemma_trail_valid(left, right, d, b, (e - 1) as nat);
}

/// Every node on the trail, up to its end, is connected to its start.
pub proof fn lemma_trail_connected(left: Seq<Pair>, right: Seq<Pair>, d: int, b: int, k: nat)
    requires
        seam_ok(left, right, d),
        is_boundary(left, right, d, b),
        inner(left, right, d, b, k - 1),
    ensures
        connected(seam_edges(left, right, d), b, trail(left, right, d, b, k).0),
    decreases k,
{
    let edges = seam_edges(left, right, d);
    if k == 0 {
        lemma_connected_reflexive(edges, b);
    } else {
        let k1 = (k - 1) as nat;
        assert(inner(left, right, d, b, k1 - 1));
        lemma_trail_connected(left, right, d, b, k1);
        lemma_trail_valid(left, right, d, b, k1);
        let cur = trail(left, right, d, b, k1);
        lemma_step_ok(left, right, d, cur.0, cur.1);
        lemma_connected_step(edges, b, cur.0, trail(left, right, d, b, k).0);
    }
}

/// A neighbour of a node of the trail is a node of the trail.
proof fn lemma_trail_closed(left: Seq<Pair>, right: Seq<Pair>, d: int, b: int, j: nat, x: int)
    requires
        seam_ok(left, right, d),
        is_boundary(left, right, d, b),
        exits_at(left, right, d, b, exit_index(left, right, d, b)),
        j <= exit_index(left, right, d, b),
        adjacent(seam_edges(left, right, d), trail(left, right, d, b, j).0, x),
    ensures
        exists|i: nat|
            i <= exit_index(left, right, d, b) && (#[trigger] trail(left, right, d, b, i)).0 == x,
{
    let e = exit_index(left, right, d, b);
    let cur = trail(left, right, d, b, j);
    lemma_adjacent_is_step(left, right, d, cur.0, x);
    let side = if on_side(left, right, d, cur.0, false) && x == step(left, right, d, cur.0, false) {
        false
    } else {
        true
    };
    assert(on_side(left, right, d, cur.0, side) && x == step(left, right, d, cur.0, side));
    if j < e {
        assert(inner(left, right, d, b, j as int));
    }
    if j > 0 {
        let j1 = (j - 1) as nat;
        assert(inner(left, right, d, b, j1 as int));
        lemma_trail_valid(left, right, d, b, j1);
    }
    if side == cur.1 {
        if j < e {
            assert(trail(left, right, d, b, j + 1).0 == x);
        } else {
            // The end of the trail is a boundary node: it lies on the side
            // by which it was reached, and on no other.
            lemma_trail_valid(left, right, d, b, (e - 1) as nat);
            assert(false);
        }
    } else {
        if j > 0 {
            assert(trail(left, right, d, b, (j - 1) as nat).0 == x);
        } else {
            assert(false);
        }
    }
}

/// Every node of a walk that starts at `b` is a node of the trail from `b`.
proof fn lemma_walk_on_trail(
    left: Seq<Pair>,
    right: Seq<Pair>,
    d: int,
    b: int,
    walk: Seq<int>,
    at: int,
)
    requires
        seam_ok(left, right, d),
        is_boundary(left, right, d, b),
        exits_at(left, right, d, b, exit_index(left, right, d, b)),
        walk_between(seam_edges(left, right, d), walk, b, walk.last()),
        0 <= at < walk.len(),
    ensures
        exists|i: nat|
            i <= exit_index(left, right, d, b) && (#[trigger] trail(left, right, d, b, i)).0
                == walk[at],
    decreases at,
{
    if at == 0 {
        assert(trail(left, right, d, b, 0).0 == walk[0]);
    } else {
        lemma_walk_on_trail(left, right, d, b, walk, at - 1);
        let j = choose|i: nat|
            i <= exit_index(left, right, d, b) && (#[trigger] trail(left, right, d, b, i)).0
                == walk[at - 1];
        assert(adjacent(seam_edges(left, right, d), walk[at - 1], walk[at - 1 + 1]));
        lemma_trail_closed(left, right, d, b, j, walk[at]);
    }
}

/// If the trail ended where it began, it would meet itself half way.
proof fn lemma_mirror(left: Seq<Pair>, right: Seq<Pair>, d: int, b: int, j: nat)
    requires
        seam_ok(left, right, d),
        is_boundary(left, right, d, b),
        exits_at(left, right, d, b, exit_index(left, right, d, b)),
        mate(left, right, d, b) == b,
        j <= exit_index(left, right, d, b),
    ensures
        trail(left, right, d, b, (exit_index(left, right, d, b) - j) as nat).0 == trail(
            left,
            right,
            d,
            b,
            j,
        ).0,
        trail(left, right, d, b, (exit_index(left, right, d, b) - j) as nat).1 == !trail(
            left,
            right,
            d,
            b,
            j,
        ).1,
    decreases j,
{
    let e = exit_index(left, right, d, b);
    if j == 0 {
        lemma_trail_valid(left, right, d, b, (e - 1) as nat);
    } else {
        let j1 = (j - 1) as nat;
        lemma_mirror(left, right, d, b, j1);
        let back = (e - j) as nat;
        assert(inner(left, right, d, b, back as int));
        lemma_trail_valid(left, right, d, b, back);
        assert(inner(left, right, d, b, j1 as int));
        lemma_trail_valid(left, right, d, b, j1);
        assert((back + 1) as nat == (e - j1) as nat);
    }
}

/// The trail from a boundary node ends at another boundary node.
pub proof fn lemma_mate_differs(left: Seq<Pair>, right: Seq<Pair>, d: int, b: int)
    requires
        seam_ok(left, right, d),
        is_boundary(left, right, d, b),
    ensures
        mate(left, right, d, b) != b,
{
    lemma_exit(left, right, d, b);
    let e = exit_index(left, right, d, b);
    if mate(left, right, d, b) == b {
        let half = (e / 2) as nat;
        lemma_mirror(left, right, d, b, half);
        if e % 2 == 0 {
            assert((e - half) as nat == half);
        } else {
            assert((e - half) as nat == half + 1);
            assert(inner(left, right, d, b, half as int));
            lemma_trail_valid(left, right, d, b, half);
        }
    }
}

/// Every boundary node is connected to exactly one other boundary node, its
/// mate, and the mate of the mate is the node itself.
pub proof fn lemma_mate(left: Seq<Pair>, right: Seq<Pair>, d: int, b: int)
    requires
        seam_ok(left, right, d),
        is_boundary(left, right, d, b),
    ensures
        is_boundary(left, right, d, mate(left, right, d, b)),
        mate(left, right, d, b) != b,
        connected(seam_edges(left, right, d), b, mate(left, right, d, b)),
        forall|x: int|
            is_boundary(left, right, d, x) && #[trigger] connected(
                seam_edges(left, right, d),
                b,
                x,
            ) ==> x == b || x == mate(left, right, d, b),
{
    let edges = seam_edges(left, right, d);
    lemma_exit(left, right, d, b);
    lemma_mate_differs(left, right, d, b);
    let e = exit_index(left, right, d, b);
    lemma_trail_connected(left, right, d, b, e);
    assert forall|x: int| is_boundary(left, right, d, x) && #[trigger] connected(edges, b, x) implies x
        == b || x == mate(left, right, d, b) by {
        let walk = choose|walk: Seq<int>| #[trigger] walk_between(edges, walk, b, x);
        lemma_walk_on_trail(left, right, d, b, walk, walk.len() - 1);
        let i = choose|i: nat| i <= e && (#[trigger] trail(left, right, d, b, i)).0 == x;
        if 0 < i < e {
            assert(is_interior(left, right, d, trail(left, right, d, b, i).0));
        }
    }
}

/// The mate of the mate of a boundary node is the node itself.
pub proof fn lemma_mate_involution(left: Seq<Pair>, right: Seq<Pair>, d: int, b: int)
    requires
        seam_ok(left, right, d),
        is_boundary(left, right, d, b),
    ensures
        mate(left, right, d, mate(left, right, d, b)) == b,
{
    let m = mate(left, right, d, b);
    lemma_mate(left, right, d, b);
    lemma_mate(left, right, d, m);
    lemma_connected_symmetric(seam_edges(left, right, d), b, m);
}

} // verus!
