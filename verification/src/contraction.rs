//! A graph in which the paths through a part have been replaced by edges
//! keeps its connectivity.
//!
//! The large graph has the edges `large`. A part of it, with the edges
//! `part`, has its nodes moved up by `offset` in the large graph. The small
//! graph, with the edges `small`, has its nodes sent into the large graph by
//! `place`. Every edge of the large graph is an edge of the part or an edge
//! of the small graph, and every edge of the small graph is an edge of the
//! large graph or stands for a path through the part.

use vstd::prelude::*;
use vstd::relations::injective_on;
use vstd::set_lib::*;
use crate::graph::{
    adjacent, component_leaders, connected, edge_joins, is_least_of_component, least_of,
    lemma_connected_reflexive, lemma_connected_step, lemma_connected_symmetric,
    lemma_connected_transitive, lemma_least_of, lemma_least_unique, walk_between,
};

verus! {

/// Every edge of the large graph is an edge of the part, moved up, or the
/// image of an edge of the small graph.
pub open spec fn edges_split(
    large: Seq<(int, int)>,
    small: Seq<(int, int)>,
    part: Seq<(int, int)>,
    place: spec_fn(int) -> int,
    offset: int,
) -> bool {
    forall|a: int, b: int| #[trigger]
        adjacent(large, a, b) ==> adjacent(part, a - offset, b - offset) || exists|u: int, v: int|
            place(u) == a && place(v) == b && #[trigger] adjacent(small, u, v)
}

/// Two nodes of the small graph that a path through the part connects are
/// connected in the small graph, and no two nodes have one place.
pub open spec fn part_contracted(
    small: Seq<(int, int)>,
    part: Seq<(int, int)>,
    place: spec_fn(int) -> int,
    offset: int,
    is_node: spec_fn(int) -> bool,
) -> bool {
    &&& forall|u: int, v: int|
        is_node(u) && is_node(v) && #[trigger] connected(part, place(u) - offset, place(v) - offset)
            ==> connected(small, u, v)
    &&& forall|u: int, v: int| is_node(u) && is_node(v) && #[trigger] place(u) == #[trigger] place(v) ==> u == v
    &&& forall|u: int, v: int| #[trigger] adjacent(small, u, v) ==> is_node(u) && is_node(v)
}

/// Every edge of the small graph and of the part is a path in the large graph.
pub open spec fn edges_embed(
    large: Seq<(int, int)>,
    small: Seq<(int, int)>,
    part: Seq<(int, int)>,
    place: spec_fn(int) -> int,
    offset: int,
) -> bool {
    &&& forall|u: int, v: int| #[trigger] adjacent(small, u, v) ==> connected(large, place(u), place(v))
    &&& forall|h: int, k: int| #[trigger] adjacent(part, h, k) ==> adjacent(large, h + offset, k + offset)
}

/// A walk whose edges become paths under `place` becomes a path.
pub proof fn lemma_walk_image(
    from: Seq<(int, int)>,
    to: Seq<(int, int)>,
    place: spec_fn(int) -> int,
    walk: Seq<int>,
    at: int,
)
    requires
        forall|u: int, v: int| #[trigger] adjacent(from, u, v) ==> connected(to, place(u), place(v)),
        walk_between(from, walk, walk.first(), walk.last()),
        0 <= at < walk.len(),
    ensures
        connected(to, place(walk[0]), place(walk[at])),
    decreases at,
{
    if at == 0 {
        lemma_connected_reflexive(to, place(walk[0]));
    } else {
        lemma_walk_image(from, to, place, walk, at - 1);
        assert(adjacent(from, walk[at - 1], walk[at - 1 + 1]));
        lemma_connected_transitive(to, place(walk[0]), place(walk[at - 1]), place(walk[at]));
    }
}

/// Nodes that are connected in the small graph are connected in the large one.
pub proof fn lemma_small_to_large(
    large: Seq<(int, int)>,
    small: Seq<(int, int)>,
    part: Seq<(int, int)>,
    place: spec_fn(int) -> int,
    offset: int,
    s: int,
    b: int,
)
    requires
        edges_embed(large, small, part, place, offset),
        connected(small, s, b),
    ensures
        connected(large, place(s), place(b)),
{
    let walk = choose|walk: Seq<int>| #[trigger] walk_between(small, walk, s, b);
    lemma_walk_image(small, large, place, walk, walk.len() - 1);
}

/// Nodes that are connected in the part are connected in the large graph.
pub proof fn lemma_part_to_large(
    large: Seq<(int, int)>,
    small: Seq<(int, int)>,
    part: Seq<(int, int)>,
    place: spec_fn(int) -> int,
    offset: int,
    h: int,
    k: int,
)
    requires
        edges_embed(large, small, part, place, offset),
        connected(part, h, k),
    ensures
        connected(large, h + offset, k + offset),
{
    let walk = choose|walk: Seq<int>| #[trigger] walk_between(part, walk, h, k);
    let up = |x: int| x + offset;
    assert forall|u: int, v: int| #[trigger] adjacent(part, u, v) implies connected(
        large,
        up(u),
        up(v),
    ) by {
        lemma_connected_reflexive(large, u + offset);
        lemma_connected_step(large, u + offset, u + offset, v + offset);
    }
    lemma_walk_image(part, large, up, walk, walk.len() - 1);
}

/// The node reached by a walk in the large graph is the place of a node of
/// the small graph that is connected to the start, or is reached from such
/// a place through the part.
pub open spec fn reached(
    small: Seq<(int, int)>,
    part: Seq<(int, int)>,
    place: spec_fn(int) -> int,
    offset: int,
    is_node: spec_fn(int) -> bool,
    s: int,
    w: int,
) -> bool {
    exists|u: int|
        is_node(u) && #[trigger] connected(small, s, u) && (w == place(u) || connected(
            part,
            place(u) - offset,
            w - offset,
        ))
}

/// Every node of a walk in the large graph that starts at the place of a
/// node of the small graph is reached.
proof fn lemma_walk_reached(
    large: Seq<(int, int)>,
    small: Seq<(int, int)>,
    part: Seq<(int, int)>,
    place: spec_fn(int) -> int,
    offset: int,
    is_node: spec_fn(int) -> bool,
    s: int,
    walk: Seq<int>,
    at: int,
)
    requires
        edges_split(large, small, part, place, offset),
        part_contracted(small, part, place, offset, is_node),
        is_node(s),
        walk_between(large, walk, place(s), walk.last()),
        0 <= at < walk.len(),
    ensures
        reached(small, part, place, offset, is_node, s, walk[at]),
    decreases at,
{
    if at == 0 {
        lemma_connected_reflexive(small, s);
        assert(is_node(s) && connected(small, s, s) && walk[0] == place(s));
    } else {
        lemma_walk_reached(large, small, part, place, offset, is_node, s, walk, at - 1);
        let w = walk[at - 1];
        let w2 = walk[at];
        assert(adjacent(large, walk[at - 1], walk[at - 1 + 1]));
        let u = choose|u: int|
            is_node(u) && #[trigger] connected(small, s, u) && (w == place(u) || connected(
                part,
                place(u) - offset,
                w - offset,
            ));
        if adjacent(part, w - offset, w2 - offset) {
            if w == place(u) {
                lemma_connected_reflexive(part, place(u) - offset);
            }
            lemma_connected_step(part, place(u) - offset, w - offset, w2 - offset);
            assert(is_node(u) && connected(small, s, u) && connected(
                part,
                place(u) - offset,
                w2 - offset,
            ));
        } else {
            let (u1, v1) = choose|u1: int, v1: int|
                place(u1) == w && place(v1) == w2 && #[trigger] adjacent(small, u1, v1);
            if w != place(u) {
                assert(connected(part, place(u) - offset, place(u1) - offset));
            } else {
                lemma_connected_reflexive(small, u);
            }
            assert(connected(small, u, u1));
            lemma_connected_transitive(small, s, u, u1);
            lemma_connected_step(small, s, u1, v1);
            assert(is_node(v1) && connected(small, s, v1) && w2 == place(v1));
        }
    }
}

/// Nodes of the small graph whose places are connected in the large graph
/// are connected in the small graph.
pub proof fn lemma_large_to_small(
    large: Seq<(int, int)>,
    small: Seq<(int, int)>,
    part: Seq<(int, int)>,
    place: spec_fn(int) -> int,
    offset: int,
    is_node: spec_fn(int) -> bool,
    s: int,
    b: int,
)
    requires
        edges_split(large, small, part, place, offset),
        part_contracted(small, part, place, offset, is_node),
        is_node(s),
        is_node(b),
        connected(large, place(s), place(b)),
    ensures
        connected(small, s, b),
{
    let walk = choose|walk: Seq<int>| #[trigger] walk_between(large, walk, place(s), place(b));
    lemma_walk_reached(large, small, part, place, offset, is_node, s, walk, walk.len() - 1);
    let u = choose|u: int|
        is_node(u) && #[trigger] connected(small, s, u) && (place(b) == place(u) || connected(
            part,
            place(u) - offset,
            place(b) - offset,
        ));
    if place(b) != place(u) {
        assert(connected(small, u, b));
        lemma_connected_transitive(small, s, u, b);
    }
}

/// A node of the large graph that is connected to the place of a node of
/// the small graph, and is itself no such place, is reached from such a
/// place through the part.
pub proof fn lemma_large_reached(
    large: Seq<(int, int)>,
    small: Seq<(int, int)>,
    part: Seq<(int, int)>,
    place: spec_fn(int) -> int,
    offset: int,
    is_node: spec_fn(int) -> bool,
    s: int,
    w: int,
)
    requires
        edges_split(large, small, part, place, offset),
        part_contracted(small, part, place, offset, is_node),
        is_node(s),
        connected(large, place(s), w),
    ensures
        reached(small, part, place, offset, is_node, s, w),
{
    let walk = choose|walk: Seq<int>| #[trigger] walk_between(large, walk, place(s), w);
    lemma_walk_reached(large, small, part, place, offset, is_node, s, walk, walk.len() - 1);
}

/// The nodes `0`, ..., up to `count`.
pub open spec fn below(count: int) -> spec_fn(int) -> bool {
    |u: int| 0 <= u < count
}

/// The least nodes of the components that hold no node of the shore.
pub open spec fn closed_leaders(
    nodes: int,
    edges: Seq<(int, int)>,
    shore: spec_fn(int) -> bool,
) -> Set<int> {
    Set::new(
        |v: int|
            component_leaders(nodes as nat, edges).contains(v) && forall|b: int|
                shore(b) ==> !#[trigger] connected(edges, v, b),
    )
}

/// The node `w` of the large graph is the place of a node of the small graph.
pub open spec fn is_place(place: spec_fn(int) -> int, small_nodes: int, w: int) -> bool {
    exists|u: int| 0 <= u < small_nodes && #[trigger] place(u) == w
}

/// The sizes and the shores fit: the places of the nodes of the small graph
/// and the nodes of the part, moved up, are nodes of the large graph and
/// leave none out; the rim of the part is what the small graph has of it;
/// and the shore of the large graph is the shore of the small one.
pub open spec fn shores_fit(
    part: Seq<(int, int)>,
    place: spec_fn(int) -> int,
    offset: int,
    small_nodes: int,
    part_nodes: int,
    large_nodes: int,
    small_shore: spec_fn(int) -> bool,
    rim: spec_fn(int) -> bool,
    large_shore: spec_fn(int) -> bool,
) -> bool {
    &&& 0 <= offset
    &&& forall|u: int| 0 <= u < small_nodes ==> 0 <= #[trigger] place(u) < large_nodes
    &&& part_nodes + offset <= large_nodes
    &&& forall|w: int|
        0 <= w < large_nodes ==> #[trigger] is_place(place, small_nodes, w) || (0 <= w - offset
            < part_nodes && !rim(w - offset))
    &&& forall|u: int|
        0 <= u < small_nodes && 0 <= #[trigger] place(u) - offset < part_nodes ==> rim(
            place(u) - offset,
        )
    &&& forall|h: int|
        #[trigger] rim(h) ==> exists|u: int| 0 <= u < small_nodes && #[trigger] place(u) == h + offset
    &&& forall|u: int| 0 <= u < small_nodes ==> (small_shore(u) <==> large_shore(#[trigger] place(u)))
    &&& forall|w: int|
        #[trigger] large_shore(w) ==> exists|u: int|
            0 <= u < small_nodes && small_shore(u) && #[trigger] place(u) == w
    &&& forall|k: int|
        0 <= k < part.len() ==> 0 <= (#[trigger] part[k]).0 < part_nodes && 0 <= part[k].1
            < part_nodes
    &&& forall|u: int| #[trigger] small_shore(u) ==> 0 <= u < small_nodes
    &&& 0 <= small_nodes
    &&& 0 <= part_nodes
}

/// A component of the part without a node of the rim is a component of the
/// large graph: what is connected to it in the large graph is connected to
/// it in the part.
proof fn lemma_inner_walk(
    large: Seq<(int, int)>,
    small: Seq<(int, int)>,
    part: Seq<(int, int)>,
    place: spec_fn(int) -> int,
    offset: int,
    small_nodes: int,
    part_nodes: int,
    rim: spec_fn(int) -> bool,
    r: int,
    walk: Seq<int>,
    at: int,
)
    requires
        edges_split(large, small, part, place, offset),
        part_contracted(small, part, place, offset, below(small_nodes)),
        forall|u: int|
            0 <= u < small_nodes && 0 <= #[trigger] place(u) - offset < part_nodes ==> rim(
                place(u) - offset,
            ),
        forall|k: int|
            0 <= k < part.len() ==> 0 <= (#[trigger] part[k]).0 < part_nodes && 0 <= part[k].1
                < part_nodes,
        0 <= r < part_nodes,
        forall|h: int| rim(h) ==> !#[trigger] connected(part, r, h),
        walk_between(large, walk, r + offset, walk.last()),
        0 <= at < walk.len(),
    ensures
        connected(part, r, walk[at] - offset),
        0 <= walk[at] - offset < part_nodes,
    decreases at,
{
    if at == 0 {
        lemma_connected_reflexive(part, r);
    } else {
        lemma_inner_walk(
            large,
            small,
            part,
            place,
            offset,
            small_nodes,
            part_nodes,
            rim,
            r,
            walk,
            at - 1,
        );
        let w = walk[at - 1];
        let w2 = walk[at];
        assert(adjacent(large, walk[at - 1], walk[at - 1 + 1]));
        if adjacent(part, w - offset, w2 - offset) {
            lemma_connected_step(part, r, w - offset, w2 - offset);
            let k = choose|k: int|
                0 <= k < part.len() && edge_joins(
                    #[trigger] part[k],
                    w - offset,
                    w2 - offset,
                );
            assert(0 <= part[k].0 < part_nodes);
        } else {
            let (u1, v1) = choose|u1: int, v1: int|
                place(u1) == w && place(v1) == w2 && #[trigger] adjacent(small, u1, v1);
            assert(below(small_nodes)(u1));
            assert(rim(place(u1) - offset));
            assert(false);
        }
    }
}

/// What is connected in the large graph to a component of the part without
/// a node of the rim is connected to it in the part.
pub proof fn lemma_inner_component(
    large: Seq<(int, int)>,
    small: Seq<(int, int)>,
    part: Seq<(int, int)>,
    place: spec_fn(int) -> int,
    offset: int,
    small_nodes: int,
    part_nodes: int,
    rim: spec_fn(int) -> bool,
    r: int,
    w: int,
)
    requires
        edges_split(large, small, part, place, offset),
        part_contracted(small, part, place, offset, below(small_nodes)),
        forall|u: int|
            0 <= u < small_nodes && 0 <= #[trigger] place(u) - offset < part_nodes ==> rim(
                place(u) - offset,
            ),
        forall|k: int|
            0 <= k < part.len() ==> 0 <= (#[trigger] part[k]).0 < part_nodes && 0 <= part[k].1
                < part_nodes,
        0 <= r < part_nodes,
        forall|h: int| rim(h) ==> !#[trigger] connected(part, r, h),
        connected(large, r + offset, w),
    ensures
        connected(part, r, w - offset),
        0 <= w - offset < part_nodes,
{
    let walk = choose|walk: Seq<int>| #[trigger] walk_between(large, walk, r + offset, w);
    lemma_inner_walk(
        large,
        small,
        part,
        place,
        offset,
        small_nodes,
        part_nodes,
        rim,
        r,
        walk,
        walk.len() - 1,
    );
}

/// The components of the large graph without a node of the shore are the
/// components of the part without a node of the rim, and the components of
/// the small graph without a node of the shore: there are as many of the
/// first as of the other two together.
pub proof fn lemma_closed_count(
    large: Seq<(int, int)>,
    small: Seq<(int, int)>,
    part: Seq<(int, int)>,
    place: spec_fn(int) -> int,
    offset: int,
    small_nodes: int,
    part_nodes: int,
    large_nodes: int,
    small_shore: spec_fn(int) -> bool,
    rim: spec_fn(int) -> bool,
    large_shore: spec_fn(int) -> bool,
)
    requires
        edges_split(large, small, part, place, offset),
        part_contracted(small, part, place, offset, below(small_nodes)),
        edges_embed(large, small, part, place, offset),
        shores_fit(
            part,
            place,
            offset,
            small_nodes,
            part_nodes,
            large_nodes,
            small_shore,
            rim,
            large_shore,
        ),
    ensures
        closed_leaders(large_nodes, large, large_shore).finite(),
        closed_leaders(small_nodes, small, small_shore).finite(),
        closed_leaders(part_nodes, part, rim).finite(),
        closed_leaders(large_nodes, large, large_shore).len() == closed_leaders(
            small_nodes,
            small,
            small_shore,
        ).len() + closed_leaders(part_nodes, part, rim).len(),
{
    let inner = closed_leaders(part_nodes, part, rim);
    let outer = closed_leaders(small_nodes, small, small_shore);
    let all = closed_leaders(large_nodes, large, large_shore);
    lemma_int_range(0, part_nodes);
    lemma_int_range(0, small_nodes);
    lemma_len_subset(inner, set_int_range(0, part_nodes));
    lemma_len_subset(outer, set_int_range(0, small_nodes));
    let up = |r: int| r + offset;
    let to_least = |r: int| least_of(large, place(r));
    assert(injective_on(up, inner));
    assert forall|r: int| outer.contains(r) implies {
        &&& 0 <= #[trigger] to_least(r)
        &&& to_least(r) <= place(r)
        &&& connected(large, to_least(r), place(r))
        &&& is_least_of_component(large, to_least(r))
    } by {
        lemma_least_of(large, place(r));
    }
    assert(injective_on(to_least, outer)) by {
        assert forall|r1: int, r2: int|
            outer.contains(r1) && outer.contains(r2) && #[trigger] to_least(r1) == #[trigger] to_least(
                r2,
            ) implies r1 == r2 by {
            lemma_connected_symmetric(large, to_least(r1), place(r1));
            lemma_connected_transitive(large, place(r1), to_least(r1), place(r2));
            assert(below(small_nodes)(r1) && below(small_nodes)(r2));
            lemma_large_to_small(large, small, part, place, offset, below(small_nodes), r1, r2);
            lemma_least_unique(small, r1, r2);
        }
    }
    let from_inner = inner.map(up);
    let from_outer = outer.map(to_least);
    lemma_map_size(inner, from_inner, up);
    lemma_map_size(outer, from_outer, to_least);
    assert(from_inner.disjoint(from_outer)) by {
        assert forall|w: int| from_inner.contains(w) && from_outer.contains(w) implies false by {
            let r = choose|r: int| inner.contains(r) && w == up(r);
            let q = choose|q: int| outer.contains(q) && w == to_least(q);
            lemma_inner_component(
                large,
                small,
                part,
                place,
                offset,
                small_nodes,
                part_nodes,
                rim,
                r,
                place(q),
            );
            assert(rim(place(q) - offset));
        }
    }
    assert(from_inner + from_outer =~= all) by {
        assert forall|w: int| from_inner.contains(w) implies all.contains(w) by {
            let r = choose|r: int| inner.contains(r) && w == up(r);
            assert forall|v: int| 0 <= v < w implies !#[trigger] connected(large, v, w) by {
                if connected(large, v, w) {
                    lemma_connected_symmetric(large, v, w);
                    lemma_inner_component(
                        large,
                        small,
                        part,
                        place,
                        offset,
                        small_nodes,
                        part_nodes,
                        rim,
                        r,
                        v,
                    );
                    lemma_connected_symmetric(part, r, v - offset);
                    assert(!connected(part, v - offset, r));
                }
            }
            assert forall|b: int| large_shore(b) implies !#[trigger] connected(large, w, b) by {
                if connected(large, w, b) {
                    lemma_inner_component(
                        large,
                        small,
                        part,
                        place,
                        offset,
                        small_nodes,
                        part_nodes,
                        rim,
                        r,
                        b,
                    );
                    let u = choose|u: int|
                        0 <= u < small_nodes && small_shore(u) && #[trigger] place(u) == b;
                    assert(rim(place(u) - offset));
                }
            }
        }
        assert forall|w: int| from_outer.contains(w) implies all.contains(w) by {
            let q = choose|q: int| outer.contains(q) && w == to_least(q);
            assert(0 <= to_least(q) && to_least(q) <= place(q));
            assert forall|b: int| large_shore(b) implies !#[trigger] connected(large, w, b) by {
                if connected(large, w, b) {
                    let u = choose|u: int|
                        0 <= u < small_nodes && small_shore(u) && #[trigger] place(u) == b;
                    lemma_connected_symmetric(large, w, place(q));
                    lemma_connected_transitive(large, place(q), w, place(u));
                    assert(below(small_nodes)(q) && below(small_nodes)(u));
                    lemma_large_to_small(large, small, part, place, offset, below(small_nodes), q, u);
                }
            }
        }
        assert forall|w: int| all.contains(w) implies from_inner.contains(w) || from_outer.contains(
            w,
        ) by {
            if exists|u: int| 0 <= u < small_nodes && #[trigger] connected(large, w, place(u)) {
                let u = choose|u: int| 0 <= u < small_nodes && #[trigger] connected(large, w, place(u));
                lemma_least_of(small, u);
                let q = least_of(small, u);
                assert forall|b: int| small_shore(b) implies !#[trigger] connected(small, q, b) by {
                    if connected(small, q, b) {
                        lemma_small_to_large(large, small, part, place, offset, q, b);
                        lemma_small_to_large(large, small, part, place, offset, q, u);
                        lemma_connected_symmetric(large, place(q), place(u));
                        lemma_connected_transitive(large, w, place(u), place(q));
                        lemma_connected_transitive(large, w, place(q), place(b));
                        assert(large_shore(place(b)));
                    }
                }
                assert(outer.contains(q));
                lemma_small_to_large(large, small, part, place, offset, q, u);
                lemma_connected_symmetric(large, place(q), place(u));
                lemma_connected_transitive(large, w, place(u), place(q));
                lemma_connected_symmetric(large, to_least(q), place(q));
                lemma_connected_transitive(large, w, place(q), to_least(q));
                lemma_least_unique(large, w, to_least(q));
                assert(outer.contains(q) && w == to_least(q));
            } else {
                lemma_connected_reflexive(large, w);
                let h = w - offset;
                if is_place(place, small_nodes, w) {
                    let u = choose|u: int| 0 <= u < small_nodes && #[trigger] place(u) == w;
                    assert(connected(large, w, place(u)));
                }
                assert(0 <= h < part_nodes && !rim(h));
                assert forall|k: int| 0 <= k < h implies !#[trigger] connected(part, k, h) by {
                    if connected(part, k, h) {
                        lemma_part_to_large(large, small, part, place, offset, k, h);
                        assert(!connected(large, k + offset, w));
                    }
                }
                assert forall|b: int| rim(b) implies !#[trigger] connected(part, h, b) by {
                    if connected(part, h, b) {
                        lemma_part_to_large(large, small, part, place, offset, h, b);
                        let u = choose|u: int|
                            0 <= u < small_nodes && #[trigger] place(u) == b + offset;
                        assert(connected(large, w, place(u)));
                    }
                }
                assert(inner.contains(h) && w == up(h));
            }
        }
    }
    lemma_set_disjoint_lens(from_inner, from_outer);
}

} // verus!
