//! Undirected graphs on the nodes `0..n`, and what it means for two nodes to
//! be connected. The graphs themselves are kept by `petgraph`.

use vstd::prelude::*;
use petgraph::algo::{connected_components, has_path_connecting};
use petgraph::graph::{Graph, NodeIndex};
use petgraph::Undirected;

verus! {

/// `Graph` of petgraph. Nothing of its inside is known here: what a graph
/// holds is told by `graph_nodes` and `graph_edges`.
#[verifier::external_type_specification]
#[verifier::external_body]
#[verifier::reject_recursive_types(N)]
#[verifier::reject_recursive_types(E)]
#[verifier::reject_recursive_types(Ty)]
#[verifier::reject_recursive_types(Ix)]
pub struct ExGraph<N, E, Ty, Ix>(Graph<N, E, Ty, Ix>);

/// `Undirected` of petgraph, the marker of graphs whose edges have no direction.
#[verifier::external_type_specification]
#[verifier::external_body]
pub struct ExUndirected(Undirected);

/// The number of nodes of a graph. Its nodes are `0`, ..., up to that number.
pub uninterp spec fn graph_nodes(g: Graph<(), (), Undirected, u32>) -> nat;

/// The edges of a graph in the order in which they were added, each as the
/// two nodes that it joins.
pub uninterp spec fn graph_edges(g: Graph<(), (), Undirected, u32>) -> Seq<(int, int)>;

/// The edge `e` joins `a` and `b`.
pub open spec fn edge_joins(e: (int, int), a: int, b: int) -> bool {
    e == (a, b) || e == (b, a)
}

/// Some edge joins `a` and `b`.
pub open spec fn adjacent(edges: Seq<(int, int)>, a: int, b: int) -> bool {
    exists|k: int| 0 <= k < edges.len() && edge_joins(#[trigger] edges[k], a, b)
}

/// Each node of `walk` is joined to the next by an edge.
pub open spec fn is_walk(edges: Seq<(int, int)>, walk: Seq<int>) -> bool {
    &&& walk.len() > 0
    &&& forall|i: int| 0 <= i < walk.len() - 1 ==> adjacent(edges, #[trigger] walk[i], walk[i + 1])
}

/// `walk` leads from `a` to `b` along edges.
pub open spec fn walk_between(edges: Seq<(int, int)>, walk: Seq<int>, a: int, b: int) -> bool {
    is_walk(edges, walk) && walk.first() == a && walk.last() == b
}

/// Some walk leads from `a` to `b`. Every node is connected to itself.
pub open spec fn connected(edges: Seq<(int, int)>, a: int, b: int) -> bool {
    exists|walk: Seq<int>| #[trigger] walk_between(edges, walk, a, b)
}

/// No node below `v` is connected to `v`: `v` is the least node of its component.
pub open spec fn is_least_of_component(edges: Seq<(int, int)>, v: int) -> bool {
    forall|u: int| 0 <= u < v ==> !#[trigger] connected(edges, u, v)
}

/// The nodes below `nodes` that are the least of their component.
pub open spec fn component_leaders(nodes: nat, edges: Seq<(int, int)>) -> Set<int> {
    Set::new(|v: int| 0 <= v < nodes && is_least_of_component(edges, v))
}

/// The number of connected components of the graph on `0..nodes`.
pub open spec fn component_count(nodes: nat, edges: Seq<(int, int)>) -> nat {
    component_leaders(nodes, edges).len()
}

/// `Graph::new_undirected` of petgraph: the graph without nodes and edges.
#[verifier::external_body]
pub(crate) fn graph_new() -> (g: Graph<(), (), Undirected, u32>)
    ensures
        graph_nodes(g) == 0,
        graph_edges(g) == Seq::<(int, int)>::empty(),
{
    Graph::new_undirected()
}

/// `Graph::add_node` of petgraph: the new node gets the next free index, and
/// the edges stay. It panics when the `u32` indices are used up.
#[verifier::external_body]
pub(crate) fn graph_add_node(g: &mut Graph<(), (), Undirected, u32>) -> (index: usize)
    requires
        graph_nodes(*old(g)) < u32::MAX,
    ensures
        index == graph_nodes(*old(g)),
        graph_nodes(*final(g)) == graph_nodes(*old(g)) + 1,
        graph_edges(*final(g)) == graph_edges(*old(g)),
{
    g.add_node(()).index()
}

/// `Graph::add_edge` of petgraph: the edge between `a` and `b` comes last,
/// and the nodes stay. It panics when a node does not exist or the `u32`
/// indices are used up.
#[verifier::external_body]
pub(crate) fn graph_add_edge(g: &mut Graph<(), (), Undirected, u32>, a: usize, b: usize)
    requires
        a < graph_nodes(*old(g)),
        b < graph_nodes(*old(g)),
        graph_edges(*old(g)).len() < u32::MAX,
    ensures
        graph_nodes(*final(g)) == graph_nodes(*old(g)),
        graph_edges(*final(g)) == graph_edges(*old(g)).push((a as int, b as int)),
{
    g.add_edge(NodeIndex::new(a), NodeIndex::new(b), ());
}

/// `has_path_connecting` of petgraph: whether some path leads from `from`
/// to `to`; a node is connected to itself.
#[verifier::external_body]
pub(crate) fn graph_has_path(g: &Graph<(), (), Undirected, u32>, from: usize, to: usize) -> (b:
    bool)
    requires
        from < graph_nodes(*g),
        to < graph_nodes(*g),
    ensures
        b == connected(graph_edges(*g), from as int, to as int),
{
    has_path_connecting(g, NodeIndex::new(from), NodeIndex::new(to), None)
}

/// `connected_components` of petgraph: the number of connected components.
#[verifier::external_body]
pub(crate) fn graph_components(g: &Graph<(), (), Undirected, u32>) -> (count: usize)
    ensures
        count == component_count(graph_nodes(*g), graph_edges(*g)),
{
    connected_components(g)
}

/// Every node is connected to itself.
pub proof fn lemma_connected_reflexive(edges: Seq<(int, int)>, a: int)
    ensures
        connected(edges, a, a),
{
    assert(walk_between(edges, seq![a], a, a));
}

/// A walk can be extended by one edge.
pub proof fn lemma_connected_step(edges: Seq<(int, int)>, a: int, b: int, c: int)
    requires
        connected(edges, a, b),
        adjacent(edges, b, c),
    ensures
        connected(edges, a, c),
{
    let walk = choose|walk: Seq<int>| #[trigger] walk_between(edges, walk, a, b);
    let longer = walk.push(c);
    assert forall|i: int| 0 <= i < longer.len() - 1 implies adjacent(
        edges,
        #[trigger] longer[i],
        longer[i + 1],
    ) by {
        if i < walk.len() - 1 {
            assert(adjacent(edges, walk[i], walk[i + 1]));
        }
    }
    assert(walk_between(edges, longer, a, c));
}

/// Being joined by an edge does not depend on the direction.
pub proof fn lemma_adjacent_symmetric(edges: Seq<(int, int)>, a: int, b: int)
    requires
        adjacent(edges, a, b),
    ensures
        adjacent(edges, b, a),
{
    let k = choose|k: int| 0 <= k < edges.len() && edge_joins(#[trigger] edges[k], a, b);
    assert(edge_joins(edges[k], b, a));
}

/// Two walks that meet make one walk.
pub proof fn lemma_connected_transitive(edges: Seq<(int, int)>, a: int, b: int, c: int)
    requires
        connected(edges, a, b),
        connected(edges, b, c),
    ensures
        connected(edges, a, c),
{
    let first = choose|walk: Seq<int>| #[trigger] walk_between(edges, walk, a, b);
    let second = choose|walk: Seq<int>| #[trigger] walk_between(edges, walk, b, c);
    let whole = first + second.subrange(1, second.len() as int);
    assert forall|i: int| 0 <= i < whole.len() - 1 implies adjacent(
        edges,
        #[trigger] whole[i],
        whole[i + 1],
    ) by {
        if i < first.len() - 1 {
            assert(adjacent(edges, first[i], first[i + 1]));
        } else {
            let j = i - first.len() + 1;
            assert(adjacent(edges, second[j], second[j + 1]));
        }
    }
    assert(walk_between(edges, whole, a, c));
}

/// A walk can be gone backwards.
pub proof fn lemma_connected_symmetric(edges: Seq<(int, int)>, a: int, b: int)
    requires
        connected(edges, a, b),
    ensures
        connected(edges, b, a),
{
    let walk = choose|walk: Seq<int>| #[trigger] walk_between(edges, walk, a, b);
    let back = Seq::new(walk.len(), |i: int| walk[walk.len() - 1 - i]);
    assert forall|i: int| 0 <= i < back.len() - 1 implies adjacent(
        edges,
        #[trigger] back[i],
        back[i + 1],
    ) by {
        let j = walk.len() - 2 - i;
        assert(adjacent(edges, walk[j], walk[j + 1]));
        lemma_adjacent_symmetric(edges, walk[j], walk[j + 1]);
    }
    assert(walk_between(edges, back, b, a));
}

/// Among the nodes from `0` to `x` that are connected to `x`, the least is
/// the least node of the component of `x`.
pub proof fn lemma_leader_exists(edges: Seq<(int, int)>, x: int) -> (r: int)
    requires
        0 <= x,
    ensures
        0 <= r <= x,
        connected(edges, r, x),
        is_least_of_component(edges, r),
{
    lemma_connected_reflexive(edges, x);
    let r = lemma_least_connected(edges, x, x);
    assert forall|u: int| 0 <= u < r implies !#[trigger] connected(edges, u, r) by {
        if connected(edges, u, r) {
            lemma_connected_transitive(edges, u, r, x);
        }
    }
    r
}

/// The least node connected to `x`, searched from `0` to `bound`.
proof fn lemma_least_connected(edges: Seq<(int, int)>, x: int, bound: int) -> (r: int)
    requires
        0 <= bound,
        connected(edges, bound, x),
    ensures
        0 <= r <= bound,
        connected(edges, r, x),
        forall|u: int| 0 <= u < r ==> !#[trigger] connected(edges, u, x),
    decreases bound,
{
    if exists|u: int| 0 <= u < bound && #[trigger] connected(edges, u, x) {
        let u = choose|u: int| 0 <= u < bound && #[trigger] connected(edges, u, x);
        lemma_least_connected(edges, x, u)
    } else {
        bound
    }
}

/// A node that no edge touches is connected to itself only.
pub proof fn lemma_isolated(edges: Seq<(int, int)>, a: int, b: int)
    requires
        connected(edges, a, b),
        forall|k: int| 0 <= k < edges.len() ==> (#[trigger] edges[k]).0 != a && edges[k].1 != a,
    ensures
        a == b,
{
    let walk = choose|walk: Seq<int>| #[trigger] walk_between(edges, walk, a, b);
    if walk.len() > 1 {
        assert(adjacent(edges, walk[0int], walk[0int + 1]));
        let k = choose|k: int| 0 <= k < edges.len() && edge_joins(#[trigger] edges[k], walk[0], walk[1]);
        assert(edges[k].0 != a && edges[k].1 != a);
    }
}

/// The least node of the component of `x`.
pub open spec fn least_of(edges: Seq<(int, int)>, x: int) -> int {
    choose|r: int| 0 <= r <= x && connected(edges, r, x) && is_least_of_component(edges, r)
}

/// What `least_of` gives.
pub proof fn lemma_least_of(edges: Seq<(int, int)>, x: int)
    requires
        0 <= x,
    ensures
        0 <= least_of(edges, x) <= x,
        connected(edges, least_of(edges, x), x),
        is_least_of_component(edges, least_of(edges, x)),
{
    let least = lemma_leader_exists(edges, x);
}

/// Two nodes that are each the least of its component, and connected, are one node.
pub proof fn lemma_least_unique(edges: Seq<(int, int)>, r1: int, r2: int)
    requires
        0 <= r1,
        0 <= r2,
        is_least_of_component(edges, r1),
        is_least_of_component(edges, r2),
        connected(edges, r1, r2),
    ensures
        r1 == r2,
{
    if r1 < r2 {
        assert(!connected(edges, r1, r2));
    } else if r2 < r1 {
        lemma_connected_symmetric(edges, r1, r2);
        assert(!connected(edges, r2, r1));
    }
}

} // verus!
