//! Composition of two diagrams: the two matchings are glued along the
//! shared interface, the boundary points that a path connects are paired,
//! and every closed loop adds one to the power of the loop value.

use vstd::prelude::*;
use vstd::relations::injective_on;
use vstd::set_lib::*;
use petgraph::graph::Graph;
use petgraph::Undirected;
use crate::error::DiagramError;
use crate::graph::{
    component_count, component_leaders, connected, graph_add_edge, graph_add_node, graph_components,
    graph_edges, graph_has_path, graph_new, graph_nodes, is_least_of_component, least_of,
    lemma_connected_symmetric, lemma_connected_transitive, lemma_least_of, lemma_least_unique,
};
use crate::key::Key;
use crate::matching::{
    is_canonical, is_involution, is_matching, lemma_canonical_unique, lemma_involution_halves,
    lemma_low_pairs_matching, low_pairs, paired, PerfectMatching,
};
use crate::pair::Pair;
use crate::seam::{
    is_boundary, lemma_mate, lemma_mate_involution, mate, seam_edges, seam_nodes, seam_ok,
};

verus! {

/// A diagram with its sizes: a matching on `domain + codomain` endpoints,
/// of which the first `domain` are the domain, and a power of the loop value.
#[derive(Debug)]
pub struct ExtendedPerfectMatching {
    pub domain: usize,
    pub codomain: usize,
    pub delta_power: usize,
    pub matching: PerfectMatching,
}

impl View for ExtendedPerfectMatching {
    type V = (usize, usize, usize, Seq<Pair>);

    open spec fn view(&self) -> (usize, usize, usize, Seq<Pair>) {
        (self.domain, self.codomain, self.delta_power, self.matching@)
    }
}

/// The node of the glued graph that is boundary point `x` of the composite:
/// the first `d` boundary points are the domain of the left diagram, the
/// others the codomain of the right one, which comes after the `c` points
/// of the interface.
pub open spec fn boundary_node(x: int, d: int, c: int) -> int {
    if x < d {
        x
    } else {
        x + c
    }
}

/// The boundary point of the composite that a boundary node is.
pub open spec fn boundary_point(v: int, d: int, c: int) -> int {
    if v < d {
        v
    } else {
        v - c
    }
}

/// The boundary point that a path joins to the boundary point `x`.
pub open spec fn boundary_mate(left: Seq<Pair>, right: Seq<Pair>, d: int, x: int) -> int {
    let c = 2 * left.len() - d;
    boundary_point(mate(left, right, d, boundary_node(x, d, c)), d, c)
}

/// The list is the canonical matching of the boundary points of the
/// composite: it joins every boundary point to the one that a path leads to.
pub open spec fn is_glued(left: Seq<Pair>, right: Seq<Pair>, d: int, s: Seq<Pair>) -> bool {
    &&& is_matching(s)
    &&& is_canonical(s)
    &&& forall|x: int, y: int|
        #[trigger] paired(s, x, y) <==> 0 <= x < 2 * d + 2 * right.len() - 2 * left.len() && y
            == boundary_mate(left, right, d, x)
}

/// The matching of the composite of two diagrams.
pub open spec fn glued_pairs(left: Seq<Pair>, right: Seq<Pair>, d: int) -> Seq<Pair> {
    choose|s: Seq<Pair>| is_glued(left, right, d, s)
}

/// The number of closed loops in the composite of two diagrams: the
/// components of the glued graph, less one for every pair of boundary points.
pub open spec fn closed_loops(left: Seq<Pair>, right: Seq<Pair>, d: int) -> int {
    component_count(seam_nodes(left, right, d) as nat, seam_edges(left, right, d)) - (d
        + right.len() - left.len())
}

/// A list that is the matching of the composite is `glued_pairs`.
pub proof fn lemma_glued_unique(left: Seq<Pair>, right: Seq<Pair>, d: int, s: Seq<Pair>)
    requires
        is_glued(left, right, d, s),
    ensures
        s == glued_pairs(left, right, d),
{
    let t = glued_pairs(left, right, d);
    assert(is_glued(left, right, d, t));
    lemma_canonical_unique(s, t);
}

/// Every boundary point of the composite is joined by a path to exactly one
/// other, and that one is joined to it.
pub proof fn lemma_boundary_mate(left: Seq<Pair>, right: Seq<Pair>, d: int, x: int)
    requires
        seam_ok(left, right, d),
        0 <= x < 2 * d + 2 * right.len() - 2 * left.len(),
    ensures
        0 <= boundary_mate(left, right, d, x) < 2 * d + 2 * right.len() - 2 * left.len(),
        boundary_mate(left, right, d, x) != x,
        boundary_mate(left, right, d, boundary_mate(left, right, d, x)) == x,
        forall|y: int|
            0 <= y < 2 * d + 2 * right.len() - 2 * left.len() && y != x ==> (#[trigger] connected(
                seam_edges(left, right, d),
                boundary_node(x, d, 2 * left.len() - d),
                boundary_node(y, d, 2 * left.len() - d),
            ) <==> y == boundary_mate(left, right, d, x)),
{
    let c = 2 * left.len() - d;
    let b = boundary_node(x, d, c);
    lemma_mate(left, right, d, b);
    lemma_mate_involution(left, right, d, b);
    assert forall|y: int|
        0 <= y < 2 * d + 2 * right.len() - 2 * left.len() && y != x implies (#[trigger] connected(
        seam_edges(left, right, d),
        boundary_node(x, d, c),
        boundary_node(y, d, c),
    ) <==> y == boundary_mate(left, right, d, x)) by {
        assert(is_boundary(left, right, d, boundary_node(y, d, c)));
    }
}

/// Some boundary node lies in the component of `v`.
pub open spec fn touches_boundary(left: Seq<Pair>, right: Seq<Pair>, d: int, v: int) -> bool {
    exists|b: int|
        is_boundary(left, right, d, b) && #[trigger] connected(seam_edges(left, right, d), v, b)
}

/// The least nodes of the components that hold a boundary node.
pub open spec fn open_leaders(left: Seq<Pair>, right: Seq<Pair>, d: int) -> Set<int> {
    Set::new(
        |v: int|
            component_leaders(seam_nodes(left, right, d) as nat, seam_edges(left, right, d)).contains(
                v,
            ) && touches_boundary(left, right, d, v),
    )
}

/// The least nodes of the components without a boundary node: one for every
/// closed loop.
pub open spec fn loop_leaders(left: Seq<Pair>, right: Seq<Pair>, d: int) -> Set<int> {
    Set::new(
        |v: int|
            component_leaders(seam_nodes(left, right, d) as nat, seam_edges(left, right, d)).contains(
                v,
            ) && !touches_boundary(left, right, d, v),
    )
}

/// The table of the mates of the boundary points.
pub open spec fn mate_table(left: Seq<Pair>, right: Seq<Pair>, d: int) -> Seq<usize> {
    Seq::new(
        (2 * d + 2 * right.len() - 2 * left.len()) as nat,
        |x: int| boundary_mate(left, right, d, x) as usize,
    )
}

/// Every component that holds a boundary node holds exactly two, a pair of
/// mates: there are as many such components as pairs of boundary points.
pub proof fn lemma_open_components(left: Seq<Pair>, right: Seq<Pair>, d: int)
    requires
        seam_ok(left, right, d),
        seam_nodes(left, right, d) <= usize::MAX,
    ensures
        is_involution(mate_table(left, right, d)),
        open_leaders(left, right, d).finite(),
        open_leaders(left, right, d).len() == d + right.len() - left.len(),
        component_leaders(
            seam_nodes(left, right, d) as nat,
            seam_edges(left, right, d),
        ).finite(),
{
    let edges = seam_edges(left, right, d);
    let nodes = seam_nodes(left, right, d);
    let c = 2 * left.len() - d;
    let table = mate_table(left, right, d);
    assert forall|v: int| 0 <= v < table.len() implies 0 <= #[trigger] table[v] < table.len()
        && table[v] != v && table[table[v] as int] == v by {
        lemma_boundary_mate(left, right, d, v);
    }
    lemma_involution_halves(table);
    let low = Set::new(|u: int| 0 <= u < table.len() && table[u] > u);
    let leaders = component_leaders(nodes as nat, edges);
    let all = set_int_range(0, nodes);
    lemma_int_range(0, nodes);
    lemma_len_subset(leaders, all);
    let h = |x: int| least_of(edges, boundary_node(x, d, c));
    assert forall|x: int| 0 <= x < table.len() implies {
        &&& 0 <= #[trigger] h(x) <= boundary_node(x, d, c)
        &&& connected(edges, h(x), boundary_node(x, d, c))
        &&& is_least_of_component(edges, h(x))
    } by {
        lemma_least_of(edges, boundary_node(x, d, c));
    }
    assert(injective_on(h, low)) by {
        assert forall|x1: int, x2: int|
            low.contains(x1) && low.contains(x2) && #[trigger] h(x1) == #[trigger] h(x2) implies x1
            == x2 by {
            let n1 = boundary_node(x1, d, c);
            let n2 = boundary_node(x2, d, c);
            lemma_connected_symmetric(edges, h(x1), n1);
            lemma_connected_transitive(edges, n1, h(x1), n2);
            lemma_boundary_mate(left, right, d, x1);
            lemma_boundary_mate(left, right, d, x2);
            if x1 != x2 {
                assert(connected(edges, n1, n2));
                assert(x2 == boundary_mate(left, right, d, x1));
            }
        }
    }
    let image = low.map(h);
    lemma_map_size(low, image, h);
    let open = open_leaders(left, right, d);
    assert(image =~= open) by {
        assert forall|r: int| image.contains(r) implies open.contains(r) by {
            let x = choose|x: int| low.contains(x) && r == h(x);
            assert(low.contains(x));
            assert(0 <= h(x) <= boundary_node(x, d, c));
            assert(is_boundary(left, right, d, boundary_node(x, d, c)));
        }
        assert forall|r: int| open.contains(r) implies image.contains(r) by {
            let b = choose|b: int|
                is_boundary(left, right, d, b) && #[trigger] connected(edges, r, b);
            let y = boundary_point(b, d, c);
            assert(boundary_node(y, d, c) == b);
            lemma_boundary_mate(left, right, d, y);
            let x = if table[y] > y {
                y
            } else {
                table[y] as int
            };
            assert(low.contains(x));
            let nx = boundary_node(x, d, c);
            if x != y {
                assert(connected(edges, b, nx));
                lemma_connected_transitive(edges, r, b, nx);
            }
            assert(connected(edges, r, nx));
            lemma_connected_symmetric(edges, h(x), nx);
            lemma_connected_transitive(edges, r, nx, h(x));
            lemma_least_unique(edges, r, h(x));
            assert(low.contains(x) && r == h(x));
        }
    }
}

/// The matching of the composite exists: `glued_pairs` is a canonical
/// matching of the boundary points that joins every one to its mate.
pub proof fn lemma_glued_exists(left: Seq<Pair>, right: Seq<Pair>, d: int)
    requires
        seam_ok(left, right, d),
        seam_nodes(left, right, d) <= usize::MAX,
    ensures
        is_glued(left, right, d, glued_pairs(left, right, d)),
        glued_pairs(left, right, d).len() == d + right.len() - left.len(),
{
    let table = mate_table(left, right, d);
    lemma_open_components(left, right, d);
    lemma_low_pairs_matching(table);
    let out = low_pairs(table, table.len());
    assert forall|x: int, y: int| #[trigger] paired(out, x, y) <==> 0 <= x < 2 * d + 2 * right.len()
        - 2 * left.len() && y == boundary_mate(left, right, d, x) by {
        if 0 <= x < table.len() {
            lemma_boundary_mate(left, right, d, x);
        }
    }
    assert(is_glued(left, right, d, out));
    lemma_glued_unique(left, right, d, out);
}

/// The number of closed loops is the number of components without a
/// boundary node: every other component holds one pair of boundary points.
pub proof fn lemma_loops_counted(left: Seq<Pair>, right: Seq<Pair>, d: int)
    requires
        seam_ok(left, right, d),
        seam_nodes(left, right, d) <= usize::MAX,
    ensures
        loop_leaders(left, right, d).finite(),
        closed_loops(left, right, d) == loop_leaders(left, right, d).len(),
        0 <= closed_loops(left, right, d) <= seam_nodes(left, right, d),
        component_count(seam_nodes(left, right, d) as nat, seam_edges(left, right, d))
            <= seam_nodes(left, right, d),
{
    let edges = seam_edges(left, right, d);
    let nodes = seam_nodes(left, right, d);
    let leaders = component_leaders(nodes as nat, edges);
    let open = open_leaders(left, right, d);
    let loops = loop_leaders(left, right, d);
    lemma_open_components(left, right, d);
    lemma_len_subset(loops, leaders);
    assert(open + loops =~= leaders);
    assert(open.disjoint(loops));
    lemma_set_disjoint_lens(open, loops);
    let all = set_int_range(0, nodes);
    lemma_int_range(0, nodes);
    lemma_len_subset(leaders, all);
}

/// There are at least as many components as pairs of boundary points.
pub proof fn lemma_components_bound(left: Seq<Pair>, right: Seq<Pair>, d: int, table: Seq<usize>)
    requires
        seam_ok(left, right, d),
        seam_nodes(left, right, d) <= usize::MAX,
        table.len() == 2 * d + 2 * right.len() - 2 * left.len(),
        forall|x: int| 0 <= x < table.len() ==> #[trigger] table[x] == boundary_mate(left, right, d, x),
    ensures
        is_involution(table),
        2 * component_count(seam_nodes(left, right, d) as nat, seam_edges(left, right, d))
            >= table.len(),
        component_count(seam_nodes(left, right, d) as nat, seam_edges(left, right, d))
            <= seam_nodes(left, right, d),
{
    lemma_loops_counted(left, right, d);
    lemma_open_components(left, right, d);
    assert(table =~= mate_table(left, right, d)) by {
        assert forall|x: int| 0 <= x < table.len() implies table[x] == mate_table(left, right, d)[x] by {
            lemma_boundary_mate(left, right, d, x);
        }
    }
}

impl ExtendedPerfectMatching {
    /// The matching is canonical and has `domain + codomain` endpoints.
    pub open spec fn well_formed(&self) -> bool {
        self.matching.well_formed() && self.domain + self.codomain == 2 * self.matching@.len()
    }

    /// The graph in which the two matchings are glued along the interface.
    fn build_graph(&self, rhs: &ExtendedPerfectMatching) -> (g: Graph<(), (), Undirected, u32>)
        requires
            self.well_formed(),
            rhs.well_formed(),
            self.codomain == rhs.domain,
            self.domain + self.codomain + rhs.codomain <= u32::MAX,
        ensures
            graph_nodes(g) == seam_nodes(self.matching@, rhs.matching@, self.domain as int),
            graph_edges(g) == seam_edges(self.matching@, rhs.matching@, self.domain as int),
    {
        let d = self.domain;
        let total = d + self.codomain + rhs.codomain;
        let ghost edges = seam_edges(self.matching@, rhs.matching@, d as int);
        let mut g = graph_new();
        let mut v: usize = 0;
        while v < total
            invariant
                v <= total,
                total <= u32::MAX,
                graph_nodes(g) == v,
                graph_edges(g) == Seq::<(int, int)>::empty(),
            decreases total - v,
        {
            graph_add_node(&mut g);
            v += 1;
        }
        let left = self.matching.pairs();
        let right = rhs.matching.pairs();
        let mut i: usize = 0;
        proof {
            assert(edges.take(0) =~= Seq::<(int, int)>::empty());
        }
        while i < left.len()
            invariant
                i <= left@.len(),
                left@ == self.matching@,
                right@ == rhs.matching@,
                self.well_formed(),
                rhs.well_formed(),
                self.codomain == rhs.domain,
                d == self.domain,
                total == d + self.codomain + rhs.codomain,
                total <= u32::MAX,
                edges == seam_edges(self.matching@, rhs.matching@, d as int),
                graph_nodes(g) == total,
                graph_edges(g) == edges.take(i as int),
            decreases left@.len() - i,
        {
            let p = left[i];
            assert(self.matching@[i as int] == p);
            graph_add_edge(&mut g, p.0, p.1);
            proof {
                assert(edges.take(i + 1) =~= edges.take(i as int).push((p.0 as int, p.1 as int)));
            }
            i += 1;
        }
        let mut j: usize = 0;
        while j < right.len()
            invariant
                j <= right@.len(),
                left@ == self.matching@,
                right@ == rhs.matching@,
                self.well_formed(),
                rhs.well_formed(),
                self.codomain == rhs.domain,
                d == self.domain,
                total == d + self.codomain + rhs.codomain,
                total <= u32::MAX,
                edges == seam_edges(self.matching@, rhs.matching@, d as int),
                graph_nodes(g) == total,
                graph_edges(g) == edges.take(left@.len() + j),
            decreases right@.len() - j,
        {
            let p = right[j];
            assert(rhs.matching@[j as int] == p);
            graph_add_edge(&mut g, p.0 + d, p.1 + d);
            proof {
                assert(edges.take(left@.len() + j + 1) =~= edges.take(left@.len() + j).push(
                    (p.0 + d, p.1 + d),
                ));
            }
            j += 1;
        }
        proof {
            assert(edges.take((left@.len() + right@.len()) as int) =~= edges);
        }
        g
    }

    /// The composite of two diagrams, `self` first. The boundary of the
    /// composite is the domain of `self` followed by the codomain of `rhs`;
    /// two boundary points are paired where a path connects them in the
    /// graph that glues the two matchings, and the power of the loop value is
    /// the sum of the two powers and the number of components without a
    /// boundary point.
    pub fn glue(&self, rhs: &ExtendedPerfectMatching) -> (r: Result<
        ExtendedPerfectMatching,
        DiagramError,
    >)
        requires
            self.well_formed(),
            rhs.well_formed(),
            self.domain + self.codomain + rhs.codomain <= u32::MAX,
            self.delta_power + rhs.delta_power + self.domain + self.codomain + rhs.codomain
                <= usize::MAX,
        ensures
            match r {
                Ok(g) => {
                    &&& self.codomain == rhs.domain
                    &&& g.well_formed()
                    &&& g.domain == self.domain
                    &&& g.codomain == rhs.codomain
                    &&& g.delta_power == self.delta_power + rhs.delta_power + component_count(
                        seam_nodes(self.matching@, rhs.matching@, self.domain as int) as nat,
                        seam_edges(self.matching@, rhs.matching@, self.domain as int),
                    ) - (self.domain + rhs.codomain) / 2
                    &&& g.delta_power == self.delta_power + rhs.delta_power + closed_loops(
                        self.matching@,
                        rhs.matching@,
                        self.domain as int,
                    )
                    &&& g.matching@ == glued_pairs(
                        self.matching@,
                        rhs.matching@,
                        self.domain as int,
                    )
                    &&& forall|x: int, y: int|
                        0 <= x < self.domain + rhs.codomain && 0 <= y < self.domain + rhs.codomain
                            && x != y ==> (#[trigger] paired(g.matching@, x, y) <==> connected(
                            seam_edges(self.matching@, rhs.matching@, self.domain as int),
                            boundary_node(x, self.domain as int, self.codomain as int),
                            boundary_node(y, self.domain as int, self.codomain as int),
                        ))
                    &&& forall|x: int, y: int|
                        #[trigger] paired(g.matching@, x, y) <==> 0 <= x < self.domain
                            + rhs.codomain && y == boundary_mate(
                            self.matching@,
                            rhs.matching@,
                            self.domain as int,
                            x,
                        )
                },
                Err(e) => e == DiagramError::CompositionArityMismatch && self.codomain
                    != rhs.domain,
            },
    {
        if self.codomain != rhs.domain {
            return Err(DiagramError::CompositionArityMismatch);
        }
        let d = self.domain;
        let c = self.codomain;
        let size = d + rhs.codomain;
        let ghost left = self.matching@;
        let ghost right = rhs.matching@;
        let ghost edges = seam_edges(left, right, d as int);
        let g = self.build_graph(rhs);
        let mut table: Vec<usize> = Vec::new();
        let mut v: usize = 0;
        while v < size
            invariant
                v <= size,
                table@.len() == v,
                forall|u: int| 0 <= u < v ==> #[trigger] table@[u] == size,
            decreases size - v,
        {
            table.push(size);
            v += 1;
        }
        let mut i: usize = 0;
        proof {
            assert forall|x: int| 0 <= x < size implies boundary_mate(left, right, d as int, x)
                >= 0 by {
                lemma_boundary_mate(left, right, d as int, x);
            }
        }
        while i < size
            invariant
                i <= size,
                table@.len() == size,
                size + c <= u32::MAX,
                seam_ok(left, right, d as int),
                size == 2 * d + 2 * right.len() - 2 * left.len(),
                c == 2 * left.len() - d,
                edges == seam_edges(left, right, d as int),
                graph_nodes(g) == seam_nodes(left, right, d as int),
                graph_edges(g) == edges,
                forall|x: int|
                    0 <= x < size ==> #[trigger] table@[x] == if x < i || boundary_mate(
                        left,
                        right,
                        d as int,
                        x,
                    ) < i {
                        boundary_mate(left, right, d as int, x)
                    } else {
                        size as int
                    },
            decreases size - i,
        {
            proof {
                lemma_boundary_mate(left, right, d as int, i as int);
            }
            let ghost target = boundary_mate(left, right, d as int, i as int);
            if table[i] == size {
                let from = if i < d {
                    i
                } else {
                    i + c
                };
                let ghost before = table@;
                let mut j: usize = i + 1;
                while j < size && table[i] == size
                    invariant
                        i < j <= size,
                        i < size,
                        table@.len() == size,
                        size + c <= u32::MAX,
                        from == boundary_node(i as int, d as int, c as int),
                        seam_ok(left, right, d as int),
                        size == 2 * d + 2 * right.len() - 2 * left.len(),
                        c == 2 * left.len() - d,
                        graph_nodes(g) == seam_nodes(left, right, d as int),
                        graph_edges(g) == edges,
                        edges == seam_edges(left, right, d as int),
                        i < target < size,
                        target == boundary_mate(left, right, d as int, i as int),
                        forall|y: int|
                            0 <= y < size && y != i ==> (#[trigger] connected(
                                edges,
                                boundary_node(i as int, d as int, c as int),
                                boundary_node(y, d as int, c as int),
                            ) <==> y == target),
                        table@[i as int] == size ==> table@ == before && target >= j,
                        table@[i as int] != size ==> table@ == before.update(
                            i as int,
                            target as usize,
                        ).update(target, i),
                    decreases size - j,
                {
                    let to = if j < d {
                        j
                    } else {
                        j + c
                    };
                    if graph_has_path(&g, from, to) {
                        assert(connected(
                            edges,
                            boundary_node(i as int, d as int, c as int),
                            boundary_node(j as int, d as int, c as int),
                        ));
                        table.set(i, j);
                        table.set(j, i);
                    } else {
                        assert(!connected(
                            edges,
                            boundary_node(i as int, d as int, c as int),
                            boundary_node(j as int, d as int, c as int),
                        ));
                    }
                    j += 1;
                }
                proof {
                    assert(table@[i as int] != size);
                    assert forall|x: int| 0 <= x < size implies #[trigger] table@[x] == if x < i + 1
                        || boundary_mate(left, right, d as int, x) < i + 1 {
                        boundary_mate(left, right, d as int, x)
                    } else {
                        size as int
                    } by {
                        lemma_boundary_mate(left, right, d as int, x);
                        lemma_boundary_mate(left, right, d as int, target);
                    }
                }
            } else {
                proof {
                    assert forall|x: int| 0 <= x < size implies #[trigger] table@[x] == if x < i + 1
                        || boundary_mate(left, right, d as int, x) < i + 1 {
                        boundary_mate(left, right, d as int, x)
                    } else {
                        size as int
                    } by {
                        lemma_boundary_mate(left, right, d as int, x);
                    }
                }
            }
            i += 1;
        }
        proof {
            lemma_components_bound(left, right, d as int, table@);
        }
        let matching = PerfectMatching::from_partners(&table);
        proof {
            assert forall|x: int, y: int| 0 <= x < size && 0 <= y < size && x != y implies (
            #[trigger] paired(matching@, x, y) <==> connected(
                edges,
                boundary_node(x, d as int, c as int),
                boundary_node(y, d as int, c as int),
            )) by {
                lemma_boundary_mate(left, right, d as int, x);
            }
        }
        proof {
            lemma_glued_unique(left, right, d as int, matching@);
        }
        let components = graph_components(&g);
        let delta_power = components + self.delta_power + rhs.delta_power - size / 2;
        Ok(
            ExtendedPerfectMatching {
                domain: d,
                codomain: rhs.codomain,
                delta_power,
                matching,
            },
        )
    }
}

impl std::ops::Mul<ExtendedPerfectMatching> for ExtendedPerfectMatching {
    type Output = ExtendedPerfectMatching;

    /// The composite of two diagrams that fit, `self` first: what `glue`
    /// gives for them.
    fn mul(self, rhs: ExtendedPerfectMatching) -> (g: ExtendedPerfectMatching)
        ensures
            g.well_formed(),
            g.domain == self.domain,
            g.codomain == rhs.codomain,
            g.delta_power == self.delta_power + rhs.delta_power + closed_loops(
                self.matching@,
                rhs.matching@,
                self.domain as int,
            ),
            g.matching@ == glued_pairs(self.matching@, rhs.matching@, self.domain as int),
    {
        match self.glue(&rhs) {
            Ok(g) => g,
            Err(_) => {
                proof {
                    assert(false);
                }
                self
            },
        }
    }
}

impl vstd::std_specs::ops::MulSpecImpl<ExtendedPerfectMatching> for ExtendedPerfectMatching {
    open spec fn obeys_mul_spec() -> bool {
        false
    }

    /// The two diagrams are well formed and fit, and the graph that glues
    /// them and the power of the loop value stay within the machine's
    /// integers.
    open spec fn mul_req(self, rhs: ExtendedPerfectMatching) -> bool {
        &&& self.well_formed()
        &&& rhs.well_formed()
        &&& self.codomain == rhs.domain
        &&& self.domain + self.codomain + rhs.codomain <= u32::MAX
        &&& self.delta_power + rhs.delta_power + self.domain + self.codomain + rhs.codomain
            <= usize::MAX
    }

    open spec fn mul_spec(self, rhs: ExtendedPerfectMatching) -> ExtendedPerfectMatching {
        self
    }
}

impl Clone for ExtendedPerfectMatching {
    fn clone(&self) -> (r: ExtendedPerfectMatching)
        ensures
            r@ == self@,
    {
        ExtendedPerfectMatching {
            domain: self.domain,
            codomain: self.codomain,
            delta_power: self.delta_power,
            matching: self.matching.clone(),
        }
    }
}

impl Key for ExtendedPerfectMatching {
    fn key_eq(&self, other: &ExtendedPerfectMatching) -> (b: bool) {
        self.domain == other.domain && self.codomain == other.codomain && self.delta_power
            == other.delta_power && self.matching == other.matching
    }

    fn key_clone(&self) -> (c: ExtendedPerfectMatching) {
        self.clone()
    }
}

} // verus!
