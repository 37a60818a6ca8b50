//! The test for diagrams without crossings.

use vstd::prelude::*;
use itertools::Itertools;
use crate::matching::{identity_pairs, PerfectMatching};
use crate::pair::Pair;

verus! {

/// Both endpoints lie in the domain.
pub open spec fn is_source_line(p: Pair, source: int) -> bool {
    p.0 < source && p.1 < source
}

/// Both endpoints lie in the codomain.
pub open spec fn is_target_line(p: Pair, source: int) -> bool {
    p.0 >= source && p.1 >= source
}

/// One endpoint lies in the domain, the other in the codomain.
pub open spec fn is_through_line(p: Pair, source: int) -> bool {
    (p.0 < source && p.1 >= source) || (p.1 < source && p.0 >= source)
}

/// Exactly one endpoint of `q` lies strictly between the endpoints of `p`:
/// the two overlap and neither lies within the other.
pub open spec fn crosses(p: Pair, q: Pair) -> bool {
    p.contains_spec(q.0) != p.contains_spec(q.1)
}

/// Some line that stays on one side has `x` strictly between its endpoints.
pub open spec fn blocked(pairs: Seq<Pair>, source: int, x: usize) -> bool {
    exists|i: int|
        0 <= i < pairs.len() && !is_through_line(#[trigger] pairs[i], source)
            && pairs[i].contains_spec(x)
}

/// The diagram with `source` domain points has no crossing: lines on one
/// side are nested or apart, no through-line ends under a line that stays on
/// one side, and the through-lines keep their order.
pub open spec fn non_crossing_spec(pairs: Seq<Pair>, source: int) -> bool {
    &&& forall|i: int, j: int|
        0 <= i < j < pairs.len() && is_source_line(#[trigger] pairs[i], source) && is_source_line(
            #[trigger] pairs[j],
            source,
        ) ==> !crosses(pairs[i], pairs[j])
    &&& forall|i: int, j: int|
        0 <= i < j < pairs.len() && is_target_line(#[trigger] pairs[i], source) && is_target_line(
            #[trigger] pairs[j],
            source,
        ) ==> !crosses(pairs[i], pairs[j])
    &&& forall|i: int|
        0 <= i < pairs.len() && is_through_line(#[trigger] pairs[i], source) ==> !blocked(
            pairs,
            source,
            pairs[i].0,
        ) && !blocked(pairs, source, pairs[i].1)
    &&& forall|i: int, j: int|
        0 <= i < j < pairs.len() && is_through_line(#[trigger] pairs[i], source)
            && is_through_line(#[trigger] pairs[j], source) ==> pairs[i].high() <= pairs[j].high()
}

/// The lines at the places `i` and `j` of `lines`.
pub open spec fn choice(lines: Seq<Pair>, i: int, j: int) -> (Pair, Pair) {
    (lines[i], lines[j])
}

/// `item` holds an earlier and a later line of `lines`.
pub open spec fn is_choice(lines: Seq<Pair>, item: (Pair, Pair)) -> bool {
    exists|i: int, j: int| 0 <= i < j < lines.len() && item == #[trigger] choice(lines, i, j)
}

/// The line stays in the domain (`in_source`) or in the codomain.
pub open spec fn stays_on_side(p: Pair, source: int, in_source: bool) -> bool {
    if in_source {
        is_source_line(p, source)
    } else {
        is_target_line(p, source)
    }
}

/// `Itertools::combinations` of itertools, with length 2: every item holds
/// two lines, an earlier and a later one of `lines`, and every such choice of
/// two places is an item. An item is handed on as a tuple.
#[verifier::external_body]
fn pair_combinations(lines: &Vec<Pair>) -> (r: Vec<(Pair, Pair)>)
    ensures
        forall|k: int| 0 <= k < r@.len() ==> is_choice(lines@, #[trigger] r@[k]),
        forall|i: int, j: int|
            0 <= i < j < lines@.len() ==> r@.contains(#[trigger] choice(lines@, i, j)),
{
    lines.iter().cloned().combinations(2).map(|item| (item[0], item[1])).collect()
}

/// Whether no two of the lines cross.
fn none_cross(lines: &Vec<Pair>) -> (b: bool)
    ensures
        b == forall|i: int, j: int|
            0 <= i < j < lines@.len() ==> !crosses(#[trigger] lines@[i], #[trigger] lines@[j]),
{
    let tests = pair_combinations(lines);
    let mut k: usize = 0;
    while k < tests.len()
        invariant
            k <= tests@.len(),
            forall|t: int| 0 <= t < tests@.len() ==> is_choice(lines@, #[trigger] tests@[t]),
            forall|t: int| 0 <= t < k ==> !crosses((#[trigger] tests@[t]).0, tests@[t].1),
        decreases tests@.len() - k,
    {
        let first_block = tests[k].0;
        let second_block = tests[k].1;
        let a = first_block.contains(second_block.0);
        let b = first_block.contains(second_block.1);
        if a != b {
            proof {
                assert(is_choice(lines@, tests@[k as int]));
                let (i, j) = choose|i: int, j: int|
                    0 <= i < j < lines@.len() && tests@[k as int] == #[trigger] choice(lines@, i, j);
                assert(crosses(lines@[i], lines@[j]));
            }
            return false;
        }
        k += 1;
    }
    proof {
        assert forall|i: int, j: int| 0 <= i < j < lines@.len() implies !crosses(
            #[trigger] lines@[i],
            #[trigger] lines@[j],
        ) by {
            assert(tests@.contains(choice(lines@, i, j)));
            let t = choose|t: int| 0 <= t < tests@.len() && tests@[t] == choice(lines@, i, j);
            assert(!crosses(tests@[t].0, tests@[t].1));
        }
    }
    true
}

/// The lines that stay in the domain (`in_source`) or in the codomain, in
/// their order, with the place that each has in `pairs`.
fn side_lines(pairs: &Vec<Pair>, source: usize, in_source: bool) -> (r: (Vec<Pair>, Ghost<Seq<int>>))
    ensures
        r.0@.len() == r.1@.len(),
        forall|k: int|
            0 <= k < r.0@.len() ==> 0 <= #[trigger] r.1@[k] < pairs@.len() && r.0@[k]
                == pairs@[r.1@[k]],
        forall|k: int, m: int| 0 <= k < m < r.1@.len() ==> #[trigger] r.1@[k] < #[trigger] r.1@[m],
        forall|i: int|
            0 <= i < pairs@.len() && stays_on_side(#[trigger] pairs@[i], source as int, in_source) ==> exists|k: int| 0 <= k < r.1@.len() && #[trigger] r.1@[k] == i,
        forall|k: int|
            0 <= k < r.0@.len() ==> stays_on_side(#[trigger] r.0@[k], source as int, in_source),
{
    let mut out: Vec<Pair> = Vec::new();
    let ghost mut places: Seq<int> = Seq::empty();
    let mut i: usize = 0;
    while i < pairs.len()
        invariant
            i <= pairs@.len(),
            out@.len() == places.len(),
            forall|k: int|
                0 <= k < out@.len() ==> 0 <= #[trigger] places[k] < i && out@[k]
                    == pairs@[places[k]],
            forall|k: int, m: int|
                0 <= k < m < places.len() ==> #[trigger] places[k] < #[trigger] places[m],
            forall|t: int|
                0 <= t < i && stays_on_side(#[trigger] pairs@[t], source as int, in_source) ==> exists|k: int| 0 <= k < places.len() && #[trigger] places[k] == t,
            forall|k: int|
                0 <= k < out@.len() ==> stays_on_side(#[trigger] out@[k], source as int, in_source),
        decreases pairs@.len() - i,
    {
        let p = pairs[i];
        let keep = if in_source {
            p.0 < source && p.1 < source
        } else {
            p.0 >= source && p.1 >= source
        };
        if keep {
            let ghost before = places;
            out.push(p);
            proof {
                places = places.push(i as int);
                assert forall|t: int|
                    0 <= t < i + 1 && stays_on_side(#[trigger] pairs@[t], source as int, in_source) implies exists|k: int| 0 <= k < places.len() && #[trigger] places[k] == t by {
                    if t < i {
                        let k = choose|k: int| 0 <= k < before.len() && #[trigger] before[k] == t;
                        assert(places[k] == t);
                    } else {
                        assert(places[before.len() as int] == t);
                    }
                }
            }
        }
        i += 1;
    }
    (out, Ghost(places))
}

impl PerfectMatching {
    /// Whether the diagram with `source` domain points, the other endpoints
    /// being the codomain, can be drawn without crossings.
    pub fn non_crossing(&self, source: usize, _target: usize) -> (b: bool)
        ensures
            b == non_crossing_spec(self@, source as int),
    {
        let pairs = self.pairs();
        let (source_lines, Ghost(source_places)) = side_lines(pairs, source, true);
        if !none_cross(&source_lines) {
            proof {
                let (a, b) = choose|a: int, b: int|
                    0 <= a < b < source_lines@.len() && crosses(
                        #[trigger] source_lines@[a],
                        #[trigger] source_lines@[b],
                    );
                let i = source_places[a];
                let j = source_places[b];
                assert(is_source_line(pairs@[i], source as int) && is_source_line(
                    pairs@[j],
                    source as int,
                ));
            }
            return false;
        }
        proof {
            assert forall|i: int, j: int|
                0 <= i < j < pairs@.len() && is_source_line(#[trigger] pairs@[i], source as int)
                    && is_source_line(#[trigger] pairs@[j], source as int) implies !crosses(
                pairs@[i],
                pairs@[j],
            ) by {
                let a = choose|k: int| 0 <= k < source_places.len() && #[trigger] source_places[k] == i;
                let b = choose|k: int| 0 <= k < source_places.len() && #[trigger] source_places[k] == j;
                if a >= b {
                    if a > b {
                        assert(source_places[b] < source_places[a]);
                    }
                }
                assert(!crosses(source_lines@[a], source_lines@[b]));
            }
        }
        let (target_lines, Ghost(target_places)) = side_lines(pairs, source, false);
        if !none_cross(&target_lines) {
            proof {
                let (a, b) = choose|a: int, b: int|
                    0 <= a < b < target_lines@.len() && crosses(
                        #[trigger] target_lines@[a],
                        #[trigger] target_lines@[b],
                    );
                let i = target_places[a];
                let j = target_places[b];
                assert(is_target_line(pairs@[i], source as int) && is_target_line(
                    pairs@[j],
                    source as int,
                ));
            }
            return false;
        }
        proof {
            assert forall|i: int, j: int|
                0 <= i < j < pairs@.len() && is_target_line(#[trigger] pairs@[i], source as int)
                    && is_target_line(#[trigger] pairs@[j], source as int) implies !crosses(
                pairs@[i],
                pairs@[j],
            ) by {
                let a = choose|k: int| 0 <= k < target_places.len() && #[trigger] target_places[k] == i;
                let b = choose|k: int| 0 <= k < target_places.len() && #[trigger] target_places[k] == j;
                if a >= b {
                    if a > b {
                        assert(target_places[b] < target_places[a]);
                    }
                }
                assert(!crosses(target_lines@[a], target_lines@[b]));
            }
        }
        let mut i: usize = 0;
        while i < pairs.len()
            invariant
                i <= pairs@.len(),
                pairs@ == self@,
                forall|t: int|
                    0 <= t < i && is_through_line(#[trigger] pairs@[t], source as int) ==> !blocked(
                        pairs@,
                        source as int,
                        pairs@[t].0,
                    ) && !blocked(pairs@, source as int, pairs@[t].1),
            decreases pairs@.len() - i,
        {
            let p = pairs[i];
            if (p.0 < source && p.1 >= source) || (p.1 < source && p.0 >= source) {
                let mut k: usize = 0;
                while k < pairs.len()
                    invariant
                        k <= pairs@.len(),
                        i < pairs@.len(),
                        pairs@ == self@,
                        p == pairs@[i as int],
                        is_through_line(p, source as int),
                        forall|t: int|
                            0 <= t < k && !is_through_line(#[trigger] pairs@[t], source as int)
                                ==> !pairs@[t].contains_spec(p.0) && !pairs@[t].contains_spec(p.1),
                    decreases pairs@.len() - k,
                {
                    let q = pairs[k];
                    let through = (q.0 < source && q.1 >= source) || (q.1 < source && q.0
                        >= source);
                    if !through && (q.contains(p.0) || q.contains(p.1)) {
                        proof {
                            assert(!is_through_line(pairs@[k as int], source as int));
                            assert(pairs@[k as int].contains_spec(p.0) || pairs@[k as int].contains_spec(
                                p.1,
                            ));
                            assert(blocked(pairs@, source as int, p.0) || blocked(
                                pairs@,
                                source as int,
                                p.1,
                            ));
                            assert(is_through_line(pairs@[i as int], source as int));
                        }
                        return false;
                    }
                    k += 1;
                }
                proof {
                    assert(!blocked(pairs@, source as int, p.0));
                    assert(!blocked(pairs@, source as int, p.1));
                }
            }
            i += 1;
        }
        let mut seen = false;
        let mut last: usize = 0;
        let ghost mut last_place: int = 0;
        let mut j: usize = 0;
        while j < pairs.len()
            invariant
                j <= pairs@.len(),
                pairs@ == self@,
                seen ==> 0 <= last_place < j && is_through_line(pairs@[last_place], source as int)
                    && last == pairs@[last_place].high(),
                forall|t: int|
                    0 <= t < j && is_through_line(#[trigger] pairs@[t], source as int) ==> seen
                        && pairs@[t].high() <= last,
                forall|t: int, u: int|
                    0 <= t < u < j && is_through_line(#[trigger] pairs@[t], source as int)
                        && is_through_line(#[trigger] pairs@[u], source as int) ==> pairs@[t].high()
                        <= pairs@[u].high(),
            decreases pairs@.len() - j,
        {
            let p = pairs[j];
            if (p.0 < source && p.1 >= source) || (p.1 < source && p.0 >= source) {
                let w = if p.0 < p.1 {
                    p.1
                } else {
                    p.0
                };
                if seen && last > w {
                    proof {
                        assert(is_through_line(pairs@[last_place], source as int));
                        assert(is_through_line(pairs@[j as int], source as int));
                        assert(pairs@[last_place].high() > pairs@[j as int].high());
                    }
                    return false;
                }
                seen = true;
                last = w;
                proof {
                    last_place = j as int;
                }
            }
            j += 1;
        }
        true
    }
}

/// The identity diagram has no crossing: the matching that joins every
/// domain point to the codomain point above it is non-crossing, for every
/// number of points.
pub proof fn lemma_identity_non_crossing(n: nat)
    requires
        2 * n <= usize::MAX,
    ensures
        non_crossing_spec(identity_pairs(n), n as int),
{
    let pairs = identity_pairs(n);
    assert forall|i: int|
        0 <= i < pairs.len() && is_through_line(#[trigger] pairs[i], n as int) implies !blocked(
        pairs,
        n as int,
        pairs[i].0,
    ) && !blocked(pairs, n as int, pairs[i].1) by {
        assert forall|k: int| 0 <= k < pairs.len() implies is_through_line(
            #[trigger] pairs[k],
            n as int,
        ) by {}
    }
}

/// Two lines on the domain side that overlap without nesting are a
/// crossing: a diagram with at least four domain points that holds the pairs
/// `(0, 2)` and `(1, 3)` is not non-crossing.
pub proof fn lemma_overlap_is_crossing(pairs: Seq<Pair>, source: int, i: int, j: int)
    requires
        4 <= source,
        0 <= i < pairs.len(),
        0 <= j < pairs.len(),
        pairs[i] == Pair(0, 2),
        pairs[j] == Pair(1, 3),
    ensures
        !non_crossing_spec(pairs, source),
{
    assert(is_source_line(pairs[i], source));
    assert(is_source_line(pairs[j], source));
    if i < j {
        assert(crosses(pairs[i], pairs[j]));
    } else {
        assert(crosses(pairs[j], pairs[i]));
    }
}

} // verus!
