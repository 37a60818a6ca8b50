//! Unordered pairs of endpoint indices.

use vstd::prelude::*;

verus! {

/// Two endpoints that a diagram joins. The canonical form has the smaller
/// index first.
#[derive(Clone, Copy, PartialEq, Eq, Structural, Hash, Debug, PartialOrd, Ord)]
pub struct Pair(pub usize, pub usize);

impl Pair {
    /// The smaller of the two endpoints.
    pub open spec fn low(self) -> usize {
        if self.0 < self.1 {
            self.0
        } else {
            self.1
        }
    }

    /// The larger of the two endpoints.
    pub open spec fn high(self) -> usize {
        if self.0 < self.1 {
            self.1
        } else {
            self.0
        }
    }

    /// The pair with the smaller endpoint first.
    pub open spec fn sorted_spec(self) -> Pair {
        Pair(self.low(), self.high())
    }

    /// Whether `x` lies strictly between the two endpoints.
    pub open spec fn contains_spec(self, x: usize) -> bool {
        (x < self.0 && x > self.1) || (x < self.1 && x > self.0)
    }

    /// Whether `x` is one of the two endpoints.
    pub open spec fn touches(self, x: int) -> bool {
        self.0 == x || self.1 == x
    }

    /// The endpoint that the pair joins to `x`, where `x` is one of the two.
    pub open spec fn other(self, x: int) -> int {
        if self.0 == x {
            self.1 as int
        } else {
            self.0 as int
        }
    }

    /// The two endpoints, first then second.
    pub fn iter(&self) -> (r: Vec<usize>)
        ensures
            r@ == seq![self.0, self.1],
    {
        let mut r: Vec<usize> = Vec::new();
        r.push(self.0);
        r.push(self.1);
        assert(r@ =~= seq![self.0, self.1]);
        r
    }

    /// The pair of what `f` makes of each endpoint.
    pub fn map<F: Fn(usize) -> usize>(&self, f: F) -> (r: Pair)
        requires
            call_requires(f, (self.0,)),
            call_requires(f, (self.1,)),
        ensures
            call_ensures(f, (self.0,), r.0),
            call_ensures(f, (self.1,), r.1),
    {
        Pair(f(self.0), f(self.1))
    }

    /// Whether `f` holds of both endpoints. The second is not asked where the
    /// first fails.
    pub fn all<F: Fn(usize) -> bool>(&self, f: F) -> (b: bool)
        requires
            call_requires(f, (self.0,)),
            call_requires(f, (self.1,)),
        ensures
            b ==> call_ensures(f, (self.0,), true) && call_ensures(f, (self.1,), true),
            !b ==> call_ensures(f, (self.0,), false) || call_ensures(f, (self.1,), false),
    {
        f(self.0) && f(self.1)
    }

    /// Whether `f` holds of one endpoint at least. The second is not asked
    /// where the first succeeds.
    pub fn any<F: Fn(usize) -> bool>(&self, f: F) -> (b: bool)
        requires
            call_requires(f, (self.0,)),
            call_requires(f, (self.1,)),
        ensures
            b ==> call_ensures(f, (self.0,), true) || call_ensures(f, (self.1,), true),
            !b ==> call_ensures(f, (self.0,), false) && call_ensures(f, (self.1,), false),
    {
        f(self.0) || f(self.1)
    }

    /// Where an endpoint goes when domain and codomain change places.
    pub open spec fn flip_index(v: int, source: int, target: int) -> int {
        if v < source {
            v + target
        } else {
            v - source
        }
    }

    /// The pair after domain and codomain have changed places: an endpoint
    /// below `source` moves up by `target`, any other moves down by `source`.
    pub fn flip_upside_down(&self, source: usize, target: usize) -> (r: Pair)
        requires
            self.0 < source ==> self.0 + target <= usize::MAX,
            self.1 < source ==> self.1 + target <= usize::MAX,
        ensures
            r.0 == Self::flip_index(self.0 as int, source as int, target as int),
            r.1 == Self::flip_index(self.1 as int, source as int, target as int),
    {
        let a = if self.0 < source {
            self.0 + target
        } else {
            self.0 - source
        };
        let b = if self.1 < source {
            self.1 + target
        } else {
            self.1 - source
        };
        Pair(a, b)
    }

    /// The same pair with the smaller endpoint first.
    pub fn sort(&self) -> (r: Pair)
        ensures
            r == self.sorted_spec(),
    {
        Self::sorted(self.0, self.1)
    }

    /// The pair of `x` and `y` with the smaller first.
    pub fn sorted(x: usize, y: usize) -> (r: Pair)
        ensures
            r == Pair(x, y).sorted_spec(),
    {
        if x < y {
            Pair(x, y)
        } else {
            Pair(y, x)
        }
    }

    /// Whether `x` lies strictly between the two endpoints.
    pub fn contains(&self, x: usize) -> (b: bool)
        ensures
            b == self.contains_spec(x),
    {
        (x < self.0 && x > self.1) || (x < self.1 && x > self.0)
    }
}

impl From<(usize, usize)> for Pair {
    fn from(value: (usize, usize)) -> (r: Pair) {
        Pair(value.0, value.1)
    }
}

impl vstd::std_specs::convert::FromSpecImpl<(usize, usize)> for Pair {
    open spec fn obeys_from_spec() -> bool {
        true
    }

    open spec fn from_spec(value: (usize, usize)) -> Pair {
        Pair(value.0, value.1)
    }
}

} // verus!
