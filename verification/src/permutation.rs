//! Permutations of `0..n`: as the list of the images, and as values of the
//! permutations crate.

use vstd::prelude::*;
use permutations::Permutation;
use rand::distributions::Uniform;
use rand::prelude::Distribution;
use crate::error::DiagramError;
use crate::key::Key;
use crate::seam::lemma_pigeonhole;

verus! {

/// The index `e` occurs in `p`.
pub open spec fn occurs(p: Seq<usize>, e: int) -> bool {
    exists|i: int| 0 <= i < p.len() && #[trigger] p[i] == e
}

/// Every index below the length occurs in `p`.
pub open spec fn is_permutation(p: Seq<usize>) -> bool {
    forall|e: int| 0 <= e < p.len() ==> #[trigger] occurs(p, e)
}

/// In a permutation every image is below the length, and no image occurs twice.
pub proof fn lemma_permutation_injective(p: Seq<usize>)
    requires
        is_permutation(p),
    ensures
        forall|i: int| 0 <= i < p.len() ==> #[trigger] p[i] < p.len(),
        forall|i: int, j: int| 0 <= i < j < p.len() ==> #[trigger] p[i] != #[trigger] p[j],
{
    let n = p.len() as int;
    // The place at which every index occurs.
    let at = |e: int| choose|i: int| 0 <= i < p.len() && #[trigger] p[i] == e;
    assert forall|e: int| 0 <= e < n implies 0 <= #[trigger] at(e) < n && p[at(e)] == e by {
        assert(occurs(p, e));
    }
    if exists|i: int| 0 <= i < n && #[trigger] p[i] >= n {
        let bad = choose|i: int| 0 <= i < n && #[trigger] p[i] >= n;
        // The `n` indices occur at `n` places other than `bad`.
        let f = |e: int|
            if at(e) < bad {
                at(e)
            } else {
                at(e) - 1
            };
        if n > 0 {
            assert forall|e: int| 0 <= e < n implies 0 <= #[trigger] f(e) < n - 1 by {
                assert(0 <= at(e) < n && p[at(e)] == e);
            }
            lemma_pigeonhole(f, n, n - 1);
            let (a, b) = choose|a: int, b: int| 0 <= a < b < n && #[trigger] f(a) == #[trigger] f(b);
            assert(0 <= at(a) < n && p[at(a)] == a);
            assert(0 <= at(b) < n && p[at(b)] == b);
        }
    }
    if exists|i: int, j: int| 0 <= i < j < n && #[trigger] p[i] == #[trigger] p[j] {
        let (i, j) = choose|i: int, j: int| 0 <= i < j < n && #[trigger] p[i] == #[trigger] p[j];
        // No index occurs at `j` alone, so the `n` indices occur at `n - 1` places.
        let f = |e: int|
            if at(e) < j {
                at(e)
            } else if at(e) == j {
                i
            } else {
                at(e) - 1
            };
        assert forall|e: int| 0 <= e < n implies 0 <= #[trigger] f(e) < n - 1 by {
            assert(0 <= at(e) < n && p[at(e)] == e);
        }
        lemma_pigeonhole(f, n, n - 1);
        let (a, b) = choose|a: int, b: int| 0 <= a < b < n && #[trigger] f(a) == #[trigger] f(b);
        assert(0 <= at(a) < n && p[at(a)] == a);
        assert(0 <= at(b) < n && p[at(b)] == b);
    }
}

/// Whether every index below the length occurs in `v`.
pub fn check_permutation(v: &Vec<usize>) -> (b: bool)
    ensures
        b == is_permutation(v@),
{
    let n = v.len();
    let mut seen: Vec<bool> = Vec::new();
    let mut i: usize = 0;
    while i < n
        invariant
            i <= n,
            seen@.len() == i,
            forall|k: int| 0 <= k < i ==> !#[trigger] seen@[k],
        decreases n - i,
    {
        seen.push(false);
        i += 1;
    }
    let mut k: usize = 0;
    while k < n
        invariant
            k <= n,
            n == v@.len(),
            seen@.len() == n,
            forall|e: int|
                0 <= e < n ==> (#[trigger] seen@[e] <==> exists|j: int|
                    0 <= j < k && #[trigger] v@[j] == e),
        decreases n - k,
    {
        let e = v[k];
        if e < n {
            let ghost prev = seen@;
            seen.set(e, true);
            proof {
                assert forall|x: int| 0 <= x < n implies (#[trigger] seen@[x] <==> exists|j: int|
                    0 <= j < k + 1 && #[trigger] v@[j] == x) by {
                    if x == e {
                        assert(v@[k as int] == x);
                    } else if prev[x] {
                        let j = choose|j: int| 0 <= j < k && #[trigger] v@[j] == x;
                        assert(v@[j] == x);
                    }
                }
            }
        }
        k += 1;
    }
    let mut e: usize = 0;
    while e < n
        invariant
            e <= n,
            n == v@.len(),
            seen@.len() == n,
            forall|x: int|
                0 <= x < n ==> (#[trigger] seen@[x] <==> exists|j: int|
                    0 <= j < n && #[trigger] v@[j] == x),
            forall|x: int| 0 <= x < e ==> #[trigger] occurs(v@, x),
        decreases n - e,
    {
        if !seen[e] {
            proof {
                if occurs(v@, e as int) {
                    let j = choose|j: int| 0 <= j < v@.len() && #[trigger] v@[j] == e;
                    assert(v@[j] == e);
                }
            }
            return false;
        }
        proof {
            let j = choose|j: int| 0 <= j < n && #[trigger] v@[j] == e;
            assert(v@[j] == e);
        }
        e += 1;
    }
    true
}

/// The first place at which `x` stands in `s`, if it stands there.
pub open spec fn first_place<T: Key>(s: Seq<T>, x: T, place: int) -> bool {
    &&& 0 <= place < s.len()
    &&& s[place]@ == x@
    &&& forall|k: int| 0 <= k < place ==> (#[trigger] s[k])@ != x@
}

/// The first place at which `x` stands in `s`.
pub fn position<T: Key>(s: &[T], x: &T) -> (r: Option<usize>)
    ensures
        match r {
            Some(place) => first_place(s@, *x, place as int),
            None => forall|k: int| 0 <= k < s@.len() ==> (#[trigger] s@[k])@ != x@,
        },
{
    let mut i: usize = 0;
    while i < s.len()
        invariant
            i <= s@.len(),
            forall|k: int| 0 <= k < i ==> (#[trigger] s@[k])@ != x@,
        decreases s@.len() - i,
    {
        if s[i].key_eq(x) {
            return Some(i);
        }
        i += 1;
    }
    None
}

/// `places` holds, for every value of `side_1`, the first place at which it
/// stands in `side_2`.
pub open spec fn are_first_places<T: Key>(side_1: Seq<T>, side_2: Seq<T>, places: Seq<usize>) -> bool {
    &&& places.len() == side_1.len()
    &&& forall|i: int|
        0 <= i < side_1.len() ==> first_place(side_2, side_1[i], #[trigger] places[i] as int)
}

/// The first places of the values of `side_1` in `side_2`, where the two
/// have one length and every value of `side_1` stands in `side_2`.
pub fn first_places<T: Key>(side_1: &[T], side_2: &[T]) -> (r: Option<Vec<usize>>)
    ensures
        match r {
            Some(places) => side_1@.len() == side_2@.len() && are_first_places(
                side_1@,
                side_2@,
                places@,
            ),
            None => side_1@.len() != side_2@.len() || !exists|places: Seq<usize>| #[trigger]
                are_first_places(side_1@, side_2@, places),
        },
{
    let n1 = side_1.len();
    let n2 = side_2.len();
    if n1 != n2 {
        return None;
    }
    let mut trial_perm: Vec<usize> = Vec::new();
    let mut i: usize = 0;
    while i < n1
        invariant
            i <= n1,
            n1 == side_1@.len(),
            trial_perm@.len() == i,
            forall|k: int|
                0 <= k < i ==> first_place(side_2@, side_1@[k], #[trigger] trial_perm@[k] as int),
        decreases n1 - i,
    {
        match position(side_2, &side_1[i]) {
            Some(idx) => {
                trial_perm.push(idx);
            },
            None => {
                proof {
                    assert forall|places: Seq<usize>| #[trigger]
                        are_first_places(side_1@, side_2@, places) implies false by {
                        assert(first_place(side_2@, side_1@[i as int], places[i as int] as int));
                    }
                }
                return None;
            },
        }
        i += 1;
    }
    Some(trial_perm)
}

/// The list of first places is what it is: two such lists are one list.
pub proof fn lemma_first_places_unique<T: Key>(
    side_1: Seq<T>,
    side_2: Seq<T>,
    a: Seq<usize>,
    b: Seq<usize>,
)
    requires
        are_first_places(side_1, side_2, a),
        are_first_places(side_1, side_2, b),
    ensures
        a == b,
{
    assert forall|k: int| 0 <= k < a.len() implies a[k] == b[k] by {
        assert(first_place(side_2, side_1[k], a[k] as int));
        assert(first_place(side_2, side_1[k], b[k] as int));
    }
    assert(a =~= b);
}

/// `Permutation` of the permutations crate. Nothing of its inside is known
/// here: its images are told by `perm_images`.
#[verifier::external_type_specification]
#[verifier::external_body]
pub struct ExPermutation(Permutation);

/// The images of `0`, `1`, ... under a permutation.
pub uninterp spec fn perm_images(p: Permutation) -> Seq<usize>;

/// `Permutation::len` of the permutations crate: the number of images.
#[verifier::external_body]
pub(crate) fn perm_len(p: &Permutation) -> (n: usize)
    ensures
        n == perm_images(*p).len(),
{
    p.len()
}

/// `Permutation::apply` of the permutations crate: the image of `i`. It
/// panics where `i` is not below the length.
#[verifier::external_body]
pub(crate) fn perm_apply(p: &Permutation, i: usize) -> (r: usize)
    requires
        i < perm_images(*p).len(),
    ensures
        r == perm_images(*p)[i as int],
{
    p.apply(i)
}

/// `Permutation::try_from` of the permutations crate, for a vector: the
/// permutation with the images `v`, where every index below the length
/// occurs in `v`, and nothing else.
#[verifier::external_body]
pub(crate) fn perm_try_from(v: Vec<usize>) -> (r: Option<Permutation>)
    ensures
        match r {
            Some(p) => perm_images(p) == v@ && is_permutation(v@),
            None => !is_permutation(v@),
        },
{
    Permutation::try_from(v).ok()
}

/// `Permutation::inv` of the permutations crate: the permutation that sends
/// every image back. It panics where an image is not below the length.
#[verifier::external_body]
pub(crate) fn perm_inv(p: &Permutation) -> (r: Permutation)
    requires
        is_permutation(perm_images(*p)),
    ensures
        perm_images(r).len() == perm_images(*p).len(),
        forall|i: int|
            0 <= i < perm_images(*p).len() ==> #[trigger] perm_images(r)[perm_images(*p)[i] as int]
                == i,
{
    p.inv()
}

/// `Permutation::identity` of the permutations crate: every index is its own image.
#[verifier::external_body]
pub(crate) fn perm_identity(n: usize) -> (r: Permutation)
    ensures
        perm_images(r) == identity_seq(n as nat),
{
    Permutation::identity(n)
}

/// `Permutation::transposition` of the permutations crate: `i` and `j`
/// change places, every other index is its own image. It panics where `i`
/// or `j` is not below `n`.
#[verifier::external_body]
pub(crate) fn perm_transposition(n: usize, i: usize, j: usize) -> (r: Permutation)
    requires
        i < n,
        j < n,
    ensures
        perm_images(r) == swapped(identity_seq(n as nat), i as int, j as int),
{
    Permutation::transposition(n, i, j)
}

/// The product of two permutations in the permutations crate: the image of
/// an index under `a`, and then under `b`. It panics where the lengths
/// differ or an image of `a` is not below the length.
#[verifier::external_body]
pub(crate) fn perm_mul(a: Permutation, b: Permutation) -> (r: Permutation)
    requires
        perm_images(a).len() == perm_images(b).len(),
        forall|i: int| 0 <= i < perm_images(a).len() ==> #[trigger] perm_images(a)[i] < perm_images(
            a,
        ).len(),
    ensures
        perm_images(r).len() == perm_images(a).len(),
        forall|i: int|
            0 <= i < perm_images(a).len() ==> #[trigger] perm_images(r)[i] == perm_images(
                b,
            )[perm_images(a)[i] as int],
{
    a * b
}

/// A sample of `Uniform::from(0..n)` of rand, drawn with the generator of
/// the thread: some index below `n`. It panics where `n` is 0.
#[verifier::external_body]
pub(crate) fn random_below(n: usize) -> (r: usize)
    requires
        n > 0,
    ensures
        r < n,
{
    Uniform::from(0..n).sample(&mut rand::thread_rng())
}

/// The images of a permutation as a vector.
pub fn images_of(p: &Permutation) -> (r: Vec<usize>)
    ensures
        r@ == perm_images(*p),
{
    let n = perm_len(p);
    let mut r: Vec<usize> = Vec::new();
    let mut i: usize = 0;
    while i < n
        invariant
            i <= n,
            n == perm_images(*p).len(),
            r@ == perm_images(*p).take(i as int),
        decreases n - i,
    {
        r.push(perm_apply(p, i));
        proof {
            assert(perm_images(*p).take(i + 1) =~= perm_images(*p).take(i as int).push(
                perm_images(*p)[i as int],
            ));
        }
        i += 1;
    }
    proof {
        assert(perm_images(*p).take(n as int) =~= perm_images(*p));
    }
    r
}

/// The permutation that takes `side_1` to `side_2`: the inverse of the list
/// that holds, for every value of `side_1`, its first place in `side_2`.
/// There is none where the lengths differ, where a value of `side_1` does
/// not stand in `side_2`, or where two values of `side_1` have one place.
pub fn necessary_permutation<T: Key>(side_1: &[T], side_2: &[T]) -> (r: Result<
    Permutation,
    DiagramError,
>)
    ensures
        match r {
            Ok(p) => exists|places: Seq<usize>|
                {
                    &&& #[trigger] are_first_places(side_1@, side_2@, places)
                    &&& is_permutation(places)
                    &&& side_1@.len() == side_2@.len()
                    &&& perm_images(p).len() == places.len()
                    &&& forall|i: int|
                        0 <= i < places.len() ==> #[trigger] perm_images(p)[places[i] as int] == i
                },
            Err(e) => {
                &&& e == DiagramError::NoPermutation
                &&& !exists|places: Seq<usize>|
                    {
                        &&& #[trigger] are_first_places(side_1@, side_2@, places)
                        &&& is_permutation(places)
                        &&& side_1@.len() == side_2@.len()
                    }
            },
        },
{
    match first_places(side_1, side_2) {
        None => Err(DiagramError::NoPermutation),
        Some(trial_perm) => {
            let ghost places = trial_perm@;
            proof {
                assert forall|other: Seq<usize>| #[trigger]
                    are_first_places(side_1@, side_2@, other) implies other == places by {
                    lemma_first_places_unique(side_1@, side_2@, other, places);
                }
            }
            match perm_try_from(trial_perm) {
                Some(p) => {
                    let inverse = perm_inv(&p);
                    proof {
                        assert(are_first_places(side_1@, side_2@, places));
                    }
                    Ok(inverse)
                },
                None => Err(DiagramError::NoPermutation),
            }
        },
    }
}

/// The list with the values at the places `a` and `b` exchanged.
pub open spec fn swapped<A>(s: Seq<A>, a: int, b: int) -> Seq<A> {
    s.update(a, s[b]).update(b, s[a])
}

/// The list after the exchanges `swaps`, one after the other.
pub open spec fn apply_swaps<A>(s: Seq<A>, swaps: Seq<(usize, usize)>) -> Seq<A>
    decreases swaps.len(),
{
    if swaps.len() == 0 {
        s
    } else {
        swapped(apply_swaps(s, swaps.drop_last()), swaps.last().0 as int, swaps.last().1 as int)
    }
}

/// The list that has at every place `x` the value that `s` has at `p[x]`.
pub open spec fn permuted<A>(s: Seq<A>, p: Seq<usize>) -> Seq<A> {
    Seq::new(s.len(), |x: int| s[p[x] as int])
}

/// The list `0`, `1`, ..., up to `n`.
pub open spec fn identity_seq(n: nat) -> Seq<usize> {
    Seq::new(n, |i: int| i as usize)
}

/// `p` sends the index `x` to another index.
pub open spec fn is_moved(p: Seq<usize>, x: int) -> bool {
    0 <= x < p.len() && p[x] != x
}

/// The list that has at every place `x` below the length of `p` the value
/// that `s` has at `p[x]`, and the values of `s` at the places from there on.
pub open spec fn permuted_part<A>(s: Seq<A>, p: Seq<usize>) -> Seq<A> {
    Seq::new(
        s.len(),
        |x: int|
            if x < p.len() {
                s[p[x] as int]
            } else {
                s[x]
            },
    )
}

/// Exchanges among the first `n` places move the values of a list of any
/// length as they move the indices below `n`.
pub proof fn lemma_swaps_carry<A>(s: Seq<A>, n: nat, swaps: Seq<(usize, usize)>)
    requires
        n <= usize::MAX,
        forall|k: int|
            0 <= k < swaps.len() ==> (#[trigger] swaps[k]).0 < n && swaps[k].0 < s.len()
                && swaps[k].1 < n && swaps[k].1 < s.len(),
    ensures
        apply_swaps(s, swaps).len() == s.len(),
        apply_swaps(identity_seq(n), swaps).len() == n,
        forall|x: int|
            0 <= x < n && x < s.len() ==> #[trigger] apply_swaps(identity_seq(n), swaps)[x]
                < s.len(),
        forall|x: int|
            s.len() <= x < n ==> #[trigger] apply_swaps(identity_seq(n), swaps)[x] == x,
        apply_swaps(s, swaps) == permuted_part(s, apply_swaps(identity_seq(n), swaps)),
    decreases swaps.len(),
{
    let id = identity_seq(n);
    if swaps.len() == 0 {
        assert(apply_swaps(s, swaps) =~= permuted_part(s, apply_swaps(id, swaps)));
    } else {
        let head = swaps.drop_last();
        assert forall|k: int| 0 <= k < head.len() implies (#[trigger] head[k]).0 < n && head[k].0
            < s.len() && head[k].1 < n && head[k].1 < s.len() by {
            assert(head[k] == swaps[k]);
        }
        lemma_swaps_carry(s, n, head);
        assert(swaps[swaps.len() - 1].0 < n);
        assert(apply_swaps(s, swaps) =~= permuted_part(s, apply_swaps(id, swaps)));
    }
}

/// Exchanges move the values of any list as they move the indices.
pub proof fn lemma_swaps_permute<A>(s: Seq<A>, swaps: Seq<(usize, usize)>)
    requires
        s.len() <= usize::MAX,
        forall|k: int|
            0 <= k < swaps.len() ==> (#[trigger] swaps[k]).0 < s.len() && swaps[k].1 < s.len(),
    ensures
        apply_swaps(s, swaps).len() == s.len(),
        apply_swaps(identity_seq(s.len()), swaps).len() == s.len(),
        forall|x: int|
            0 <= x < s.len() ==> #[trigger] apply_swaps(identity_seq(s.len()), swaps)[x] < s.len(),
        apply_swaps(s, swaps) == permuted(s, apply_swaps(identity_seq(s.len()), swaps)),
    decreases swaps.len(),
{
    let id = identity_seq(s.len());
    if swaps.len() == 0 {
        assert(apply_swaps(s, swaps) =~= permuted(s, apply_swaps(id, swaps)));
    } else {
        let head = swaps.drop_last();
        assert forall|k: int| 0 <= k < head.len() implies (#[trigger] head[k]).0 < s.len()
            && head[k].1 < s.len() by {
            assert(head[k] == swaps[k]);
        }
        lemma_swaps_permute(s, head);
        assert(swaps[swaps.len() - 1].0 < s.len());
        assert(apply_swaps(s, swaps) =~= permuted(s, apply_swaps(id, swaps)));
    }
}

/// A list of distinct indices below `n` has at most `n` entries.
proof fn lemma_distinct_bounded(walk: Seq<usize>, n: int)
    requires
        0 <= n,
        forall|k: int| 0 <= k < walk.len() ==> #[trigger] walk[k] < n,
        forall|k: int, m: int| 0 <= k < m < walk.len() ==> #[trigger] walk[k] != #[trigger] walk[m],
    ensures
        walk.len() <= n,
{
    if walk.len() > n {
        let f = |k: int| walk[k] as int;
        lemma_pigeonhole(f, walk.len() as int, n);
    }
}

/// The place at which every index occurs in `p`.
pub open spec fn places_of(p: Seq<usize>) -> Seq<int> {
    Seq::new(p.len(), |e: int| choose|i: int| 0 <= i < p.len() && #[trigger] p[i] == e)
}

/// Every image is below the length, and every index is found again from its image.
#[verifier::opaque]
pub open spec fn one_to_one(p: Seq<usize>) -> bool {
    forall|x: int| 0 <= x < p.len() ==> #[trigger] p[x] < p.len() && places_of(p)[p[x] as int] == x
}

/// A permutation is one-to-one.
pub proof fn lemma_one_to_one(p: Seq<usize>)
    requires
        is_permutation(p),
    ensures
        one_to_one(p),
{
    reveal(one_to_one);
    lemma_permutation_injective(p);
    assert forall|x: int| 0 <= x < p.len() implies #[trigger] p[x] < p.len() && places_of(p)[p[x] as int]
        == x by {
        let e = p[x] as int;
        let i = choose|i: int| 0 <= i < p.len() && #[trigger] p[i] == e;
        if i < x {
            assert(p[i] != p[x]);
        } else if x < i {
            assert(p[x] != p[i]);
        }
    }
}

/// The marked indices are whole cycles: an index is marked exactly when its
/// image is.
#[verifier::opaque]
pub open spec fn whole_cycles(p: Seq<usize>, seen: Seq<bool>) -> bool {
    &&& seen.len() == p.len()
    &&& forall|x: int| 0 <= x < p.len() ==> (#[trigger] seen[x] <==> seen[p[x] as int])
}

/// `walk` follows `p` from index to image, over distinct indices that were
/// not marked in `seen0`.
#[verifier::opaque]
pub open spec fn follows(p: Seq<usize>, seen0: Seq<bool>, walk: Seq<usize>) -> bool {
    &&& walk.len() >= 1
    &&& forall|t: int|
        0 <= t < walk.len() ==> #[trigger] walk[t] < p.len() && !seen0[walk[t] as int]
    &&& forall|t: int| 0 <= t < walk.len() - 1 ==> walk[t + 1] == p[#[trigger] walk[t] as int]
    &&& forall|t: int, u: int| 0 <= t < u < walk.len() ==> #[trigger] walk[t] != #[trigger] walk[u]
}

/// `seen` marks what `seen0` marks, and the indices of `walk`.
#[verifier::opaque]
pub open spec fn marks(seen: Seq<bool>, seen0: Seq<bool>, walk: Seq<usize>) -> bool {
    &&& seen.len() == seen0.len()
    &&& forall|x: int|
        0 <= x < seen.len() ==> (#[trigger] seen[x] <==> seen0[x] || walk.contains(x as usize))
}

/// Every marked index has been moved to its image and every other index is
/// in its place, but that the index `hole` holds the index `start`.
#[verifier::opaque]
pub open spec fn moved(p: Seq<usize>, state: Seq<usize>, seen: Seq<bool>, hole: int, start: int) -> bool {
    &&& state.len() == p.len()
    &&& seen.len() == p.len()
    &&& forall|x: int|
        0 <= x < p.len() ==> #[trigger] state[x] == if x == hole {
            start
        } else if seen[x] {
            p[x] as int
        } else {
            x
        }
}

/// Starting a walk at an index that is not marked.
proof fn lemma_walk_start(p: Seq<usize>, state: Seq<usize>, seen0: Seq<bool>, i: int)
    requires
        one_to_one(p),
        whole_cycles(p, seen0),
        moved(p, state, seen0, -1, -1),
        0 <= i < p.len(),
        !seen0[i],
        p.len() <= usize::MAX,
    ensures
        follows(p, seen0, seq![i as usize]),
        marks(seen0.update(i, true), seen0, seq![i as usize]),
        moved(p, state, seen0.update(i, true), i, i),
{
    reveal(one_to_one);
    reveal(whole_cycles);
    reveal(follows);
    reveal(marks);
    reveal(moved);
    let walk = seq![i as usize];
    let seen = seen0.update(i, true);
    assert forall|x: int| 0 <= x < seen.len() implies (#[trigger] seen[x] <==> seen0[x]
        || walk.contains(x as usize)) by {
        if x == i {
            assert(walk[0] == x as usize);
        }
    }
}

/// The next index of a walk that has not come back to its start is new:
/// neither an earlier walk nor this one has been there.
proof fn lemma_walk_next_is_new(p: Seq<usize>, seen0: Seq<bool>, walk: Seq<usize>, j: usize)
    requires
        one_to_one(p),
        whole_cycles(p, seen0),
        follows(p, seen0, walk),
        j == p[walk.last() as int],
        j != walk[0],
        p.len() <= usize::MAX,
    ensures
        j < p.len(),
        walk.last() < p.len(),
        !seen0[j as int],
        !walk.contains(j),
{
    reveal(one_to_one);
    reveal(whole_cycles);
    reveal(follows);
    let last = walk.last() as int;
    assert(walk[walk.len() - 1] < p.len());
    if seen0[j as int] {
        assert(seen0[last] <==> seen0[p[last] as int]);
    }
    if walk.contains(j) {
        let m = choose|m: int| 0 <= m < walk.len() && walk[m] == j;
        assert(m >= 1);
        assert(walk[m - 1 + 1] == p[walk[m - 1] as int]);
        let y = walk[m - 1] as int;
        assert(walk[m - 1] < p.len());
        assert(places_of(p)[p[y] as int] == y);
        assert(places_of(p)[p[last] as int] == last);
        assert(walk[m - 1] != walk[walk.len() - 1]);
    }
}

/// A walk with a new next index goes on.
proof fn lemma_walk_goes_on(p: Seq<usize>, seen0: Seq<bool>, walk: Seq<usize>, j: usize)
    requires
        follows(p, seen0, walk),
        j == p[walk.last() as int],
        j < p.len(),
        !seen0[j as int],
        !walk.contains(j),
    ensures
        follows(p, seen0, walk.push(j)),
        walk.len() < p.len(),
{
    reveal(follows);
    let longer = walk.push(j);
    assert forall|t: int| 0 <= t < longer.len() - 1 implies longer[t + 1] == p[#[trigger] longer[t] as int] by {
        if t < walk.len() - 1 {
            assert(walk[t + 1] == p[walk[t] as int]);
        }
    }
    assert forall|t: int, u: int| 0 <= t < u < longer.len() implies #[trigger] longer[t]
        != #[trigger] longer[u] by {
        if u < walk.len() {
            assert(walk[t] != walk[u]);
        } else {
            assert(walk.contains(walk[t]));
        }
    }
    lemma_distinct_bounded(longer, p.len() as int);
}

/// Marking the next index of a walk marks the longer walk.
proof fn lemma_walk_marks(seen: Seq<bool>, seen0: Seq<bool>, walk: Seq<usize>, j: usize)
    requires
        marks(seen, seen0, walk),
        j < seen.len(),
        seen.len() <= usize::MAX,
    ensures
        marks(seen.update(j as int, true), seen0, walk.push(j)),
        !seen0[j as int] && !walk.contains(j) ==> !seen[j as int],
        walk.len() >= 1 && walk.last() < seen.len() ==> seen[walk.last() as int],
{
    reveal(marks);
    let longer = walk.push(j);
    let marked = seen.update(j as int, true);
    assert forall|x: int| 0 <= x < marked.len() implies (#[trigger] marked[x] <==> seen0[x]
        || longer.contains(x as usize)) by {
        if walk.contains(x as usize) {
            let m = choose|m: int| 0 <= m < walk.len() && walk[m] == x as usize;
            assert(longer[m] == x as usize);
        }
        if x == j {
            assert(longer[longer.len() - 1] == x as usize);
        }
        if longer.contains(x as usize) && x != j {
            let m = choose|m: int| 0 <= m < longer.len() && longer[m] == x as usize;
            assert(walk[m] == x as usize);
        }
    }
    if walk.len() >= 1 && walk.last() < seen.len() {
        assert(walk.contains(walk[walk.len() - 1]));
    }
}

/// Exchanging the hole with the next index moves the hole on.
proof fn lemma_walk_moves(
    p: Seq<usize>,
    state: Seq<usize>,
    seen: Seq<bool>,
    hole: int,
    start: int,
    j: usize,
)
    requires
        moved(p, state, seen, hole, start),
        0 <= hole < p.len(),
        j < p.len(),
        j == p[hole],
        seen[hole],
        !seen[j as int],
        j != hole,
    ensures
        moved(p, swapped(state, hole, j as int), seen.update(j as int, true), j as int, start),
{
    reveal(moved);
}

/// The image of an index that is moved is moved too.
proof fn lemma_image_is_moved(p: Seq<usize>, x: int)
    requires
        one_to_one(p),
        is_moved(p, x),
    ensures
        is_moved(p, p[x] as int),
{
    reveal(one_to_one);
    let y = p[x] as int;
    assert(places_of(p)[p[x] as int] == x);
    assert(places_of(p)[p[y] as int] == y);
}

/// One step of a walk that has not come back to its start.
proof fn lemma_walk_step(
    p: Seq<usize>,
    state: Seq<usize>,
    seen: Seq<bool>,
    seen0: Seq<bool>,
    walk: Seq<usize>,
    j: usize,
)
    requires
        one_to_one(p),
        whole_cycles(p, seen0),
        follows(p, seen0, walk),
        marks(seen, seen0, walk),
        moved(p, state, seen, walk.last() as int, walk[0] as int),
        j == p[walk.last() as int],
        j != walk[0],
        p.len() <= usize::MAX,
    ensures
        j < p.len(),
        walk.len() < p.len(),
        !seen[j as int],
        is_moved(p, walk.last() as int),
        is_moved(p, j as int),
        follows(p, seen0, walk.push(j)),
        marks(seen.update(j as int, true), seen0, walk.push(j)),
        moved(
            p,
            swapped(state, walk.last() as int, j as int),
            seen.update(j as int, true),
            j as int,
            walk[0] as int,
        ),
{
    lemma_walk_next_is_new(p, seen0, walk, j);
    lemma_walk_goes_on(p, seen0, walk, j);
    assert(seen.len() == p.len()) by {
        reveal(moved);
    }
    lemma_walk_marks(seen, seen0, walk, j);
    assert(walk.len() >= 1) by {
        reveal(follows);
    }
    assert(j != walk.last()) by {
        assert(walk.contains(walk[walk.len() - 1]));
    }
    lemma_walk_moves(p, state, seen, walk.last() as int, walk[0] as int, j);
    lemma_image_is_moved(p, walk.last() as int);
}

/// A walk that has come back to its start is a whole cycle.
proof fn lemma_walk_end(
    p: Seq<usize>,
    state: Seq<usize>,
    seen: Seq<bool>,
    seen0: Seq<bool>,
    walk: Seq<usize>,
)
    requires
        one_to_one(p),
        whole_cycles(p, seen0),
        follows(p, seen0, walk),
        marks(seen, seen0, walk),
        moved(p, state, seen, walk.last() as int, walk[0] as int),
        p[walk.last() as int] == walk[0],
        p.len() <= usize::MAX,
    ensures
        whole_cycles(p, seen),
        moved(p, state, seen, -1, -1),
        seen[walk[0] as int],
{
    reveal(one_to_one);
    reveal(whole_cycles);
    reveal(follows);
    reveal(marks);
    reveal(moved);
    let last = walk.last() as int;
    assert(walk[walk.len() - 1] < p.len());
    assert(walk.contains(walk[0]));
    assert(walk.contains(walk[walk.len() - 1]));
    assert forall|x: int| 0 <= x < p.len() implies (#[trigger] seen[x] <==> seen[p[x] as int]) by {
        let y = p[x] as int;
        if walk.contains(x as usize) {
            let m = choose|m: int| 0 <= m < walk.len() && walk[m] == x as usize;
            if m < walk.len() - 1 {
                assert(walk[m + 1] == p[walk[m] as int]);
                assert(walk.contains(walk[m + 1]));
            }
        }
        if walk.contains(y as usize) {
            let m = choose|m: int| 0 <= m < walk.len() && walk[m] == y as usize;
            let before = if m >= 1 {
                walk[m - 1] as int
            } else {
                last
            };
            if m >= 1 {
                assert(walk[m - 1 + 1] == p[walk[m - 1] as int]);
                assert(walk.contains(walk[m - 1]));
            }
            assert(places_of(p)[p[before] as int] == before);
            assert(places_of(p)[p[x] as int] == x);
        }
        assert(seen0[x] <==> seen0[p[x] as int]);
    }
}

/// The exchanges that make up `p`: made one after the other on the list
/// `0`, `1`, ..., they give `p`. Every cycle of `p` is walked once, and an
/// exchange is made for every step but the last.
pub fn cycle_exchanges(p: &Vec<usize>) -> (r: Vec<(usize, usize)>)
    requires
        is_permutation(p@),
    ensures
        forall|k: int| 0 <= k < r@.len() ==> (#[trigger] r@[k]).0 < p@.len() && r@[k].1 < p@.len(),
        forall|k: int|
            0 <= k < r@.len() ==> is_moved(p@, (#[trigger] r@[k]).0 as int) && is_moved(
                p@,
                r@[k].1 as int,
            ),
        apply_swaps(identity_seq(p@.len()), r@) == p@,
{
    let n = p.len();
    let mut answer: Vec<(usize, usize)> = Vec::new();
    let mut seen: Vec<bool> = Vec::new();
    let mut k: usize = 0;
    while k < n
        invariant
            k <= n,
            seen@.len() == k,
            forall|x: int| 0 <= x < k ==> !#[trigger] seen@[x],
        decreases n - k,
    {
        seen.push(false);
        k += 1;
    }
    let ghost id = identity_seq(n as nat);
    proof {
        lemma_one_to_one(p@);
        reveal(one_to_one);
        reveal(whole_cycles);
        reveal(moved);
    }
    let mut i: usize = 0;
    while i < n
        invariant
            i <= n,
            n == p@.len(),
            seen@.len() == n,
            id == identity_seq(n as nat),
            one_to_one(p@),
            whole_cycles(p@, seen@),
            moved(p@, apply_swaps(id, answer@), seen@, -1, -1),
            forall|t: int| 0 <= t < answer@.len() ==> (#[trigger] answer@[t]).0 < n && answer@[t].1 < n,
            forall|t: int|
                0 <= t < answer@.len() ==> is_moved(p@, (#[trigger] answer@[t]).0 as int)
                    && is_moved(p@, answer@[t].1 as int),
            forall|x: int| 0 <= x < i ==> #[trigger] seen@[x],
        decreases n - i,
    {
        if !seen[i] {
            let ghost seen0 = seen@;
            proof {
                lemma_walk_start(p@, apply_swaps(id, answer@), seen0, i as int);
            }
            seen.set(i, true);
            let mut j = p[i];
            let mut j_before = i;
            let ghost mut walk: Seq<usize> = seq![i];
            while j != i
                invariant
                    i < n,
                    n == p@.len(),
                    seen@.len() == n,
                    seen0.len() == n,
                    id == identity_seq(n as nat),
                    one_to_one(p@),
                    whole_cycles(p@, seen0),
                    follows(p@, seen0, walk),
                    marks(seen@, seen0, walk),
                    moved(p@, apply_swaps(id, answer@), seen@, j_before as int, i as int),
                    forall|t: int|
                        0 <= t < answer@.len() ==> (#[trigger] answer@[t]).0 < n && answer@[t].1 < n,
                    forall|t: int|
                        0 <= t < answer@.len() ==> is_moved(p@, (#[trigger] answer@[t]).0 as int)
                            && is_moved(p@, answer@[t].1 as int),
                    j_before < n,
                    j == p@[j_before as int],
                    walk.len() >= 1,
                    walk.len() <= n,
                    walk[0] == i,
                    walk.last() == j_before,
                    forall|x: int| 0 <= x < i ==> #[trigger] seen0[x],
                decreases n - walk.len(),
            {
                let ghost old_state = apply_swaps(id, answer@);
                let ghost old_answer = answer@;
                proof {
                    lemma_walk_step(p@, old_state, seen@, seen0, walk, j);
                }
                answer.push((j_before, j));
                seen.set(j, true);
                proof {
                    assert(answer@.drop_last() =~= old_answer);
                    assert(apply_swaps(id, answer@) == swapped(old_state, j_before as int, j as int));
                    walk = walk.push(j);
                }
                j_before = j;
                proof {
                    reveal(one_to_one);
                }
                j = p[j_before];
            }
            proof {
                lemma_walk_end(p@, apply_swaps(id, answer@), seen@, seen0, walk);
                assert forall|x: int| 0 <= x < i + 1 implies #[trigger] seen@[x] by {
                    if x < i {
                        reveal(marks);
                    }
                }
            }
        }
        i += 1;
    }
    proof {
        reveal(moved);
        assert(apply_swaps(id, answer@) =~= p@);
    }
    answer
}

/// Exchanges the values at the places `a` and `b`.
fn swap_places<T>(me: &mut Vec<T>, a: usize, b: usize)
    requires
        a < old(me)@.len(),
        b < old(me)@.len(),
    ensures
        final(me)@ == swapped(old(me)@, a as int, b as int),
{
    if a == b {
        proof {
            assert(me@ =~= swapped(me@, a as int, b as int));
        }
        return ;
    }
    let low = if a < b {
        a
    } else {
        b
    };
    let high = if a < b {
        b
    } else {
        a
    };
    let ghost before = me@;
    let upper = me.remove(high);
    let lower = me.remove(low);
    me.insert(low, upper);
    me.insert(high, lower);
    proof {
        assert(me@ =~= swapped(before, a as int, b as int));
    }
}

/// Permutes the values in place: afterwards the value at every place `x`
/// below the length of `p` is the one that was at `p[x]`, and the others
/// stay. Every index that `p` moves must be a place of `me`.
pub fn permute_by<T>(me: &mut Vec<T>, p: &Vec<usize>)
    requires
        is_permutation(p@),
        forall|x: int| is_moved(p@, x) ==> x < old(me)@.len(),
    ensures
        final(me)@ == permuted_part(old(me)@, p@),
        p@.len() == old(me)@.len() ==> final(me)@ == permuted(old(me)@, p@),
{
    let transpositions = cycle_exchanges(p);
    let ghost before = me@;
    let size = p.len();
    let mut k: usize = 0;
    while k < transpositions.len()
        invariant
            k <= transpositions@.len(),
            me@.len() == before.len(),
            forall|t: int|
                0 <= t < transpositions@.len() ==> (#[trigger] transpositions@[t]).0 < p@.len()
                    && transpositions@[t].1 < p@.len(),
            forall|t: int|
                0 <= t < transpositions@.len() ==> (#[trigger] transpositions@[t]).0 < before.len()
                    && transpositions@[t].1 < before.len(),
            me@ == apply_swaps(before, transpositions@.take(k as int)),
        decreases transpositions@.len() - k,
    {
        let (a, b) = transpositions[k];
        swap_places(me, a, b);
        proof {
            assert(transpositions@.take(k + 1).drop_last() =~= transpositions@.take(k as int));
        }
        k += 1;
    }
    proof {
        assert(transpositions@.take(transpositions@.len() as int) =~= transpositions@);
        lemma_swaps_carry(before, size as nat, transpositions@);
        if p@.len() == before.len() {
            assert(permuted_part(before, p@) =~= permuted(before, p@));
        }
    }
}

/// The exchanges that make up `p`: made one after the other on the list
/// `0`, `1`, ..., they give the images of `p`.
pub fn perm_decompose(p: &Permutation) -> (r: Vec<(usize, usize)>)
    ensures
        is_permutation(perm_images(*p)) ==> apply_swaps(
            identity_seq(perm_images(*p).len()),
            r@,
        ) == perm_images(*p),
        !is_permutation(perm_images(*p)) ==> r@.len() == 0,
        forall|k: int|
            0 <= k < r@.len() ==> (#[trigger] r@[k]).0 < perm_images(*p).len() && r@[k].1
                < perm_images(*p).len(),
{
    let images = images_of(p);
    if check_permutation(&images) {
        cycle_exchanges(&images)
    } else {
        Vec::new()
    }
}

/// Permutes the values in place by `p`: afterwards the value at every place
/// `x` below the length of `p` is the one that was at the image of `x`, and
/// the others stay. Every index that `p` moves must be a place of `me`.
pub fn in_place_permute<T>(me: &mut Vec<T>, p: &Permutation)
    requires
        forall|x: int| is_moved(perm_images(*p), x) ==> x < old(me)@.len(),
    ensures
        is_permutation(perm_images(*p)) ==> final(me)@ == permuted_part(
            old(me)@,
            perm_images(*p),
        ),
        is_permutation(perm_images(*p)) && perm_images(*p).len() == old(me)@.len() ==> final(me)@
            == permuted(old(me)@, perm_images(*p)),
        !is_permutation(perm_images(*p)) ==> final(me)@ == old(me)@,
{
    let images = images_of(p);
    if check_permutation(&images) {
        permute_by(me, &images);
    }
}

/// A product of `max_depth` exchanges of `n` elements, each of two places
/// drawn at random.
pub fn rand_perm(n: usize, max_depth: usize) -> (r: Permutation)
    requires
        n > 0,
    ensures
        perm_images(r).len() == n,
        is_permutation(perm_images(r)),
        max_depth == 0 ==> perm_images(r) == identity_seq(n as nat),
{
    let mut answer = perm_identity(n);
    proof {
        assert forall|e: int| 0 <= e < n implies #[trigger] occurs(perm_images(answer), e) by {
            assert(perm_images(answer)[e] == e);
        }
    }
    let mut depth: usize = 0;
    while depth < max_depth
        invariant
            n > 0,
            perm_images(answer).len() == n,
            is_permutation(perm_images(answer)),
            max_depth == 0 ==> perm_images(answer) == identity_seq(n as nat),
        decreases max_depth - depth,
    {
        let i = random_below(n);
        let j = random_below(n);
        let exchange = perm_transposition(n, i, j);
        let ghost before = perm_images(answer);
        let ghost turn = perm_images(exchange);
        proof {
            lemma_permutation_injective(before);
        }
        answer = perm_mul(answer, exchange);
        proof {
            let after = perm_images(answer);
            assert forall|e: int| 0 <= e < n implies #[trigger] occurs(after, e) by {
                // `e` is the image of the value that the exchange sends to `e`.
                let back = turn[e] as int;
                assert(turn[back] == e);
                assert(occurs(before, back));
                let k = choose|k: int| 0 <= k < before.len() && #[trigger] before[k] == back;
                assert(after[k] == e);
            }
        }
        depth += 1;
    }
    answer
}

} // verus!
