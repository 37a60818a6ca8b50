//! Small helpers on slices, options and results.

use vstd::prelude::*;
use vstd::relations::{sorted_by, total_ordering};
use vstd::seq_lib::lemma_sorted_unique;
use vstd::std_specs::cmp::{PartialEqSpec, PartialOrdSpec};
use std::cmp::Ordering;

verus! {

/// Whether `arr` holds `0`, `1`, ... in this order.
pub fn represents_id(arr: &[usize]) -> (b: bool)
    ensures
        b == forall|i: int| 0 <= i < arr@.len() ==> #[trigger] arr@[i] == i,
{
    let mut i: usize = 0;
    while i < arr.len()
        invariant
            i <= arr@.len(),
            forall|j: int| 0 <= j < i ==> #[trigger] arr@[j] == j,
        decreases arr@.len() - i,
    {
        if arr[i] != i {
            return false;
        }
        i += 1;
    }
    true
}

/// The vector with the value of `me`, if it has one, and nothing else.
pub fn to_vec_01<A>(me: Option<A>) -> (r: Vec<A>)
    ensures
        match me {
            None => r@ == Seq::<A>::empty(),
            Some(z) => r@ == seq![z],
        },
{
    match me {
        None => Vec::new(),
        Some(z) => {
            let mut r: Vec<A> = Vec::new();
            r.push(z);
            assert(r@ =~= seq![z]);
            r
        },
    }
}

/// Results that can be combined with another result.
pub trait ResultExt<T, E>: Sized {
    /// Both values as a tuple, or the first error.
    fn zip<U>(self, other: Result<U, E>) -> (r: Result<(T, U), E>);
}

impl<T, E> ResultExt<T, E> for Result<T, E> {
    fn zip<U>(self, other: Result<U, E>) -> (r: Result<(T, U), E>)
        ensures
            r == match (self, other) {
                (Ok(a), Ok(b)) => Ok::<(T, U), E>((a, b)),
                (Err(e), _) => Err::<(T, U), E>(e),
                (Ok(_), Err(e)) => Err::<(T, U), E>(e),
            },
    {
        match self {
            Ok(a) => match other {
                Ok(b) => Ok((a, b)),
                Err(e) => Err(e),
            },
            Err(e) => Err(e),
        }
    }
}

/// Whether an observation meets an expectation: both are values, `aux_test`
/// holds of the two, and they are equal. `equation_str` names what is
/// checked.
pub fn test_holds<T: PartialEq, U, F: Fn(&T, &T) -> bool>(
    observed: Result<T, U>,
    expected: Result<T, U>,
    aux_test: F,
    equation_str: &str,
) -> (ok: bool)
    requires
        observed is Ok && expected is Ok ==> call_requires(
            aux_test,
            (&observed->Ok_0, &expected->Ok_0),
        ),
    ensures
        ok ==> {
            &&& observed is Ok
            &&& expected is Ok
            &&& call_ensures(aux_test, (&observed->Ok_0, &expected->Ok_0), true)
            &&& call_ensures(<T as PartialEq>::eq, (&observed->Ok_0, &expected->Ok_0), true)
            &&& T::obeys_eq_spec() ==> observed->Ok_0.eq_spec(&expected->Ok_0)
        },
        !ok ==> {
            ||| observed is Err
            ||| expected is Err
            ||| call_ensures(aux_test, (&observed->Ok_0, &expected->Ok_0), false)
            ||| call_ensures(<T as PartialEq>::eq, (&observed->Ok_0, &expected->Ok_0), false)
        },
{
    match observed.zip(expected) {
        Ok((real_observed, real_expected)) => {
            if !aux_test(&real_observed, &real_expected) {
                return false;
            }
            real_observed.eq(&real_expected)
        },
        Err(_) => false,
    }
}

/// The statement that an observation meets an expectation: both are values,
/// `aux_test` holds of the two, and they are equal. It is a demand on the
/// caller, who has shown it or has asked `test_holds` before; the call goes
/// through the same steps and finds each to hold. `equation_str` names what
/// is stated.
pub fn test_asserter<T: PartialEq, U, F: Fn(&T, &T) -> bool>(
    observed: Result<T, U>,
    expected: Result<T, U>,
    aux_test: F,
    equation_str: &str,
)
    requires
        observed is Ok,
        expected is Ok,
        call_requires(aux_test, (&observed->Ok_0, &expected->Ok_0)),
        forall|b: bool| call_ensures(aux_test, (&observed->Ok_0, &expected->Ok_0), b) ==> b,
        forall|b: bool|
            call_ensures(<T as PartialEq>::eq, (&observed->Ok_0, &expected->Ok_0), b) ==> b,
{
    match observed.zip(expected) {
        Ok((real_observed, real_expected)) => {
            let side = aux_test(&real_observed, &real_expected);
            let equal = real_observed.eq(&real_expected);
            assert(side && equal);
        },
        Err(_) => {
            assert(false);
        },
    }
}

/// `a` is not less than `b`.
pub open spec fn at_least<T: PartialOrd>(a: T, b: T) -> bool {
    a.partial_cmp_spec(&b) == Some(Ordering::Greater) || a.partial_cmp_spec(&b) == Some(
        Ordering::Equal,
    )
}

/// The place of the maximum among the first `n` values of `s`; of several
/// maxima, the last.
pub open spec fn last_maximum<T: PartialOrd>(s: Seq<T>, n: usize) -> int
    decreases n,
{
    if n <= 1 {
        0
    } else {
        let best = last_maximum(s, (n - 1) as usize);
        if at_least(s[n - 1], s[best]) {
            n - 1
        } else {
            best
        }
    }
}

/// The place of the maximum of `slice`, the last one where several values
/// are maximal; nothing where `slice` is empty. Which place is maximal is
/// told for types whose comparisons follow their specification.
pub fn argmax<T: Ord>(slice: &[T]) -> (r: Option<usize>)
    ensures
        match r {
            None => slice@.len() == 0,
            Some(i) => {
                &&& i < slice@.len()
                &&& T::obeys_partial_cmp_spec() ==> i == last_maximum(slice@, slice.len())
            },
        },
{
    if slice.len() == 0 {
        return None;
    }
    let mut best: usize = 0;
    let mut i: usize = 1;
    while i < slice.len()
        invariant
            1 <= i <= slice@.len(),
            best < i,
            T::obeys_partial_cmp_spec() ==> best == last_maximum(slice@, i),
        decreases slice@.len() - i,
    {
        if slice[i] >= slice[best] {
            best = i;
        }
        i += 1;
    }
    Some(best)
}

/// `a` is at most `b`.
pub open spec fn at_most() -> spec_fn(usize, usize) -> bool {
    |a: usize, b: usize| a <= b
}

/// The indices of `s` in ascending order, each as often as in `s`.
pub open spec fn ascending(s: Seq<usize>) -> Seq<usize> {
    s.sort_by(at_most())
}

/// The list after one removal for every entry of `order`, at the place that
/// the entry names, from the last entry of `order` to the first.
pub open spec fn removed_from_top<T>(s: Seq<T>, order: Seq<usize>) -> Seq<T>
    decreases order.len(),
{
    if order.len() == 0 {
        s
    } else {
        removed_from_top(s.remove(order.last() as int), order.drop_last())
    }
}

/// Every removal of `removed_from_top` names a place of the list as it is
/// then, where the list has `len` values at first.
pub open spec fn removals_fit(len: nat, order: Seq<usize>) -> bool {
    forall|k: int| 0 <= k < order.len() ==> #[trigger] order[k] + (order.len() - 1 - k) < len
}

/// The values of `s` from place `from` on whose place is not in `drop`, in
/// their order.
pub open spec fn without<T>(s: Seq<T>, drop: Seq<usize>, from: int) -> Seq<T>
    decreases s.len() - from,
{
    if from < 0 || from >= s.len() {
        Seq::empty()
    } else if drop.contains(from as usize) {
        without(s, drop, from + 1)
    } else {
        seq![s[from]] + without(s, drop, from + 1)
    }
}

/// `sort_unstable` of std, on a vector of indices: afterwards the indices
/// are in ascending order, each as often as before.
#[verifier::external_body]
fn sort_indices(v: &mut Vec<usize>)
    ensures
        sorted_by(final(v)@, at_most()),
        final(v)@.to_multiset() == old(v)@.to_multiset(),
{
    v.sort_unstable();
}

/// Removes a value for every entry of `to_remove`, at the place that the
/// entry names: the entries are taken from the largest to the smallest, so
/// that no removal moves a place that is still to come. An entry that occurs
/// twice removes two values.
pub fn remove_multiple<T>(me: &mut Vec<T>, to_remove: Vec<usize>)
    requires
        removals_fit(old(me)@.len(), ascending(to_remove@)),
    ensures
        final(me)@ == removed_from_top(old(me)@, ascending(to_remove@)),
{
    let ghost before = me@;
    let mut order = to_remove;
    sort_indices(&mut order);
    proof {
        assert(total_ordering(at_most()));
        to_remove@.lemma_sort_by_ensures(at_most());
        lemma_sorted_unique(order@, ascending(to_remove@), at_most());
    }
    let mut k: usize = order.len();
    proof {
        assert(order@.take(k as int) =~= order@);
    }
    while k > 0
        invariant
            k <= order@.len(),
            me@.len() + (order@.len() - k) == before.len(),
            removals_fit(before.len(), order@),
            removed_from_top(me@, order@.take(k as int)) == removed_from_top(before, order@),
        decreases k,
    {
        k -= 1;
        let r = order[k];
        proof {
            assert(order@[k as int] + (order@.len() - 1 - k) < before.len());
            assert(order@.take(k + 1).last() == r);
            assert(order@.take(k + 1).drop_last() =~= order@.take(k as int));
        }
        me.remove(r);
    }
}

/// Where no entry of `drop` is beyond `from`, nothing is left out from there on.
proof fn lemma_without_none<T>(s: Seq<T>, drop: Seq<usize>, from: int)
    requires
        s.len() <= usize::MAX,
        0 <= from <= s.len(),
        forall|k: int| 0 <= k < drop.len() ==> #[trigger] drop[k] < from,
    ensures
        without(s, drop, from) == s.skip(from),
    decreases s.len() - from,
{
    if from < s.len() {
        lemma_without_none(s, drop, from + 1);
        assert(!drop.contains(from as usize));
        assert(s.skip(from) =~= seq![s[from]] + s.skip(from + 1));
    } else {
        assert(s.skip(from) =~= Seq::<T>::empty());
    }
}

/// Two lists of places with the same entries leave out the same values.
proof fn lemma_without_same<T>(s: Seq<T>, a: Seq<usize>, b: Seq<usize>, from: int)
    requires
        0 <= from,
        forall|x: usize| a.contains(x) <==> b.contains(x),
    ensures
        without(s, a, from) == without(s, b, from),
    decreases s.len() - from,
{
    if from < s.len() {
        lemma_without_same(s, a, b, from + 1);
    }
}

/// Removing the value at the largest place first leaves out what the
/// places leave out.
proof fn lemma_without_top<T>(s: Seq<T>, order: Seq<usize>, from: int)
    requires
        s.len() <= usize::MAX,
        order.len() > 0,
        order.last() < s.len(),
        0 <= from <= order.last(),
        forall|k: int| 0 <= k < order.len() - 1 ==> #[trigger] order[k] < order.last(),
    ensures
        without(s.remove(order.last() as int), order.drop_last(), from) == without(s, order, from),
    decreases order.last() - from,
{
    let top = order.last() as int;
    let rest = order.drop_last();
    let cut = s.remove(top);
    if from == top {
        assert(order[order.len() - 1] == from as usize);
        assert(order.contains(from as usize));
        assert forall|k: int| 0 <= k < order.len() implies #[trigger] order[k] < top + 1 by {
            if k < order.len() - 1 {
                assert(order[k] < order.last());
            }
        }
        lemma_without_none(s, order, top + 1);
        assert forall|k: int| 0 <= k < rest.len() implies #[trigger] rest[k] < top by {
            assert(rest[k] == order[k]);
        }
        lemma_without_none(cut, rest, top);
        assert(cut.skip(top) =~= s.skip(top + 1));
    } else {
        lemma_without_top(s, order, from + 1);
        assert(cut[from] == s[from]);
        if rest.contains(from as usize) {
            let k = choose|k: int| 0 <= k < rest.len() && rest[k] == from as usize;
            assert(order[k] == from as usize);
            assert(order.contains(from as usize));
        }
        if order.contains(from as usize) {
            let k = choose|k: int| 0 <= k < order.len() && order[k] == from as usize;
            assert(k < order.len() - 1);
            assert(rest[k] == from as usize);
            assert(rest.contains(from as usize));
        }
    }
}

/// Removals at places that grow strictly leave the values at the other
/// places, and each finds its place.
proof fn lemma_removed_strict<T>(s: Seq<T>, order: Seq<usize>)
    requires
        s.len() <= usize::MAX,
        forall|k: int| 0 <= k < order.len() ==> #[trigger] order[k] < s.len(),
        forall|k: int, m: int| 0 <= k < m < order.len() ==> #[trigger] order[k] < #[trigger] order[m],
    ensures
        removals_fit(s.len(), order),
        removed_from_top(s, order) == without(s, order, 0),
    decreases order.len(),
{
    if order.len() == 0 {
        lemma_without_none(s, order, 0);
        assert(s.skip(0) =~= s);
    } else {
        let top = order.last() as int;
        let rest = order.drop_last();
        let cut = s.remove(top);
        assert(order[order.len() - 1] < s.len());
        assert forall|k: int| 0 <= k < rest.len() implies #[trigger] rest[k] < cut.len() by {
            assert(rest[k] == order[k]);
            assert(order[k] < order[order.len() - 1]);
        }
        assert forall|k: int, m: int| 0 <= k < m < rest.len() implies #[trigger] rest[k]
            < #[trigger] rest[m] by {
            assert(rest[k] == order[k] && rest[m] == order[m]);
        }
        lemma_removed_strict(cut, rest);
        assert forall|k: int| 0 <= k < order.len() - 1 implies #[trigger] order[k]
            < order.last() by {
            assert(order[k] < order[order.len() - 1]);
        }
        lemma_without_top(s, order, 0);
        assert forall|k: int| 0 <= k < order.len() implies #[trigger] order[k] + (order.len() - 1
            - k) < s.len() by {
            if k < order.len() - 1 {
                assert(rest[k] == order[k]);
                assert(rest[k] + (rest.len() - 1 - k) < cut.len());
            }
        }
    }
}

/// Where no place occurs twice in `drop` and every place is one of the
/// list, every removal finds its place, and what is left are the values at
/// the other places, in their order.
pub proof fn lemma_remove_distinct<T>(s: Seq<T>, drop: Seq<usize>)
    requires
        s.len() <= usize::MAX,
        forall|k: int| 0 <= k < drop.len() ==> #[trigger] drop[k] < s.len(),
        forall|k: int, m: int| 0 <= k < m < drop.len() ==> #[trigger] drop[k] != #[trigger] drop[m],
    ensures
        removals_fit(s.len(), ascending(drop)),
        removed_from_top(s, ascending(drop)) == without(s, drop, 0),
{
    broadcast use vstd::seq_lib::group_to_multiset_ensures;

    let order = ascending(drop);
    assert(total_ordering(at_most()));
    drop.lemma_sort_by_ensures(at_most());
    assert(drop.no_duplicates());
    drop.lemma_multiset_has_no_duplicates();
    order.lemma_multiset_has_no_duplicates_conv();
    assert forall|x: usize| order.contains(x) <==> drop.contains(x) by {
        assert(order.to_multiset().count(x) == drop.to_multiset().count(x));
    }
    assert forall|k: int| 0 <= k < order.len() implies #[trigger] order[k] < s.len() by {
        assert(order.contains(order[k]));
        let j = choose|j: int| 0 <= j < drop.len() && drop[j] == order[k];
        assert(drop[j] < s.len());
    }
    assert forall|k: int, m: int| 0 <= k < m < order.len() implies #[trigger] order[k]
        < #[trigger] order[m] by {
        assert(at_most()(order[k], order[m]));
        assert(order[k] != order[m]);
    }
    lemma_removed_strict(s, order);
    lemma_without_same(s, order, drop, 0);
}

/// A value of one of two types.
#[derive(Debug, PartialEq, Eq)]
pub enum Either<L, R> {
    /// A value of the first type.
    Left(L),
    /// A value of the second type.
    Right(R),
}

/// Values of one of two types that can be mapped case by case.
pub trait EitherExt<T, U>: Sized {
    /// The value of the first type, where the value holds one.
    spec fn left_value(self) -> Option<T>;

    /// The value of the second type, where the value holds one.
    spec fn right_value(self) -> Option<U>;

    /// What `f1` makes of a left value, as a left value, or what `f2` makes
    /// of a right value, as a right value.
    fn bimap<V, W, F1: Fn(T) -> V, F2: Fn(U) -> W>(self, f1: F1, f2: F2) -> (r: Either<V, W>)
        requires
            self.left_value() matches Some(t) ==> call_requires(f1, (t,)),
            self.right_value() matches Some(u) ==> call_requires(f2, (u,)),
    ;
}

impl<T, U> EitherExt<T, U> for Either<T, U> {
    open spec fn left_value(self) -> Option<T> {
        match self {
            Either::Left(t) => Some(t),
            Either::Right(_) => None,
        }
    }

    open spec fn right_value(self) -> Option<U> {
        match self {
            Either::Left(_) => None,
            Either::Right(u) => Some(u),
        }
    }

    fn bimap<V, W, F1: Fn(T) -> V, F2: Fn(U) -> W>(self, f1: F1, f2: F2) -> (r: Either<V, W>)
        ensures
            match self {
                Either::Left(t) => r matches Either::Left(v) && call_ensures(f1, (t,), v),
                Either::Right(u) => r matches Either::Right(w) && call_ensures(f2, (u,), w),
            },
    {
        match self {
            Either::Left(t) => Either::Left(f1(t)),
            Either::Right(u) => Either::Right(f2(u)),
        }
    }
}

/// What `f1` makes of a left value, or `f2` of a right value.
pub fn either_f<T, U, V, F1: Fn(T) -> V, F2: Fn(U) -> V>(x: Either<T, U>, f1: F1, f2: F2) -> (r: V)
    requires
        match x {
            Either::Left(t) => call_requires(f1, (t,)),
            Either::Right(u) => call_requires(f2, (u,)),
        },
    ensures
        match x {
            Either::Left(t) => call_ensures(f1, (t,), r),
            Either::Right(u) => call_ensures(f2, (u,), r),
        },
{
    match x {
        Either::Left(t) => f1(t),
        Either::Right(u) => f2(u),
    }
}

} // verus!
