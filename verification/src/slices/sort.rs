//! IsSorted, Min, Max, BinarySearch and their `Func` variants.
#![allow(non_snake_case)]

use vstd::prelude::*;
use vstd::std_specs::cmp::PartialEqSpec;
use vstd::std_specs::cmp::PartialOrdSpec;
use std::cmp::Ordering;
use super::to_int;

verus! {

/// `a < b` by `T`'s ordering.
pub open spec fn lt<T: PartialOrd>(a: T, b: T) -> bool {
    a.partial_cmp_spec(&b) == Some(Ordering::Less)
}

/// `a > b` by `T`'s ordering.
pub open spec fn gt<T: PartialOrd>(a: T, b: T) -> bool {
    a.partial_cmp_spec(&b) == Some(Ordering::Greater)
}

/// `T`'s comparisons follow its specified ordering.
pub open spec fn obeys_order<T: PartialOrd>() -> bool {
    T::obeys_partial_cmp_spec()
}

/// `T`'s ordering is a lawful total order (`vstd`'s `obeys_cmp`).
pub open spec fn lawful_order<T: Ord>() -> bool {
    vstd::laws_cmp::obeys_cmp::<T>()
}

/// A lawful order follows its specified comparisons, and `a < b` is
/// `b > a`.
pub proof fn lemma_lawful_order<T: Ord>()
    requires
        lawful_order::<T>(),
    ensures
        obeys_order::<T>(),
        forall|a: T, b: T| #[trigger] lt(a, b) <==> gt(b, a),
        forall|a: T, b: T, c: T| #[trigger] lt(a, b) && #[trigger] lt(b, c) ==> lt(a, c),
{
    reveal(vstd::laws_cmp::obeys_partial_cmp_spec_properties);
    reveal(vstd::laws_cmp::obeys_cmp_partial_ord);
}

/// No element of `s` is less than the one before it.
pub open spec fn sorted<T: PartialOrd>(s: Seq<T>) -> bool {
    forall|i: int| 1 <= i < s.len() ==> !#[trigger] lt(s[i], s[i - 1])
}

/// The index a left-to-right scan keeps as smallest: an element replaces
/// the one kept when it is less.
pub open spec fn min_index<T: PartialOrd>(s: Seq<T>) -> int
    decreases s.len(),
{
    if s.len() <= 1 {
        0
    } else {
        let k = min_index(s.drop_last());
        if lt(s.last(), s[k]) {
            s.len() - 1
        } else {
            k
        }
    }
}

/// The index a left-to-right scan keeps as largest: an element replaces
/// the one kept when it is greater.
pub open spec fn max_index<T: PartialOrd>(s: Seq<T>) -> int
    decreases s.len(),
{
    if s.len() <= 1 {
        0
    } else {
        let k = max_index(s.drop_last());
        if gt(s.last(), s[k]) {
            s.len() - 1
        } else {
            k
        }
    }
}

proof fn lemma_min_index_bounds<T: PartialOrd>(s: Seq<T>)
    requires
        s.len() > 0,
    ensures
        0 <= min_index(s) < s.len(),
        0 <= max_index(s) < s.len(),
    decreases s.len(),
{
    if s.len() > 1 {
        lemma_min_index_bounds(s.drop_last());
    }
}

/// Under a lawful order nothing is less than itself.
proof fn lemma_lt_irreflexive<T: Ord>(a: T)
    requires
        lawful_order::<T>(),
    ensures
        !lt(a, a),
{
    lemma_lawful_order::<T>();
    if lt(a, a) {
        assert(gt(a, a));
    }
}

/// What `Min` picks is an element of the slice and no element of the
/// slice is less than it.
pub proof fn lemma_min_is_least<T: Ord>(s: Seq<T>)
    requires
        lawful_order::<T>(),
        s.len() > 0,
    ensures
        0 <= min_index(s) < s.len(),
        forall|i: int| 0 <= i < s.len() ==> !#[trigger] lt(s[i], s[min_index(s)]),
    decreases s.len(),
{
    lemma_min_index_bounds(s);
    lemma_lawful_order::<T>();
    if s.len() == 1 {
        lemma_lt_irreflexive(s[0]);
    } else {
        let p = s.drop_last();
        lemma_min_is_least(p);
        let k = min_index(p);
        lemma_lt_irreflexive(s.last());
        assert forall|i: int| 0 <= i < s.len() implies !#[trigger] lt(s[i], s[min_index(s)]) by {
            if i < s.len() - 1 {
                assert(s[i] == p[i]);
                assert(!lt(p[i], p[k]));
                if lt(s.last(), s[k]) && lt(s[i], s.last()) {
                    assert(lt(s[i], s[k]));
                }
            }
        }
    }
}

/// What `Max` picks is an element of the slice and no element of the
/// slice is greater than it.
pub proof fn lemma_max_is_greatest<T: Ord>(s: Seq<T>)
    requires
        lawful_order::<T>(),
        s.len() > 0,
    ensures
        0 <= max_index(s) < s.len(),
        forall|i: int| 0 <= i < s.len() ==> !#[trigger] gt(s[i], s[max_index(s)]),
    decreases s.len(),
{
    lemma_min_index_bounds(s);
    lemma_lawful_order::<T>();
    if s.len() == 1 {
        lemma_lt_irreflexive(s[0]);
    } else {
        let p = s.drop_last();
        lemma_max_is_greatest(p);
        let k = max_index(p);
        lemma_lt_irreflexive(s.last());
        assert forall|i: int| 0 <= i < s.len() implies !#[trigger] gt(s[i], s[max_index(s)]) by {
            if i < s.len() - 1 {
                assert(s[i] == p[i]);
                assert(!gt(p[i], p[k]));
                if gt(s.last(), s[k]) && gt(s[i], s.last()) {
                    assert(lt(s.last(), s[i]));
                    assert(lt(s[k], s.last()));
                    assert(lt(s[k], s[i]));
                }
            } else {
                if gt(s.last(), s.last()) {
                    assert(lt(s.last(), s.last()));
                }
            }
        }
    }
}

/// `IsSorted(s)` — no element is less than the one before it.
pub fn IsSorted<T: Ord>(s: &[T]) -> (r: bool)
    ensures
        obeys_order::<T>() ==> (r <==> sorted(s@)),
{
    let mut i: usize = 1;
    while i < s.len()
        invariant
            1 <= i,
            i <= s@.len() || s@.len() == 0,
            obeys_order::<T>() ==> forall|k: int| 1 <= k < i && k < s@.len() ==> !#[trigger] lt(s@[k], s@[k - 1]),
        decreases s@.len() - i,
    {
        if s[i] < s[i - 1] {
            proof {
                if obeys_order::<T>() {
                    assert(lt(s@[i as int], s@[i - 1]));
                }
            }
            return false;
        }
        i += 1;
    }
    true
}

/// `Min(s)` — the smallest element, the first one on ties. Go panics on
/// an empty slice; a nonempty one is required here.
pub fn Min<T: Ord + Clone>(s: &[T]) -> (r: T)
    requires
        s@.len() > 0,
    ensures
        obeys_order::<T>() ==> cloned::<T>(s@[min_index(s@)], r),
        lawful_order::<T>() ==> 0 <= min_index(s@) < s@.len() && forall|i: int| 0 <= i < s@.len() ==> !#[trigger] lt(s@[i], s@[min_index(s@)]),
{
    let mut best: usize = 0;
    let mut i: usize = 1;
    proof {
        assert(s@.take(1).len() == 1);
    }
    while i < s.len()
        invariant
            1 <= i <= s@.len(),
            best < i,
            obeys_order::<T>() ==> best == min_index(s@.take(i as int)),
        decreases s@.len() - i,
    {
        proof {
            assert(s@.take(i + 1).drop_last() =~= s@.take(i as int));
        }
        if s[i] < s[best] {
            best = i;
        }
        i += 1;
    }
    proof {
        assert(s@.take(s@.len() as int) =~= s@);
        if lawful_order::<T>() {
            lemma_min_is_least(s@);
        }
    }
    s[best].clone()
}

/// `Max(s)` — the largest element, the first one on ties. Go panics on
/// an empty slice; a nonempty one is required here.
pub fn Max<T: Ord + Clone>(s: &[T]) -> (r: T)
    requires
        s@.len() > 0,
    ensures
        obeys_order::<T>() ==> cloned::<T>(s@[max_index(s@)], r),
        lawful_order::<T>() ==> 0 <= max_index(s@) < s@.len() && forall|i: int| 0 <= i < s@.len() ==> !#[trigger] gt(s@[i], s@[max_index(s@)]),
{
    let mut best: usize = 0;
    let mut i: usize = 1;
    while i < s.len()
        invariant
            1 <= i <= s@.len(),
            best < i,
            obeys_order::<T>() ==> best == max_index(s@.take(i as int)),
        decreases s@.len() - i,
    {
        proof {
            assert(s@.take(i + 1).drop_last() =~= s@.take(i as int));
        }
        if s[i] > s[best] {
            best = i;
        }
        i += 1;
    }
    proof {
        assert(s@.take(s@.len() as int) =~= s@);
        if lawful_order::<T>() {
            lemma_max_is_greatest(s@);
        }
    }
    s[best].clone()
}

/// The elements less than `t` form a prefix of `s`.
pub open spec fn partitioned<T: PartialOrd>(s: Seq<T>, t: T) -> bool {
    forall|i: int, j: int| 0 <= i <= j < s.len() && #[trigger] lt(s[j], t) ==> #[trigger] lt(s[i], t)
}

/// `BinarySearch(s, target)` — the first index whose element is not less
/// than `target` (where it is or would be inserted), and whether that
/// element equals `target`.
pub fn BinarySearch<T: Ord>(s: &[T], target: &T) -> (r: (i64, bool))
    requires
        s@.len() <= i64::MAX,
    ensures
        0 <= r.0 <= s@.len(),
        T::obeys_eq_spec() ==> (r.1 <==> r.0 < s@.len() && s@[r.0 as int].eq_spec(target)),
        obeys_order::<T>() && partitioned(s@, *target) ==> {
            &&& forall|i: int| 0 <= i < r.0 ==> #[trigger] lt(s@[i], *target)
            &&& forall|i: int| r.0 <= i < s@.len() ==> !#[trigger] lt(s@[i], *target)
        },
{
    let n = s.len();
    let mut i: usize = 0;
    let mut j: usize = n;
    while i < j
        invariant
            i <= j <= n,
            n == s@.len(),
            obeys_order::<T>() && partitioned(s@, *target) ==> {
                &&& forall|k: int| 0 <= k < i ==> #[trigger] lt(s@[k], *target)
                &&& forall|k: int| j <= k < n ==> !#[trigger] lt(s@[k], *target)
            },
        decreases j - i,
    {
        let h = i + (j - i) / 2;
        if s[h] < *target {
            proof {
                if obeys_order::<T>() && partitioned(s@, *target) {
                    assert forall|k: int| 0 <= k < h + 1 implies #[trigger] lt(s@[k], *target) by {
                        assert(lt(s@[h as int], *target));
                    }
                }
            }
            i = h + 1;
        } else {
            proof {
                if obeys_order::<T>() && partitioned(s@, *target) {
                    assert forall|k: int| h <= k < n implies !#[trigger] lt(s@[k], *target) by {
                        if lt(s@[k], *target) {
                            assert(lt(s@[h as int], *target));
                        }
                    }
                }
            }
            j = h;
        }
    }
    let found = i < n && s[i] == *target;
    (to_int(i), found)
}

/// `f` gave a negative number on `(a, b)`.
pub open spec fn gave_neg<T, U, F: Fn(&T, &U) -> i64>(f: F, a: T, b: U) -> bool {
    exists|c: i64| c < 0 && #[trigger] f.ensures((&a, &b), c)
}

/// `f` gave a number that is not negative on `(a, b)`.
pub open spec fn gave_nonneg<T, U, F: Fn(&T, &U) -> i64>(f: F, a: T, b: U) -> bool {
    exists|c: i64| c >= 0 && #[trigger] f.ensures((&a, &b), c)
}

/// `IsSortedFunc(s, f)` — `f(s[i], s[i - 1])` is never negative; the
/// pairs are tried in order until one is.
pub fn IsSortedFunc<T, F: Fn(&T, &T) -> i64>(s: &[T], f: F) -> (r: bool)
    requires
        forall|a: &T, b: &T| #[trigger] f.requires((a, b)),
    ensures
        r ==> forall|i: int| 1 <= i < s@.len() ==> #[trigger] gave_nonneg(f, s@[i], s@[i - 1]),
        !r ==> exists|i: int|
            1 <= i < s@.len() && #[trigger] gave_neg(f, s@[i], s@[i - 1]) && forall|k: int|
                1 <= k < i ==> #[trigger] gave_nonneg(f, s@[k], s@[k - 1]),
{
    let mut i: usize = 1;
    while i < s.len()
        invariant
            1 <= i,
            i <= s@.len() || s@.len() == 0,
            forall|a: &T, b: &T| #[trigger] f.requires((a, b)),
            forall|k: int| 1 <= k < i && k < s@.len() ==> #[trigger] gave_nonneg(f, s@[k], s@[k - 1]),
        decreases s@.len() - i,
    {
        let c = f(&s[i], &s[i - 1]);
        if c < 0 {
            assert(gave_neg(f, s@[i as int], s@[i - 1]));
            return false;
        }
        assert(gave_nonneg(f, s@[i as int], s@[i - 1]));
        i += 1;
    }
    true
}

/// The index a left-to-right scan keeps when `take[i]` says whether
/// element `i` replaced the one kept before it.
pub open spec fn scan_index(take: Seq<bool>) -> int
    decreases take.len(),
{
    if take.len() <= 1 {
        0
    } else if take.last() {
        take.len() - 1
    } else {
        scan_index(take.drop_last())
    }
}

proof fn lemma_scan_index_bounds(take: Seq<bool>)
    requires
        take.len() > 0,
    ensures
        0 <= scan_index(take) < take.len(),
    decreases take.len(),
{
    if take.len() > 1 && !take.last() {
        lemma_scan_index_bounds(take.drop_last());
    }
}

/// At step `i` of the scan, `f(s[i], kept)` gave a number that is
/// negative (for `want_neg`) or positive (otherwise) exactly when
/// `take[i]`, `kept` being the element the scan held before `i`.
pub open spec fn scan_step<T, F: Fn(&T, &T) -> i64>(f: F, s: Seq<T>, take: Seq<bool>, want_neg: bool, i: int) -> bool {
    exists|c: i64|
        #[trigger] f.ensures((&s[i], &s[scan_index(take.take(i))]), c) && take[i] == (if want_neg {
            c < 0
        } else {
            c > 0
        })
}

/// `take` records every step of a scan of `s` by `f`.
pub open spec fn scan_decided<T, F: Fn(&T, &T) -> i64>(f: F, s: Seq<T>, take: Seq<bool>, want_neg: bool) -> bool {
    &&& take.len() == s.len()
    &&& forall|i: int| 1 <= i < s.len() ==> #[trigger] scan_step(f, s, take, want_neg, i)
}

/// The scan behind `MinFunc` (`want_neg`) and `MaxFunc`.
fn scan_func<T, F: Fn(&T, &T) -> i64>(s: &[T], f: &F, want_neg: bool) -> (r: usize)
    requires
        s@.len() > 0,
        forall|a: &T, b: &T| #[trigger] f.requires((a, b)),
    ensures
        exists|take: Seq<bool>| #[trigger] scan_decided(*f, s@, take, want_neg) && r == scan_index(take),
        r < s@.len(),
{
    let mut best: usize = 0;
    let mut i: usize = 1;
    let ghost mut take: Seq<bool> = seq![false];
    while i < s.len()
        invariant
            1 <= i <= s@.len(),
            forall|a: &T, b: &T| #[trigger] f.requires((a, b)),
            take.len() == i,
            scan_decided(*f, s@.take(i as int), take, want_neg),
            best == scan_index(take),
            best < i,
        decreases s@.len() - i,
    {
        let c = f(&s[i], &s[best]);
        let b = if want_neg { c < 0 } else { c > 0 };
        proof {
            let nt = take.push(b);
            let t = s@.take(i + 1);
            assert(nt.take(i as int) =~= take);
            assert forall|k: int| 1 <= k < i + 1 implies #[trigger] scan_step(*f, t, nt, want_neg, k) by {
                if k < i {
                    assert(nt.take(k) =~= take.take(k));
                    lemma_scan_index_bounds(take.take(k));
                    assert(t[k] == s@.take(i as int)[k]);
                    assert(t[scan_index(take.take(k))] == s@.take(i as int)[scan_index(take.take(k))]);
                    assert(scan_step(*f, s@.take(i as int), take, want_neg, k));
                } else {
                    assert(f.ensures((&t[k], &t[scan_index(nt.take(k))]), c));
                }
            }
            take = nt;
        }
        if b {
            best = i;
        }
        i += 1;
    }
    proof {
        assert(s@.take(s@.len() as int) =~= s@);
    }
    best
}

/// `MinFunc(s, f)` — the element a left-to-right scan keeps, replacing
/// the kept one whenever `f(e, kept)` is negative. Go panics on an empty
/// slice; a nonempty one is required here.
pub fn MinFunc<T: Clone, F: Fn(&T, &T) -> i64>(s: &[T], f: F) -> (r: T)
    requires
        s@.len() > 0,
        forall|a: &T, b: &T| #[trigger] f.requires((a, b)),
    ensures
        exists|take: Seq<bool>| #[trigger] scan_decided(f, s@, take, true) && cloned::<T>(s@[scan_index(take)], r),
{
    let k = scan_func(s, &f, true);
    s[k].clone()
}

/// `MaxFunc(s, f)` — the element a left-to-right scan keeps, replacing
/// the kept one whenever `f(e, kept)` is positive. Go panics on an empty
/// slice; a nonempty one is required here.
pub fn MaxFunc<T: Clone, F: Fn(&T, &T) -> i64>(s: &[T], f: F) -> (r: T)
    requires
        s@.len() > 0,
        forall|a: &T, b: &T| #[trigger] f.requires((a, b)),
    ensures
        exists|take: Seq<bool>| #[trigger] scan_decided(f, s@, take, false) && cloned::<T>(s@[scan_index(take)], r),
{
    let k = scan_func(s, &f, false);
    s[k].clone()
}

/// Whenever `f` is negative on some element of `s` against `t`, it is
/// negative on every element before it: the negatives form a prefix.
pub open spec fn partitioned_by<T, U, F: Fn(&T, &U) -> i64>(f: F, s: Seq<T>, t: U) -> bool {
    forall|i: int, j: int, ci: i64, cj: i64|
        0 <= i <= j < s.len() && #[trigger] f.ensures((&s[i], &t), ci) && #[trigger] f.ensures((&s[j], &t), cj)
            && cj < 0 ==> ci < 0
}

/// `BinarySearchFunc(s, target, f)` — the first index where
/// `f(s[i], target)` is not negative, and whether it is zero there.
pub fn BinarySearchFunc<T, U, F: Fn(&T, &U) -> i64>(s: &[T], target: &U, f: F) -> (r: (i64, bool))
    requires
        s@.len() <= i64::MAX,
        forall|i: int| 0 <= i < s@.len() ==> #[trigger] f.requires((&s@[i], target)),
    ensures
        0 <= r.0 <= s@.len(),
        r.1 ==> r.0 < s@.len() && f.ensures((&s@[r.0 as int], target), 0i64),
        !r.1 ==> r.0 == s@.len() || exists|c: i64| c != 0 && #[trigger] f.ensures((&s@[r.0 as int], target), c),
        partitioned_by(f, s@, *target) ==> {
            &&& forall|i: int, c: i64| 0 <= i < r.0 && #[trigger] f.ensures((&s@[i], target), c) ==> c < 0
            &&& forall|i: int, c: i64| r.0 <= i < s@.len() && #[trigger] f.ensures((&s@[i], target), c) ==> c >= 0
        },
{
    let n = s.len();
    let mut i: usize = 0;
    let mut j: usize = n;
    while i < j
        invariant
            i <= j <= n,
            n == s@.len(),
            forall|i: int| 0 <= i < s@.len() ==> #[trigger] f.requires((&s@[i], target)),
            partitioned_by(f, s@, *target) ==> {
                &&& forall|k: int, c: i64| 0 <= k < i && #[trigger] f.ensures((&s@[k], target), c) ==> c < 0
                &&& forall|k: int, c: i64| j <= k < n && #[trigger] f.ensures((&s@[k], target), c) ==> c >= 0
            },
        decreases j - i,
    {
        let h = i + (j - i) / 2;
        let c = f(&s[h], target);
        if c < 0 {
            i = h + 1;
        } else {
            j = h;
        }
    }
    if i < n {
        let c = f(&s[i], target);
        (to_int(i), c == 0)
    } else {
        (to_int(i), false)
    }
}

} // verus!
