//! Equal, Compare, Index, Contains, Insert, Delete, Replace, Clone,
//! Compact, Grow, Clip, Reverse, Concat, Repeat and the `Func` variants.
#![allow(non_snake_case)]

use vstd::prelude::*;
use vstd::std_specs::cmp::PartialEqSpec;
use vstd::std_specs::cmp::OrdSpec;
use std::cmp::Ordering;
use super::to_int;

verus! {

/// `a` and `b` have the same length and equal elements pairwise, by
/// `T`'s `==`.
pub open spec fn seq_equal<T: PartialEq>(a: Seq<T>, b: Seq<T>) -> bool {
    a.len() == b.len() && forall|i: int| 0 <= i < a.len() ==> #[trigger] a[i].eq_spec(&b[i])
}

/// `r` is the first index of `s` holding an element equal to `v`, or -1.
pub open spec fn is_first_index<T: PartialEq>(s: Seq<T>, v: T, r: int) -> bool {
    if r == -1 {
        forall|i: int| 0 <= i < s.len() ==> !#[trigger] s[i].eq_spec(&v)
    } else {
        0 <= r < s.len() && s[r].eq_spec(&v) && forall|i: int|
            0 <= i < r ==> !#[trigger] s[i].eq_spec(&v)
    }
}

/// `Equal(s1, s2)` — same length and pairwise equal elements.
pub fn Equal<T: PartialEq>(s1: &[T], s2: &[T]) -> (r: bool)
    ensures
        T::obeys_eq_spec() ==> r == seq_equal(s1@, s2@),
{
    if s1.len() != s2.len() {
        return false;
    }
    let mut i: usize = 0;
    while i < s1.len()
        invariant
            s1@.len() == s2@.len(),
            i <= s1@.len(),
            T::obeys_eq_spec() ==> forall|k: int| 0 <= k < i ==> #[trigger] s1@[k].eq_spec(&s2@[k]),
        decreases s1@.len() - i,
    {
        if !(s1[i] == s2[i]) {
            return false;
        }
        i += 1;
    }
    true
}

/// `Index(s, v)` — the first index of an element equal to `v`, or -1.
pub fn Index<T: PartialEq>(s: &[T], v: &T) -> (r: i64)
    requires
        s@.len() <= i64::MAX,
    ensures
        T::obeys_eq_spec() ==> is_first_index(s@, *v, r as int),
        r == -1 || 0 <= r < s@.len(),
{
    let mut i: usize = 0;
    while i < s.len()
        invariant
            i <= s@.len(),
            s@.len() <= i64::MAX,
            T::obeys_eq_spec() ==> forall|k: int| 0 <= k < i ==> !#[trigger] s@[k].eq_spec(v),
        decreases s@.len() - i,
    {
        if s[i] == *v {
            return to_int(i);
        }
        i += 1;
    }
    -1
}

/// `Contains(s, v)` — some element equals `v`.
pub fn Contains<T: PartialEq>(s: &[T], v: &T) -> (r: bool)
    requires
        s@.len() <= i64::MAX,
    ensures
        T::obeys_eq_spec() ==> (r <==> exists|i: int| 0 <= i < s@.len() && #[trigger] s@[i].eq_spec(v)),
{
    let i = Index(s, v);
    proof {
        if T::obeys_eq_spec() && i >= 0 {
            assert(s@[i as int].eq_spec(v));
        }
    }
    i >= 0
}

/// `Delete(s, i, j)` — `s` without the elements `[i, j)`. Go panics on a
/// bad range; the range is required here.
pub fn Delete<T>(s: Vec<T>, i: i64, j: i64) -> (r: Vec<T>)
    requires
        0 <= i <= j <= s@.len(),
    ensures
        r@ == s@.subrange(0, i as int) + s@.subrange(j as int, s@.len() as int),
{
    let mut v = s;
    let n = v.len();
    assert(j <= n);
    let ju = j as usize;
    let iu = i as usize;
    assert(ju == j && iu == i);
    let mut tail = v.split_off(ju);
    v.truncate(iu);
    v.append(&mut tail);
    assert(v@ =~= s@.subrange(0, i as int) + s@.subrange(j as int, s@.len() as int));
    v
}

/// `Insert(s, i, v)` — `s` with clones of `v` inserted before index `i`.
/// Go panics when `i` is out of range; the range is required here.
pub fn Insert<T: Clone>(s: Vec<T>, i: i64, v: &[T]) -> (r: Vec<T>)
    requires
        0 <= i <= s@.len(),
        s@.len() + v@.len() <= usize::MAX,
    ensures
        r@.len() == s@.len() + v@.len(),
        r@.subrange(0, i as int) == s@.subrange(0, i as int),
        forall|k: int| 0 <= k < v@.len() ==> cloned::<T>(v@[k], #[trigger] r@[i + k]),
        r@.subrange(i + v@.len(), r@.len() as int) == s@.subrange(i as int, s@.len() as int),
        v@.len() == 0 ==> r@ == s@,
{
    if v.len() == 0 {
        return s;
    }
    let mut out = s;
    let ghost s0 = out@;
    let iu = i as usize;
    assert(iu == i);
    let mut tail = out.split_off(iu);
    let mut k: usize = 0;
    while k < v.len()
        invariant
            out@.len() == i + k,
            out@.subrange(0, i as int) == s0.subrange(0, i as int),
            forall|m: int| 0 <= m < k ==> cloned::<T>(v@[m], #[trigger] out@[i + m]),
            k <= v@.len(),
            0 <= i <= s0.len(),
            s0.len() + v@.len() <= usize::MAX,
            tail@ == s0.subrange(i as int, s0.len() as int),
        decreases v@.len() - k,
    {
        let x = v[k].clone();
        out.push(x);
        k += 1;
    }
    let ghost mid = out@;
    out.append(&mut tail);
    proof {
        assert(out@.subrange(0, i as int) =~= s0.subrange(0, i as int)) by {
            assert forall|m: int| 0 <= m < i implies out@[m] == s0[m] by {
                assert(mid.subrange(0, i as int)[m] == mid[m]);
            }
        }
        assert(out@.subrange(i + v@.len(), out@.len() as int) =~= s0.subrange(i as int, s0.len() as int));
        assert forall|m: int| 0 <= m < v@.len() implies cloned::<T>(v@[m], #[trigger] out@[i + m]) by {
            assert(out@[i + m] == mid[i + m]);
        }
    }
    out
}


/// Go's `Compare` from index `i` on: -1, 0 or 1 by the first unequal
/// pair, else by length.
pub open spec fn compare_from<T: Ord>(a: Seq<T>, b: Seq<T>, i: int) -> int
    decreases a.len() - i,
{
    if i < 0 || i >= a.len() || i >= b.len() {
        if a.len() < b.len() {
            -1
        } else if a.len() > b.len() {
            1
        } else {
            0
        }
    } else {
        match a[i].cmp_spec(&b[i]) {
            Ordering::Less => -1,
            Ordering::Greater => 1,
            Ordering::Equal => compare_from(a, b, i + 1),
        }
    }
}

/// Lexicographic order: when the first `k` pairs compare equal, `Compare`
/// is decided at `k` — -1 when the element of `a` there is less, 1 when
/// it is greater; when `k` runs off one slice, the shorter slice is
/// less, and two slices of the same length with all pairs equal compare
/// 0.
pub proof fn lemma_compare_first_difference<T: Ord>(a: Seq<T>, b: Seq<T>, k: int)
    requires
        0 <= k <= a.len(),
        k <= b.len(),
        forall|i: int| 0 <= i < k ==> #[trigger] a[i].cmp_spec(&b[i]) == Ordering::Equal,
    ensures
        k < a.len() && k < b.len() && a[k].cmp_spec(&b[k]) == Ordering::Less ==> compare_from(a, b, 0) == -1,
        k < a.len() && k < b.len() && a[k].cmp_spec(&b[k]) == Ordering::Greater ==> compare_from(a, b, 0) == 1,
        k == a.len() && k < b.len() ==> compare_from(a, b, 0) == -1,
        k == b.len() && k < a.len() ==> compare_from(a, b, 0) == 1,
        k == a.len() && k == b.len() ==> compare_from(a, b, 0) == 0,
{
    lemma_compare_skips_equal(a, b, 0, k);
}

/// Equal pairs are passed over.
proof fn lemma_compare_skips_equal<T: Ord>(a: Seq<T>, b: Seq<T>, i: int, k: int)
    requires
        0 <= i <= k <= a.len(),
        k <= b.len(),
        forall|m: int| 0 <= m < k ==> #[trigger] a[m].cmp_spec(&b[m]) == Ordering::Equal,
    ensures
        compare_from(a, b, i) == compare_from(a, b, k),
    decreases k - i,
{
    if i < k {
        assert(a[i].cmp_spec(&b[i]) == Ordering::Equal);
        lemma_compare_skips_equal(a, b, i + 1, k);
    }
}

/// `compare_from` at a `usize` index.
pub open spec fn compare_at<T: Ord>(a: Seq<T>, b: Seq<T>, i: usize) -> int {
    compare_from(a, b, i as int)
}

/// `Compare(s1, s2)` — lexicographic comparison: -1, 0 or 1.
pub fn Compare<T: Ord>(s1: &[T], s2: &[T]) -> (r: i64)
    ensures
        T::obeys_cmp_spec() ==> r == compare_from(s1@, s2@, 0),
        r == -1 || r == 0 || r == 1,
{
    let n = if s1.len() < s2.len() { s1.len() } else { s2.len() };
    let mut i: usize = 0;
    while i < n
        invariant
            n <= s1@.len(),
            n <= s2@.len(),
            n == s1@.len() || n == s2@.len(),
            i <= n,
            T::obeys_cmp_spec() ==> compare_from(s1@, s2@, 0) == compare_at(s1@, s2@, i),
        decreases n - i,
    {
        match s1[i].cmp(&s2[i]) {
            Ordering::Less => {
                return -1;
            },
            Ordering::Greater => {
                return 1;
            },
            Ordering::Equal => {},
        }
        i += 1;
    }
    if s1.len() < s2.len() {
        -1
    } else if s1.len() > s2.len() {
        1
    } else {
        0
    }
}

/// `s` with each run of consecutive equal elements cut to its first,
/// an element being compared with the last one kept.
pub open spec fn dedup<T: PartialEq>(s: Seq<T>) -> Seq<T>
    decreases s.len(),
{
    if s.len() == 0 {
        s
    } else {
        let d = dedup(s.drop_last());
        if d.len() > 0 && s.last().eq_spec(&d.last()) {
            d
        } else {
            d.push(s.last())
        }
    }
}

/// `Compact(s)` — removes consecutive equal elements.
pub fn Compact<T: PartialEq>(s: Vec<T>) -> (r: Vec<T>)
    ensures
        T::obeys_eq_spec() ==> r@ == dedup(s@),
        r@.len() <= s@.len(),
{
    let mut src = s;
    let ghost s0 = src@;
    let mut rev: Vec<T> = Vec::new();
    while src.len() > 0
        invariant
            rev@.len() + src@.len() == s0.len(),
            src@ == s0.subrange(0, src@.len() as int),
            forall|k: int| 0 <= k < rev@.len() ==> #[trigger] rev@[k] == s0[s0.len() - 1 - k],
        decreases src@.len(),
    {
        let x = src.pop().unwrap();
        rev.push(x);
    }
    let mut out: Vec<T> = Vec::new();
    proof {
        assert(s0.take(0) =~= Seq::<T>::empty());
    }
    while rev.len() > 0
        invariant
            rev@.len() <= s0.len(),
            forall|k: int| 0 <= k < rev@.len() ==> #[trigger] rev@[k] == s0[s0.len() - 1 - k],
            T::obeys_eq_spec() ==> out@ == dedup(s0.take(s0.len() - rev@.len())),
            out@.len() <= s0.len() - rev@.len(),
        decreases rev@.len(),
    {
        let ghost done = s0.len() - rev@.len();
        let x = rev.pop().unwrap();
        proof {
            assert(x == s0[done]);
            assert(s0.take(done + 1).drop_last() =~= s0.take(done));
        }
        let n = out.len();
        if n > 0 && x == out[n - 1] {
        } else {
            out.push(x);
        }
    }
    proof {
        assert(s0.take(s0.len() as int) =~= s0);
    }
    out
}

/// Element `i + 1` of `s` is equal to element `i`, by `T`'s `==`.
pub open spec fn adjacent_equal<T: PartialEq>(s: Seq<T>, i: int) -> bool {
    s[i + 1].eq_spec(&s[i])
}

/// No element of `s` equals the one before it.
pub open spec fn no_adjacent_equal<T: PartialEq>(s: Seq<T>) -> bool {
    forall|i: int| 0 <= i < s.len() - 1 ==> !#[trigger] adjacent_equal(s, i)
}

/// What `Compact` returns has no element equal to the one before it.
pub proof fn lemma_compact_no_adjacent_equal<T: PartialEq>(s: Seq<T>)
    ensures
        no_adjacent_equal(dedup(s)),
        dedup(s).len() <= s.len(),
    decreases s.len(),
{
    if s.len() > 0 {
        lemma_compact_no_adjacent_equal(s.drop_last());
        let d = dedup(s.drop_last());
        if !(d.len() > 0 && s.last().eq_spec(&d.last())) {
            let e = d.push(s.last());
            assert forall|i: int| 0 <= i < e.len() - 1 implies !#[trigger] adjacent_equal(e, i) by {
                if i < d.len() - 1 {
                    assert(!adjacent_equal(d, i));
                    assert(e[i] == d[i] && e[i + 1] == d[i + 1]);
                }
            }
        }
    }
}

/// A sequence with no element equal to the one before it is its own
/// compaction.
pub proof fn lemma_compact_fixed<T: PartialEq>(s: Seq<T>)
    requires
        no_adjacent_equal(s),
    ensures
        dedup(s) == s,
    decreases s.len(),
{
    if s.len() > 0 {
        let t = s.drop_last();
        assert forall|i: int| 0 <= i < t.len() - 1 implies !#[trigger] adjacent_equal(t, i) by {
            assert(!adjacent_equal(s, i));
        }
        lemma_compact_fixed(t);
        if t.len() > 0 {
            assert(!adjacent_equal(s, s.len() - 2));
            assert(t.last() == s[s.len() - 2]);
        }
        assert(t.push(s.last()) =~= s);
    }
}

/// `Compact` is idempotent: compacting a compacted sequence changes
/// nothing.
pub proof fn lemma_compact_idempotent<T: PartialEq>(s: Seq<T>)
    ensures
        dedup(dedup(s)) == dedup(s),
{
    lemma_compact_no_adjacent_equal(s);
    lemma_compact_fixed(dedup(s));
}

/// The elements of `parts`, in order.
pub open spec fn flat<T>(parts: Seq<Vec<T>>) -> Seq<T> {
    parts.map_values(|p: Vec<T>| p@).flatten()
}

/// `Concat(parts)` — clones of the elements of `parts`, in order.
pub fn Concat<T: Clone>(parts: &[Vec<T>]) -> (r: Vec<T>)
    requires
        flat(parts@).len() <= usize::MAX,
    ensures
        r@.len() == flat(parts@).len(),
        forall|k: int| 0 <= k < r@.len() ==> cloned::<T>(flat(parts@)[k], #[trigger] r@[k]),
{
    let ghost vs = parts@.map_values(|p: Vec<T>| p@);
    let mut out: Vec<T> = Vec::new();
    let mut p: usize = 0;
    proof {
        assert(vs.take(0) =~= Seq::<Seq<T>>::empty());
        assert(vs.take(0).flatten() =~= Seq::<T>::empty()) by {
            reveal_with_fuel(Seq::flatten, 1);
        }
    }
    while p < parts.len()
        invariant
            vs == parts@.map_values(|p: Vec<T>| p@),
            flat(parts@) == vs.flatten(),
            vs.flatten().len() <= usize::MAX,
            p <= parts@.len(),
            out@.len() == vs.take(p as int).flatten().len(),
            forall|k: int| 0 <= k < out@.len() ==> cloned::<T>(vs.take(p as int).flatten()[k], #[trigger] out@[k]),
        decreases parts@.len() - p,
    {
        let part = &parts[p];
        let ghost before = vs.take(p as int).flatten();
        proof {
            vstd::seq_lib::lemma_flatten_concat(vs.take(p as int), vs.skip(p as int));
            assert(vs.take(p as int) + vs.skip(p as int) =~= vs);
            vstd::seq_lib::lemma_flatten_concat(vs.take(p as int + 1), vs.skip(p as int + 1));
            assert(vs.take(p as int + 1) + vs.skip(p as int + 1) =~= vs);
            assert(vs.take(p as int + 1) =~= vs.take(p as int).push(part@));
            vs.take(p as int).lemma_flatten_push(part@);
        }
        let mut k: usize = 0;
        while k < part.len()
            invariant
                out@.len() == before.len() + k,
                k <= part@.len(),
                before.len() + part@.len() <= usize::MAX,
                forall|m: int| 0 <= m < out@.len() ==> cloned::<T>((before + part@)[m], #[trigger] out@[m]),
            decreases part@.len() - k,
        {
            let x = part[k].clone();
            out.push(x);
            k += 1;
        }
        p += 1;
    }
    proof {
        assert(vs.take(parts@.len() as int) =~= vs);
    }
    out
}

/// `Clone(s)` — a new slice of clones of the elements of `s`.
pub fn Clone<T: Clone>(s: &[T]) -> (r: Vec<T>)
    ensures
        r@.len() == s@.len(),
        forall|k: int| 0 <= k < s@.len() ==> cloned::<T>(s@[k], #[trigger] r@[k]),
{
    let mut out: Vec<T> = Vec::new();
    let mut k: usize = 0;
    while k < s.len()
        invariant
            out@.len() == k,
            k <= s@.len(),
            forall|m: int| 0 <= m < k ==> cloned::<T>(s@[m], #[trigger] out@[m]),
        decreases s@.len() - k,
    {
        let x = s[k].clone();
        out.push(x);
        k += 1;
    }
    out
}

/// `Reverse(s)` — reverses `s` in place.
pub fn Reverse<T>(s: &mut Vec<T>)
    ensures
        final(s)@ == old(s)@.reverse(),
{
    let mut out: Vec<T> = Vec::new();
    let ghost s0 = s@;
    while s.len() > 0
        invariant
            out@.len() + s@.len() == s0.len(),
            s@ == s0.subrange(0, s@.len() as int),
            forall|k: int| 0 <= k < out@.len() ==> #[trigger] out@[k] == s0[s0.len() - 1 - k],
        decreases s@.len(),
    {
        let x = s.pop().unwrap();
        out.push(x);
    }
    *s = out;
    assert(s@ =~= s0.reverse());
}

/// `Repeat(x, count)` — `count` copies of `x` end to end. Go panics on a
/// negative count or when the length overflows; both are required here.
pub fn Repeat<T: Clone>(x: &[T], count: i64) -> (r: Vec<T>)
    requires
        count >= 0,
        x@.len() * count <= usize::MAX,
    ensures
        r@.len() == x@.len() * count,
        forall|k: int| 0 <= k < r@.len() ==> cloned::<T>(x@[k % (x@.len() as int)], #[trigger] r@[k]),
{
    let n = x.len();
    let mut out: Vec<T> = Vec::new();
    if n == 0 || count == 0 {
        proof {
            assert(x@.len() * count == 0) by (nonlinear_arith)
                requires x@.len() == 0 || count == 0;
        }
        return out;
    }
    assert(count <= x@.len() * count) by (nonlinear_arith)
        requires x@.len() >= 1, count >= 0;
    let c = count as usize;
    assert(c == count);
    let total = n * c;
    let mut k: usize = 0;
    while k < total
        invariant
            out@.len() == k,
            k <= total,
            n == x@.len(),
            n > 0,
            forall|m: int| 0 <= m < k ==> cloned::<T>(x@[m % (n as int)], #[trigger] out@[m]),
        decreases total - k,
    {
        let y = x[k % n].clone();
        out.push(y);
        k += 1;
    }
    out
}

/// `Replace(s, i, j, v)` — `s` with `s[i..j]` replaced by clones of `v`.
/// Go panics on a bad range; the range is required here.
pub fn Replace<T: Clone>(s: Vec<T>, i: i64, j: i64, v: &[T]) -> (r: Vec<T>)
    requires
        0 <= i <= j <= s@.len(),
        s@.len() + v@.len() <= usize::MAX,
    ensures
        r@.len() == s@.len() - (j - i) + v@.len(),
        r@.subrange(0, i as int) == s@.subrange(0, i as int),
        forall|k: int| 0 <= k < v@.len() ==> cloned::<T>(v@[k], #[trigger] r@[i + k]),
        r@.subrange(i + v@.len(), r@.len() as int) == s@.subrange(j as int, s@.len() as int),
{
    if i == j {
        return Insert(s, i, v);
    }
    let mut out = s;
    let n = out.len();
    assert(j <= n);
    let iu = i as usize;
    let ju = j as usize;
    assert(iu == i && ju == j);
    let mut tail = out.split_off(ju);
    out.truncate(iu);
    let ghost s0 = s@;
    let mut k: usize = 0;
    while k < v.len()
        invariant
            out@.len() == i + k,
            out@.subrange(0, i as int) == s0.subrange(0, i as int),
            forall|m: int| 0 <= m < k ==> cloned::<T>(v@[m], #[trigger] out@[i + m]),
            k <= v@.len(),
            0 <= i <= j <= s0.len(),
            s0.len() + v@.len() <= usize::MAX,
            tail@ == s0.subrange(j as int, s0.len() as int),
        decreases v@.len() - k,
    {
        let x = v[k].clone();
        out.push(x);
        k += 1;
    }
    let ghost mid = out@;
    out.append(&mut tail);
    proof {
        assert(out@.subrange(0, i as int) =~= s0.subrange(0, i as int)) by {
            assert forall|m: int| 0 <= m < i implies out@[m] == s0[m] by {
                assert(mid.subrange(0, i as int)[m] == mid[m]);
            }
        }
        assert(out@.subrange(i + v@.len(), out@.len() as int) =~= s0.subrange(j as int, s0.len() as int));
        assert forall|m: int| 0 <= m < v@.len() implies cloned::<T>(v@[m], #[trigger] out@[i + m]) by {
            assert(out@[i + m] == mid[i + m]);
        }
    }
    out
}

/// `Grow(s, n)` — `s` with room for `n` more elements. Go panics on a
/// negative `n`; that is required here.
pub fn Grow<T>(s: Vec<T>, n: i64) -> (r: Vec<T>)
    requires
        n >= 0,
        s@.len() + n <= usize::MAX,
    ensures
        r@ == s@,
{
    let mut v = s;
    let len = v.len();
    assert(n <= usize::MAX - len);
    v.reserve(n as usize);
    v
}

/// `Vec::shrink_to_fit`: drops spare capacity and keeps the elements.
#[verifier::external_body]
fn shrink_to_fit<T>(v: &mut Vec<T>)
    ensures
        final(v)@ == old(v)@,
{
    v.shrink_to_fit();
}

/// `Clip(s)` — `s` without spare capacity.
pub fn Clip<T>(s: Vec<T>) -> (r: Vec<T>)
    ensures
        r@ == s@,
{
    let mut v = s;
    shrink_to_fit(&mut v);
    v
}

/// `EqualFunc(s1, s2, eq)` — same length and `eq` holds pairwise, the
/// pairs tried in order until one fails.
pub fn EqualFunc<T, U, F: Fn(&T, &U) -> bool>(s1: &[T], s2: &[U], eq: F) -> (r: bool)
    requires
        forall|i: int| 0 <= i < s1@.len() && i < s2@.len() ==> #[trigger] eq.requires((&s1@[i], &s2@[i])),
    ensures
        r ==> s1@.len() == s2@.len() && forall|i: int|
            0 <= i < s1@.len() ==> #[trigger] eq.ensures((&s1@[i], &s2@[i]), true),
        !r ==> s1@.len() != s2@.len() || exists|i: int|
            0 <= i < s1@.len() && #[trigger] eq.ensures((&s1@[i], &s2@[i]), false) && forall|k: int|
                0 <= k < i ==> #[trigger] eq.ensures((&s1@[k], &s2@[k]), true),
{
    if s1.len() != s2.len() {
        return false;
    }
    let mut i: usize = 0;
    while i < s1.len()
        invariant
            s1@.len() == s2@.len(),
            i <= s1@.len(),
            forall|i: int| 0 <= i < s1@.len() && i < s2@.len() ==> #[trigger] eq.requires((&s1@[i], &s2@[i])),
            forall|k: int| 0 <= k < i ==> #[trigger] eq.ensures((&s1@[k], &s2@[k]), true),
        decreases s1@.len() - i,
    {
        if !eq(&s1[i], &s2[i]) {
            return false;
        }
        i += 1;
    }
    true
}

/// The sign of `c`: -1, 0 or 1.
pub open spec fn sign(c: int) -> int {
    if c < 0 {
        -1
    } else if c > 0 {
        1
    } else {
        0
    }
}

/// `f` gave 0 on each of the first `k` pairs of `a` and `b`.
pub open spec fn zeros_before<T, U, F: Fn(&T, &U) -> i64>(f: F, a: Seq<T>, b: Seq<U>, k: int) -> bool {
    &&& 0 <= k <= a.len()
    &&& k <= b.len()
    &&& forall|m: int| 0 <= m < k ==> #[trigger] f.ensures((&a[m], &b[m]), 0i64)
}

/// `CompareFunc(s1, s2, compare)` — lexicographic comparison by `compare`:
/// the sign of the first nonzero result, else by length.
pub fn CompareFunc<T, U, F: Fn(&T, &U) -> i64>(s1: &[T], s2: &[U], compare: F) -> (r: i64)
    requires
        forall|i: int| 0 <= i < s1@.len() && i < s2@.len() ==> #[trigger] compare.requires((&s1@[i], &s2@[i])),
    ensures
        exists|k: int|
            #[trigger] zeros_before(compare, s1@, s2@, k) && if k < s1@.len() && k < s2@.len() {
                exists|c: i64| c != 0 && r == sign(c as int) && #[trigger] compare.ensures((&s1@[k], &s2@[k]), c)
            } else {
                r == sign(s1@.len() - s2@.len())
            },
{
    let n = if s1.len() < s2.len() { s1.len() } else { s2.len() };
    let mut i: usize = 0;
    while i < n
        invariant
            n <= s1@.len(),
            n <= s2@.len(),
            n == s1@.len() || n == s2@.len(),
            i <= n,
            forall|i: int| 0 <= i < s1@.len() && i < s2@.len() ==> #[trigger] compare.requires((&s1@[i], &s2@[i])),
            forall|m: int| 0 <= m < i ==> #[trigger] compare.ensures((&s1@[m], &s2@[m]), 0i64),
        decreases n - i,
    {
        let c = compare(&s1[i], &s2[i]);
        if c != 0 {
            let r: i64 = if c < 0 { -1 } else { 1 };
            assert(r == sign(c as int));
            assert(zeros_before(compare, s1@, s2@, i as int));
            return r;
        }
        i += 1;
    }
    assert(zeros_before(compare, s1@, s2@, i as int));
    if s1.len() < s2.len() {
        -1
    } else if s1.len() > s2.len() {
        1
    } else {
        0
    }
}

/// `IndexFunc(s, pred)` — the first index where `pred` holds, or -1.
pub fn IndexFunc<T, F: Fn(&T) -> bool>(s: &[T], pred: F) -> (r: i64)
    requires
        s@.len() <= i64::MAX,
        forall|i: int| 0 <= i < s@.len() ==> #[trigger] pred.requires((&s@[i],)),
    ensures
        r == -1 || 0 <= r < s@.len(),
        r >= 0 ==> pred.ensures((&s@[r as int],), true),
        forall|i: int| 0 <= i < s@.len() && (r == -1 || i < r) ==> #[trigger] pred.ensures((&s@[i],), false),
{
    let mut i: usize = 0;
    while i < s.len()
        invariant
            i <= s@.len(),
            s@.len() <= i64::MAX,
            forall|i: int| 0 <= i < s@.len() ==> #[trigger] pred.requires((&s@[i],)),
            forall|k: int| 0 <= k < i ==> #[trigger] pred.ensures((&s@[k],), false),
        decreases s@.len() - i,
    {
        if pred(&s[i]) {
            return to_int(i);
        }
        i += 1;
    }
    -1
}

/// `pred`, handed a clone of `a`, gave `v`.
pub open spec fn answered<T: Clone, F: Fn(T) -> bool>(pred: F, a: T, v: bool) -> bool {
    exists|x: T| cloned::<T>(a, x) && #[trigger] pred.ensures((x,), v)
}

/// `IndexFunc` with a predicate that takes each element by value: it
/// gets a clone.
pub fn IndexFuncOwned<T: Clone, F: Fn(T) -> bool>(s: &[T], pred: F) -> (r: i64)
    requires
        s@.len() <= i64::MAX,
        forall|x: T| #[trigger] pred.requires((x,)),
    ensures
        r == -1 || 0 <= r < s@.len(),
        r >= 0 ==> answered(pred, s@[r as int], true),
        forall|i: int| 0 <= i < s@.len() && (r == -1 || i < r) ==> #[trigger] answered(pred, s@[i], false),
{
    let mut i: usize = 0;
    while i < s.len()
        invariant
            i <= s@.len(),
            s@.len() <= i64::MAX,
            forall|x: T| #[trigger] pred.requires((x,)),
            forall|k: int| 0 <= k < i ==> #[trigger] answered(pred, s@[k], false),
        decreases s@.len() - i,
    {
        let x = s[i].clone();
        let ghost gx = x;
        let b = pred(x);
        proof {
            assert(cloned::<T>(s@[i as int], gx));
            assert(pred.ensures((gx,), b));
        }
        if b {
            return to_int(i);
        }
        i += 1;
    }
    -1
}

/// `ContainsFunc(s, pred)` — `pred` holds for (a clone of) some element.
pub fn ContainsFunc<T: Clone, F: Fn(T) -> bool>(s: &[T], pred: F) -> (r: bool)
    requires
        s@.len() <= i64::MAX,
        forall|x: T| #[trigger] pred.requires((x,)),
    ensures
        r ==> exists|i: int| 0 <= i < s@.len() && #[trigger] answered(pred, s@[i], true),
        !r ==> forall|i: int| 0 <= i < s@.len() ==> #[trigger] answered(pred, s@[i], false),
{
    let r = IndexFuncOwned(s, pred);
    r >= 0
}

/// The elements of `s` whose mark in `drop` is false, in order.
pub open spec fn keep_unmarked<T>(s: Seq<T>, drop: Seq<bool>) -> Seq<T>
    decreases s.len(),
{
    if s.len() == 0 {
        s
    } else {
        let k = keep_unmarked(s.drop_last(), drop.take(s.len() - 1));
        if drop[s.len() - 1] {
            k
        } else {
            k.push(s.last())
        }
    }
}

/// `drop[i]` is what `pred` answered for `s[i]`.
pub open spec fn decided_by<T, F: Fn(&T) -> bool>(pred: F, s: Seq<T>, drop: Seq<bool>) -> bool {
    drop.len() == s.len() && forall|i: int| 0 <= i < s.len() ==> #[trigger] pred.ensures((&s[i],), drop[i])
}

/// `DeleteFunc(s, pred)` — `s` without the elements for which `pred`
/// holds; `pred` is asked once per element, in order.
pub fn DeleteFunc<T, F: Fn(&T) -> bool>(s: Vec<T>, pred: F) -> (r: Vec<T>)
    requires
        forall|i: int| 0 <= i < s@.len() ==> #[trigger] pred.requires((&s@[i],)),
    ensures
        exists|drop: Seq<bool>| #[trigger] decided_by(pred, s@, drop) && r@ == keep_unmarked(s@, drop),
{
    let mut src = s;
    let ghost s0 = src@;
    let mut rev: Vec<T> = Vec::new();
    while src.len() > 0
        invariant
            rev@.len() + src@.len() == s0.len(),
            src@ == s0.subrange(0, src@.len() as int),
            forall|k: int| 0 <= k < rev@.len() ==> #[trigger] rev@[k] == s0[s0.len() - 1 - k],
        decreases src@.len(),
    {
        let x = src.pop().unwrap();
        rev.push(x);
    }
    let mut out: Vec<T> = Vec::new();
    let ghost mut drop: Seq<bool> = Seq::empty();
    proof {
        assert(s0.take(0) =~= Seq::<T>::empty());
    }
    while rev.len() > 0
        invariant
            rev@.len() <= s0.len(),
            forall|i: int| 0 <= i < s0.len() ==> #[trigger] pred.requires((&s0[i],)),
            forall|k: int| 0 <= k < rev@.len() ==> #[trigger] rev@[k] == s0[s0.len() - 1 - k],
            drop.len() == s0.len() - rev@.len(),
            decided_by(pred, s0.take(drop.len() as int), drop),
            out@ == keep_unmarked(s0.take(drop.len() as int), drop),
        decreases rev@.len(),
    {
        let ghost done = drop.len() as int;
        let x = rev.pop().unwrap();
        assert(x == s0[done]);
        let b = pred(&x);
        proof {
            let nd = drop.push(b);
            assert(s0.take(done + 1).drop_last() =~= s0.take(done));
            assert(nd.take(done) =~= drop);
            assert forall|i: int| 0 <= i < done + 1 implies #[trigger] pred.ensures((&s0.take(done + 1)[i],), nd[i]) by {
                if i < done {
                    assert(s0.take(done)[i] == s0.take(done + 1)[i]);
                }
            }
            drop = nd;
        }
        if !b {
            out.push(x);
        }
    }
    proof {
        assert(s0.take(s0.len() as int) =~= s0);
    }
    out
}

/// `s` with each element for which `dec` is true left out, except the
/// first element, which always stays: the result of `dedup_by` when
/// `dec[i]` is the answer for `s[i]` against the last element kept.
pub open spec fn compacted<T>(s: Seq<T>, dec: Seq<bool>) -> Seq<T>
    decreases s.len(),
{
    if s.len() == 0 {
        s
    } else {
        let d = compacted(s.drop_last(), dec.take(s.len() - 1));
        if d.len() > 0 && dec[s.len() - 1] {
            d
        } else {
            d.push(s.last())
        }
    }
}

/// `dec[i]` is what `eq` answered for `s[i]` against the last element
/// kept before it.
pub open spec fn compact_decided<T, F: Fn(&T, &T) -> bool>(eq: F, s: Seq<T>, dec: Seq<bool>) -> bool {
    &&& dec.len() == s.len()
    &&& forall|i: int|
        0 < i < s.len() ==> #[trigger] eq.ensures((&s[i], &compacted(s.take(i), dec.take(i)).last()), dec[i])
}

proof fn lemma_compacted_nonempty<T>(s: Seq<T>, dec: Seq<bool>)
    requires
        s.len() > 0,
    ensures
        compacted(s, dec).len() > 0,
        compacted(s, dec).len() <= s.len(),
    decreases s.len(),
{
    if s.len() > 1 {
        lemma_compacted_nonempty(s.drop_last(), dec.take(s.len() - 1));
    } else {
        assert(compacted(s.drop_last(), dec.take(0)).len() == 0);
    }
}

/// `CompactFunc(s, eq)` — removes each element for which `eq` holds
/// against the last element kept.
pub fn CompactFunc<T, F: Fn(&T, &T) -> bool>(s: Vec<T>, eq: F) -> (r: Vec<T>)
    requires
        forall|a: &T, b: &T| #[trigger] eq.requires((a, b)),
    ensures
        exists|dec: Seq<bool>| #[trigger] compact_decided(eq, s@, dec) && r@ == compacted(s@, dec),
{
    let mut src = s;
    let ghost s0 = src@;
    let mut rev: Vec<T> = Vec::new();
    while src.len() > 0
        invariant
            rev@.len() + src@.len() == s0.len(),
            src@ == s0.subrange(0, src@.len() as int),
            forall|k: int| 0 <= k < rev@.len() ==> #[trigger] rev@[k] == s0[s0.len() - 1 - k],
        decreases src@.len(),
    {
        let x = src.pop().unwrap();
        rev.push(x);
    }
    let mut out: Vec<T> = Vec::new();
    let ghost mut dec: Seq<bool> = Seq::empty();
    proof {
        assert(s0.take(0) =~= Seq::<T>::empty());
    }
    while rev.len() > 0
        invariant
            rev@.len() <= s0.len(),
            forall|a: &T, b: &T| #[trigger] eq.requires((a, b)),
            forall|k: int| 0 <= k < rev@.len() ==> #[trigger] rev@[k] == s0[s0.len() - 1 - k],
            dec.len() == s0.len() - rev@.len(),
            compact_decided(eq, s0.take(dec.len() as int), dec),
            out@ == compacted(s0.take(dec.len() as int), dec),
        decreases rev@.len(),
    {
        let ghost done = dec.len() as int;
        let x = rev.pop().unwrap();
        assert(x == s0[done]);
        let n = out.len();
        let b = if n == 0 { false } else { eq(&x, &out[n - 1]) };
        proof {
            let nd = dec.push(b);
            let t = s0.take(done + 1);
            assert(t.drop_last() =~= s0.take(done));
            assert(nd.take(done) =~= dec);
            if done > 0 {
                lemma_compacted_nonempty(s0.take(done), dec);
            }
            assert forall|i: int| 0 < i < done + 1 implies #[trigger] eq.ensures(
                (&t[i], &compacted(t.take(i), nd.take(i)).last()),
                nd[i],
            ) by {
                if i < done {
                    assert(t.take(i) =~= s0.take(done).take(i));
                    assert(nd.take(i) =~= dec.take(i));
                    assert(t[i] == s0.take(done)[i]);
                } else {
                    assert(t.take(i) =~= s0.take(done));
                    assert(nd.take(i) =~= dec);
                }
            }
            dec = nd;
        }
        if !b {
            out.push(x);
        }
    }
    proof {
        assert(s0.take(s0.len() as int) =~= s0);
    }
    out
}

} // verus!
