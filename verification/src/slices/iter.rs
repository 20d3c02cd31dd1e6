//! The bridge between slices and iterator sequences. A sequence is held
//! as the vector of the values it yields, in order.
#![allow(non_snake_case)]

use vstd::prelude::*;
use super::to_int;
use super::sort::{lt, gt, sorted, obeys_order, lawful_order, lemma_lawful_order, gave_neg, gave_nonneg};

verus! {

/// `Collect(seq)` — the values of `seq` as a slice.
pub fn Collect<T>(seq: Vec<T>) -> (r: Vec<T>)
    ensures
        r@ == seq@,
{
    seq
}

/// `AppendSeq(s, seq)` — `s` followed by the values of `seq`.
pub fn AppendSeq<T>(s: Vec<T>, seq: Vec<T>) -> (r: Vec<T>)
    ensures
        r@ == s@ + seq@,
{
    let mut v = s;
    let mut w = seq;
    v.append(&mut w);
    v
}

/// `Values(s)` — the sequence of (clones of) the elements of `s`.
pub fn Values<T: Clone>(s: &[T]) -> (r: Vec<T>)
    ensures
        r@.len() == s@.len(),
        forall|k: int| 0 <= k < s@.len() ==> cloned::<T>(s@[k], #[trigger] r@[k]),
{
    let mut out: Vec<T> = Vec::new();
    let mut k: usize = 0;
    while k < s.len()
        invariant
            out@.len() == k,
            k <= s@.len(),
            forall|m: int| 0 <= m < k ==> cloned::<T>(s@[m], #[trigger] out@[m]),
        decreases s@.len() - k,
    {
        let x = s[k].clone();
        out.push(x);
        k += 1;
    }
    out
}

/// `All(s)` — the sequence of (index, element) pairs, front to back.
pub fn All<T: Clone>(s: &[T]) -> (r: Vec<(i64, T)>)
    requires
        s@.len() <= i64::MAX,
    ensures
        r@.len() == s@.len(),
        forall|k: int| 0 <= k < s@.len() ==> (#[trigger] r@[k]).0 == k && cloned::<T>(s@[k], r@[k].1),
{
    let mut out: Vec<(i64, T)> = Vec::new();
    let mut k: usize = 0;
    while k < s.len()
        invariant
            out@.len() == k,
            k <= s@.len(),
            s@.len() <= i64::MAX,
            forall|m: int| 0 <= m < k ==> (#[trigger] out@[m]).0 == m && cloned::<T>(s@[m], out@[m].1),
        decreases s@.len() - k,
    {
        let x = s[k].clone();
        out.push((to_int(k), x));
        k += 1;
    }
    out
}

/// `Backward(s)` — the sequence of (index, element) pairs, back to
/// front.
pub fn Backward<T: Clone>(s: &[T]) -> (r: Vec<(i64, T)>)
    requires
        s@.len() <= i64::MAX,
    ensures
        r@.len() == s@.len(),
        forall|k: int|
            0 <= k < s@.len() ==> (#[trigger] r@[k]).0 == s@.len() - 1 - k && cloned::<T>(
                s@[s@.len() - 1 - k],
                r@[k].1,
            ),
{
    let mut out: Vec<(i64, T)> = Vec::new();
    let mut k: usize = s.len();
    while k > 0
        invariant
            out@.len() == s@.len() - k,
            k <= s@.len(),
            s@.len() <= i64::MAX,
            forall|m: int|
                0 <= m < out@.len() ==> (#[trigger] out@[m]).0 == s@.len() - 1 - m && cloned::<T>(
                    s@[s@.len() - 1 - m],
                    out@[m].1,
                ),
        decreases k,
    {
        k -= 1;
        let x = s[k].clone();
        out.push((to_int(k), x));
    }
    out
}

/// The values of `v` in order, by moving them into a vector that yields
/// them back to front when popped.
fn reversed<T>(v: Vec<T>) -> (r: Vec<T>)
    ensures
        r@ == v@.reverse(),
{
    let mut src = v;
    let ghost s0 = src@;
    let mut rev: Vec<T> = Vec::new();
    while src.len() > 0
        invariant
            rev@.len() + src@.len() == s0.len(),
            src@ == s0.subrange(0, src@.len() as int),
            forall|k: int| 0 <= k < rev@.len() ==> #[trigger] rev@[k] == s0[s0.len() - 1 - k],
        decreases src@.len(),
    {
        let x = src.pop().unwrap();
        rev.push(x);
    }
    assert(rev@ =~= s0.reverse());
    rev
}

/// `Sorted(seq)` — the values of `seq`, sorted ascending. Equal values
/// keep their order.
pub fn Sorted<T: Ord>(seq: Vec<T>) -> (r: Vec<T>)
    ensures
        r@.to_multiset() == seq@.to_multiset(),
        lawful_order::<T>() ==> sorted(r@),
{
    let ghost s0 = seq@;
    let mut rev = reversed(seq);
    let mut out: Vec<T> = Vec::new();
    proof {
        if lawful_order::<T>() {
            lemma_lawful_order::<T>();
        }
        assert(s0.take(0) =~= Seq::<T>::empty());
    }
    while rev.len() > 0
        invariant
            rev@.len() <= s0.len(),
            forall|k: int| 0 <= k < rev@.len() ==> #[trigger] rev@[k] == s0[s0.len() - 1 - k],
            out@.to_multiset() == s0.take(s0.len() - rev@.len()).to_multiset(),
            lawful_order::<T>() ==> sorted(out@),
            lawful_order::<T>() ==> forall|a: T, b: T| #[trigger] lt(a, b) <==> gt(b, a),
            lawful_order::<T>() ==> obeys_order::<T>(),
        decreases rev@.len(),
    {
        let ghost done = s0.len() - rev@.len();
        let x = rev.pop().unwrap();
        assert(x == s0[done]);
        let mut p = out.len();
        let mut moving = true;
        while moving && p > 0
            invariant
                p <= out@.len(),
                lawful_order::<T>() ==> obeys_order::<T>(),
                lawful_order::<T>() ==> forall|k: int| p <= k < out@.len() ==> #[trigger] lt(x, out@[k]),
                lawful_order::<T>() && !moving ==> p > 0 && !lt(x, out@[p - 1]),
            decreases p + (if moving { 1int } else { 0int }),
        {
            if x < out[p - 1] {
                p -= 1;
            } else {
                moving = false;
            }
        }
        let ghost old_out = out@;
        out.insert(p, x);
        proof {
            vstd::seq_lib::to_multiset_insert(old_out, p as int, x);
            vstd::seq_lib::to_multiset_build(s0.take(done as int), x);
            assert(s0.take(done + 1) =~= s0.take(done as int).push(x));
            if lawful_order::<T>() {
                lemma_lawful_order::<T>();
                assert forall|i: int| 1 <= i < out@.len() implies !#[trigger] lt(out@[i], out@[i - 1]) by {
                    if i < p {
                        assert(out@[i] == old_out[i] && out@[i - 1] == old_out[i - 1]);
                    } else if i == p {
                    } else if i == p + 1 {
                        assert(lt(x, old_out[p as int]));
                        assert(gt(old_out[p as int], x));
                    } else {
                        let k = i - 1;
                        assert(out@[i] == old_out[k] && out@[i - 1] == old_out[k - 1]);
                        assert(!lt(old_out[k], old_out[k - 1]));
                    }
                }
            }
        }
    }
    proof {
        assert(s0.take(s0.len() as int) =~= s0);
    }
    out
}

/// Each adjacent pair `(a, b)` of `r` was found in order by `f`: `f(b, a)`
/// was not negative, or `f(a, b)` was.
pub open spec fn pairs_in_order<T, F: Fn(&T, &T) -> i64>(f: F, r: Seq<T>) -> bool {
    forall|i: int|
        1 <= i < r.len() ==> #[trigger] gave_nonneg(f, r[i], r[i - 1]) || gave_neg(f, r[i - 1], r[i])
}

/// Insertion sort by `f`; equal values keep their order.
fn sort_by_func<T, F: Fn(&T, &T) -> i64>(seq: Vec<T>, f: &F) -> (r: Vec<T>)
    requires
        forall|a: &T, b: &T| #[trigger] f.requires((a, b)),
    ensures
        r@.to_multiset() == seq@.to_multiset(),
        pairs_in_order(*f, r@),
{
    let ghost s0 = seq@;
    let mut rev = reversed(seq);
    let mut out: Vec<T> = Vec::new();
    proof {
        assert(s0.take(0) =~= Seq::<T>::empty());
    }
    while rev.len() > 0
        invariant
            rev@.len() <= s0.len(),
            forall|a: &T, b: &T| #[trigger] f.requires((a, b)),
            forall|k: int| 0 <= k < rev@.len() ==> #[trigger] rev@[k] == s0[s0.len() - 1 - k],
            out@.to_multiset() == s0.take(s0.len() - rev@.len()).to_multiset(),
            pairs_in_order(*f, out@),
        decreases rev@.len(),
    {
        let ghost done = s0.len() - rev@.len();
        let x = rev.pop().unwrap();
        assert(x == s0[done]);
        let mut p = out.len();
        let mut moving = true;
        while moving && p > 0
            invariant
                p <= out@.len(),
                forall|a: &T, b: &T| #[trigger] f.requires((a, b)),
                p < out@.len() ==> gave_neg(*f, x, out@[p as int]),
                !moving ==> p > 0 && gave_nonneg(*f, x, out@[p - 1]),
            decreases p + (if moving { 1int } else { 0int }),
        {
            let c = f(&x, &out[p - 1]);
            if c < 0 {
                assert(gave_neg(*f, x, out@[p - 1]));
                p -= 1;
            } else {
                assert(gave_nonneg(*f, x, out@[p - 1]));
                moving = false;
            }
        }
        let ghost old_out = out@;
        out.insert(p, x);
        proof {
            vstd::seq_lib::to_multiset_insert(old_out, p as int, x);
            vstd::seq_lib::to_multiset_build(s0.take(done as int), x);
            assert(s0.take(done + 1) =~= s0.take(done as int).push(x));
            assert forall|i: int| 1 <= i < out@.len() implies #[trigger] gave_nonneg(*f, out@[i], out@[i - 1])
                || gave_neg(*f, out@[i - 1], out@[i]) by {
                if i < p {
                    assert(out@[i] == old_out[i] && out@[i - 1] == old_out[i - 1]);
                    assert(gave_nonneg(*f, old_out[i], old_out[i - 1]) || gave_neg(*f, old_out[i - 1], old_out[i]));
                } else if i == p {
                } else if i == p + 1 {
                } else {
                    let k = i - 1;
                    assert(out@[i] == old_out[k] && out@[i - 1] == old_out[k - 1]);
                    assert(gave_nonneg(*f, old_out[k], old_out[k - 1]) || gave_neg(*f, old_out[k - 1], old_out[k]));
                }
            }
        }
    }
    proof {
        assert(s0.take(s0.len() as int) =~= s0);
    }
    out
}

/// `SortedFunc(seq, f)` — the values of `seq` sorted by `f` (negative:
/// `a` before `b`).
pub fn SortedFunc<T, F: Fn(&T, &T) -> i64>(seq: Vec<T>, f: F) -> (r: Vec<T>)
    requires
        forall|a: &T, b: &T| #[trigger] f.requires((a, b)),
    ensures
        r@.to_multiset() == seq@.to_multiset(),
        pairs_in_order(f, r@),
{
    sort_by_func(seq, &f)
}

/// `SortedStableFunc(seq, f)` — as `SortedFunc`; equal values keep their
/// order.
pub fn SortedStableFunc<T, F: Fn(&T, &T) -> i64>(seq: Vec<T>, f: F) -> (r: Vec<T>)
    requires
        forall|a: &T, b: &T| #[trigger] f.requires((a, b)),
    ensures
        r@.to_multiset() == seq@.to_multiset(),
        pairs_in_order(f, r@),
{
    sort_by_func(seq, &f)
}

/// Number of chunks of `n` that cover `len` elements.
pub open spec fn chunk_count(len: int, n: int) -> int {
    (len + n - 1) / n
}

/// `Chunk(s, n)` — consecutive pieces of `s` of `n` elements each, the
/// last one possibly shorter. Go panics when `n < 1`; that is required
/// here.
pub fn Chunk<T: Clone>(s: Vec<T>, n: i64) -> (r: Vec<Vec<T>>)
    requires
        n >= 1,
        s@.len() + n <= usize::MAX,
    ensures
        r@.len() == chunk_count(s@.len() as int, n as int),
        forall|c: int|
            0 <= c < r@.len() ==> (#[trigger] r@[c])@.len() == (if s@.len() - c * n < n {
                s@.len() - c * n
            } else {
                n as int
            }),
        forall|c: int, j: int|
            0 <= c < r@.len() && 0 <= j < r@[c]@.len() ==> cloned::<T>(s@[c * n + j], #[trigger] r@[c]@[j]),
{
    let total = s.len();
    assert(n <= usize::MAX);
    let nu = n as usize;
    assert(nu == n);
    let mut out: Vec<Vec<T>> = Vec::new();
    let mut i: usize = 0;
    while i < total
        invariant
            nu == n,
            nu >= 1,
            total == s@.len(),
            total + nu <= usize::MAX,
            i == out@.len() * n,
            out@.len() > 0 ==> (out@.len() - 1) * n < total,
            out@.len() == 0 ==> i == 0,
            i <= total + nu,
            forall|c: int|
                0 <= c < out@.len() ==> (#[trigger] out@[c])@.len() == (if s@.len() - c * n < n {
                    s@.len() - c * n
                } else {
                    n as int
                }),
            forall|c: int, j: int|
                0 <= c < out@.len() && 0 <= j < out@[c]@.len() ==> cloned::<T>(s@[c * n + j], #[trigger] out@[c]@[j]),
        decreases total + nu - i,
    {
        let remaining = total - i;
        let end = if nu < remaining { nu } else { remaining };
        let mut chunk: Vec<T> = Vec::new();
        let mut j: usize = 0;
        while j < end
            invariant
                chunk@.len() == j,
                j <= end,
                i + end <= total,
                total == s@.len(),
                forall|m: int| 0 <= m < j ==> cloned::<T>(s@[i + m], #[trigger] chunk@[m]),
            decreases end - j,
        {
            let x = s[i + j].clone();
            chunk.push(x);
            j += 1;
        }
        let ghost c0 = out@.len() as int;
        out.push(chunk);
        proof {
            assert((c0 + 1) * n == c0 * n + n) by (nonlinear_arith);
            assert forall|c: int, j: int|
                0 <= c < out@.len() && 0 <= j < out@[c]@.len() implies cloned::<T>(s@[c * n + j], #[trigger] out@[c]@[j]) by {
                if c == c0 {
                    assert(out@[c] == chunk);
                }
            }
        }
        i += nu;
    }
    proof {
        let len = s@.len() as int;
        let k = out@.len() as int;
        assert(chunk_count(len, n as int) == k) by {
            if k == 0 {
                assert(len == 0);
                assert((n - 1) / (n as int) == 0) by (nonlinear_arith)
                    requires n >= 1;
            } else {
                assert((len + n - 1) / (n as int) == k) by (nonlinear_arith)
                    requires
                        k * n >= len,
                        (k - 1) * n < len,
                        n >= 1,
                        k >= 1,
                ;
            }
        }
    }
    out
}

} // verus!
