//! Entries ordered by a `u64` key: a stable sort, and the search for the
//! last entry whose key is at most a given value.
use vstd::prelude::*;

verus! {

/// An entry with a `u64` sort key.
pub trait Keyed: Copy {
    spec fn spec_key(&self) -> u64;

    fn key(&self) -> (r: u64)
        ensures
            r == self.spec_key(),
    ;
}

/// Keys never decrease along `s`.
pub open spec fn sorted_by_key<T: Keyed>(s: Seq<T>) -> bool {
    forall|i: int, j: int| 0 <= i <= j < s.len() ==> #[trigger] s[i].spec_key() <= #[trigger] s[j].spec_key()
}

/// `out[k] == inp[p[k]]` for a one-to-one `p`, `out` is sorted by key,
/// and entries with equal keys keep their order from `inp`.
pub open spec fn is_stable_perm<T: Keyed>(out: Seq<T>, inp: Seq<T>, p: Seq<int>) -> bool {
    &&& p.len() == inp.len()
    &&& out.len() == inp.len()
    &&& forall|k: int| 0 <= k < p.len() ==> 0 <= #[trigger] p[k] < inp.len() && out[k] == inp[p[k]]
    &&& forall|k1: int, k2: int| 0 <= k1 < k2 < p.len() ==> #[trigger] p[k1] != #[trigger] p[k2]
    &&& sorted_by_key(out)
    &&& forall|k1: int, k2: int|
        0 <= k1 < k2 < out.len() && #[trigger] out[k1].spec_key() == #[trigger] out[k2].spec_key() ==> p[k1] < p[k2]
}

/// `out` is `inp` stably sorted by key.
pub open spec fn stable_sorted<T: Keyed>(out: Seq<T>, inp: Seq<T>) -> bool {
    exists|p: Seq<int>| #[trigger] is_stable_perm(out, inp, p)
}

/// Stable insertion sort by key.
pub fn sort_by_key<T: Keyed>(inp: &Vec<T>) -> (r: Vec<T>)
    ensures
        stable_sorted(r@, inp@),
{
    let mut out: Vec<T> = Vec::new();
    let ghost mut perm: Seq<int> = Seq::empty();
    let mut i: usize = 0;
    proof {
        assert(is_stable_perm(out@, inp@.take(0), perm));
    }
    while i < inp.len()
        invariant
            i <= inp@.len(),
            is_stable_perm(out@, inp@.take(i as int), perm),
        decreases inp@.len() - i,
    {
        let x = inp[i];
        let kx = x.key();
        let mut p = out.len();
        let mut moving = true;
        while moving && p > 0
            invariant
                p <= out@.len(),
                forall|k: int| p <= k < out@.len() ==> out@[k].spec_key() > kx,
                !moving ==> p > 0 && out@[p - 1].spec_key() <= kx,
                kx == x.spec_key(),
            decreases p + (if moving { 1int } else { 0int }),
        {
            if out[p - 1].key() > kx {
                p -= 1;
            } else {
                moving = false;
            }
        }
        let ghost old_out = out@;
        let ghost old_perm = perm;
        let ghost pre = inp@.take(i as int);
        out.insert(p, x);
        proof {
            perm = old_perm.insert(p as int, i as int);
            let t = inp@.take(i + 1);
            assert forall|k: int| 0 <= k < perm.len() implies 0 <= #[trigger] perm[k] < t.len() && out@[k] == t[perm[k]] by {
                if k < p {
                    assert(perm[k] == old_perm[k] && out@[k] == old_out[k]);
                    assert(pre[old_perm[k]] == t[old_perm[k]]);
                } else if k > p {
                    assert(perm[k] == old_perm[k - 1] && out@[k] == old_out[k - 1]);
                    assert(pre[old_perm[k - 1]] == t[old_perm[k - 1]]);
                }
            }
            assert forall|k1: int, k2: int| 0 <= k1 < k2 < perm.len() implies #[trigger] perm[k1] != #[trigger] perm[k2] by {
                let a = if k1 < p { k1 } else { k1 - 1 };
                let b = if k2 < p { k2 } else { k2 - 1 };
                if k1 != p && k2 != p {
                    assert(perm[k1] == old_perm[a] && perm[k2] == old_perm[b]);
                    assert(a < b);
                    assert(old_perm[a] != old_perm[b]);
                } else if k1 == p {
                    assert(perm[k2] == old_perm[b]);
                    assert(old_perm[b] < i);
                } else {
                    assert(perm[k1] == old_perm[a]);
                    assert(old_perm[a] < i);
                }
            }
            assert forall|a: int, b: int| 0 <= a <= b < out@.len() implies #[trigger] out@[a].spec_key()
                <= #[trigger] out@[b].spec_key() by {
                let a0 = if a < p { a } else { a - 1 };
                let b0 = if b < p { b } else { b - 1 };
                if a != p && b != p {
                    assert(out@[a] == old_out[a0] && out@[b] == old_out[b0]);
                    assert(old_out[a0].spec_key() <= old_out[b0].spec_key());
                } else if a == p && b != p {
                    assert(out@[b] == old_out[b0]);
                } else if a != p && b == p {
                    assert(out@[a] == old_out[a0]);
                    assert(old_out[a0].spec_key() <= old_out[p - 1].spec_key());
                }
            }
            assert forall|k1: int, k2: int|
                0 <= k1 < k2 < out@.len() && #[trigger] out@[k1].spec_key() == #[trigger] out@[k2].spec_key()
                    implies perm[k1] < perm[k2] by {
                let a = if k1 < p { k1 } else { k1 - 1 };
                let b = if k2 < p { k2 } else { k2 - 1 };
                if k1 != p && k2 != p {
                    assert(out@[k1] == old_out[a] && out@[k2] == old_out[b]);
                    assert(perm[k1] == old_perm[a] && perm[k2] == old_perm[b]);
                    assert(old_out[a].spec_key() == old_out[b].spec_key());
                } else if k1 == p {
                    assert(out@[k2] == old_out[b]);
                } else {
                    assert(perm[k1] == old_perm[a]);
                    assert(old_perm[a] < i);
                }
            }
            assert(is_stable_perm(out@, t, perm));
        }
        i += 1;
    }
    proof {
        assert(inp@.take(inp@.len() as int) =~= inp@);
    }
    out
}

/// `idx` splits `s` into the entries with key at most `v` and those
/// with a greater key.
pub open spec fn split_at_key<T: Keyed>(s: Seq<T>, v: u64, idx: int) -> bool {
    &&& 0 <= idx <= s.len()
    &&& forall|k: int| 0 <= k < idx ==> #[trigger] s[k].spec_key() <= v
    &&& forall|k: int| idx <= k < s.len() ==> #[trigger] s[k].spec_key() > v
}

/// Binary search: the number of entries with key at most `v`, which in
/// a sorted `s` splits it at `v`.
pub fn upper_bound<T: Keyed>(s: &[T], v: u64) -> (r: usize)
    ensures
        r <= s@.len(),
        r > 0 ==> s@[r - 1].spec_key() <= v,
        sorted_by_key(s@) ==> split_at_key(s@, v, r as int),
{
    let mut lo: usize = 0;
    let mut hi: usize = s.len();
    while lo < hi
        invariant
            lo <= hi <= s@.len(),
            lo > 0 ==> s@[lo - 1].spec_key() <= v,
            sorted_by_key(s@) ==> forall|k: int| 0 <= k < lo ==> #[trigger] s@[k].spec_key() <= v,
            sorted_by_key(s@) ==> forall|k: int| hi <= k < s@.len() ==> #[trigger] s@[k].spec_key() > v,
        decreases hi - lo,
    {
        let mid = lo + (hi - lo) / 2;
        if s[mid].key() <= v {
            proof {
                if sorted_by_key(s@) {
                    assert forall|k: int| 0 <= k < mid + 1 implies #[trigger] s@[k].spec_key() <= v by {
                        assert(s@[k].spec_key() <= s@[mid as int].spec_key());
                    }
                }
            }
            lo = mid + 1;
        } else {
            proof {
                if sorted_by_key(s@) {
                    assert forall|k: int| mid <= k < s@.len() implies #[trigger] s@[k].spec_key() > v by {
                        assert(s@[mid as int].spec_key() <= s@[k].spec_key());
                    }
                }
            }
            hi = mid;
        }
    }
    lo
}

} // verus!
