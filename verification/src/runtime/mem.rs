//! The C memory primitives the runtime provides, over byte slices:
//! copying (overlapping ranges included), filling, comparing, and the
//! length of a NUL-terminated string.
use vstd::prelude::*;

verus! {

/// `memcpy` — the first `n` bytes of `src` over the first `n` of `dst`.
pub fn memcpy(dst: &mut [u8], src: &[u8], n: usize)
    requires
        n <= old(dst)@.len(),
        n <= src@.len(),
    ensures
        final(dst)@ == src@.take(n as int) + old(dst)@.skip(n as int),
{
    let mut i: usize = 0;
    while i < n
        invariant
            i <= n,
            n <= dst@.len(),
            n <= src@.len(),
            dst@.len() == old(dst)@.len(),
            dst@ == src@.take(i as int) + old(dst)@.skip(i as int),
        decreases n - i,
    {
        dst[i] = src[i];
        i = i + 1;
        assert(dst@ =~= src@.take(i as int) + old(dst)@.skip(i as int));
    }
}

/// `buf` with `n` bytes from `src` copied to `dst`, as the source read
/// before any write.
pub open spec fn moved(buf: Seq<u8>, dst: int, src: int, n: int) -> Seq<u8> {
    Seq::new(buf.len(), |k: int| if dst <= k < dst + n { buf[src + k - dst] } else { buf[k] })
}

/// `memmove` — copies `n` bytes of `buf` from `src` to `dst`; the two
/// ranges may overlap.
pub fn memmove(buf: &mut [u8], dst: usize, src: usize, n: usize)
    requires
        dst + n <= old(buf)@.len(),
        src + n <= old(buf)@.len(),
    ensures
        final(buf)@ == moved(old(buf)@, dst as int, src as int, n as int),
{
    let ghost b0 = buf@;
    let len = buf.len();
    if dst < src {
        let mut i: usize = 0;
        while i < n
            invariant
                dst < src,
                len == b0.len(),
                i <= n,
                dst + n <= b0.len(),
                src + n <= b0.len(),
                buf@.len() == b0.len(),
                forall|k: int| 0 <= k < buf@.len() ==> #[trigger] buf@[k] == (if dst <= k < dst + i {
                    b0[src + k - dst]
                } else {
                    b0[k]
                }),
            decreases n - i,
        {
            let v = buf[src + i];
            buf[dst + i] = v;
            i = i + 1;
        }
    } else {
        let mut i: usize = n;
        while i > 0
            invariant
                dst >= src,
                len == b0.len(),
                i <= n,
                dst + n <= b0.len(),
                src + n <= b0.len(),
                buf@.len() == b0.len(),
                forall|k: int| 0 <= k < buf@.len() ==> #[trigger] buf@[k] == (if dst + i <= k < dst + n {
                    b0[src + k - dst]
                } else {
                    b0[k]
                }),
            decreases i,
        {
            i = i - 1;
            let v = buf[src + i];
            buf[dst + i] = v;
        }
    }
    assert(buf@ =~= moved(b0, dst as int, src as int, n as int));
}

/// `memset` — the first `n` bytes of `dst` set to the low byte of `c`.
pub fn memset(dst: &mut [u8], c: i32, n: usize)
    requires
        n <= old(dst)@.len(),
    ensures
        final(dst)@ == Seq::new(n as nat, |k: int| c as u8) + old(dst)@.skip(n as int),
{
    let byte = c as u8;
    let mut i: usize = 0;
    while i < n
        invariant
            i <= n,
            n <= dst@.len(),
            dst@.len() == old(dst)@.len(),
            byte == c as u8,
            dst@ == Seq::new(i as nat, |k: int| c as u8) + old(dst)@.skip(i as int),
        decreases n - i,
    {
        dst[i] = byte;
        i = i + 1;
        assert(dst@ =~= Seq::new(i as nat, |k: int| c as u8) + old(dst)@.skip(i as int));
    }
}

/// The first index below `n` where `a` and `b` differ, or `n`.
pub open spec fn first_diff(a: Seq<u8>, b: Seq<u8>, n: int, i: int) -> int
    decreases n - i,
{
    if i >= n {
        n
    } else if a[i] != b[i] {
        i
    } else {
        first_diff(a, b, n, i + 1)
    }
}

/// What `memcmp` returns on `n` bytes: the difference of the first
/// differing bytes, or 0.
pub open spec fn mem_compare(a: Seq<u8>, b: Seq<u8>, n: usize) -> int {
    let k = first_diff(a, b, n as int, 0);
    if k < n {
        a[k] - b[k]
    } else {
        0
    }
}

/// The first index below `n` where `a` and `b` differ, or `n`.
fn first_difference(a: &[u8], b: &[u8], n: usize) -> (k: usize)
    requires
        n <= a@.len(),
        n <= b@.len(),
    ensures
        k == first_diff(a@, b@, n as int, 0),
        k <= n,
{
    let mut i: usize = 0;
    while i < n
        invariant
            i <= n,
            n <= a@.len(),
            n <= b@.len(),
            first_diff(a@, b@, n as int, 0) == first_diff(a@, b@, n as int, i as int),
        decreases n - i,
    {
        if a[i] != b[i] {
            return i;
        }
        i = i + 1;
    }
    n
}

/// `x - y` for two bytes.
fn byte_diff(x: u8, y: u8) -> (r: i32)
    ensures
        r == x - y,
{
    x as i32 - y as i32
}

/// `memcmp` — compares the first `n` bytes of `a` and `b`.
pub fn memcmp(a: &[u8], b: &[u8], n: usize) -> (r: i32)
    requires
        n <= a@.len(),
        n <= b@.len(),
    ensures
        r == mem_compare(a@, b@, n),
{
    let k = first_difference(a, b, n);
    if k < n {
        byte_diff(a[k], b[k])
    } else {
        0
    }
}

/// `bcmp` — as `memcmp`.
pub fn bcmp(a: &[u8], b: &[u8], n: usize) -> (r: i32)
    requires
        n <= a@.len(),
        n <= b@.len(),
    ensures
        r == mem_compare(a@, b@, n),
{
    memcmp(a, b, n)
}

/// `strlen` — the index of the first NUL of `s`, which must hold one.
pub fn strlen(s: &[u8]) -> (n: usize)
    requires
        exists|k: int| 0 <= k < s@.len() && s@[k] == 0,
    ensures
        n < s@.len(),
        s@[n as int] == 0,
        forall|k: int| 0 <= k < n ==> s@[k] != 0,
{
    let mut n: usize = 0;
    while s[n] != 0
        invariant
            n < s@.len(),
            exists|k: int| n <= k < s@.len() && s@[k] == 0,
            forall|k: int| 0 <= k < n ==> s@[k] != 0,
        decreases s@.len() - n,
    {
        n = n + 1;
    }
    n
}

} // verus!
