//! How many CPUs the scheduler runs on, counted from the calling
//! thread's affinity mask.
use vstd::prelude::*;

verus! {

/// Set bits of a byte.
pub open spec fn byte_ones(v: nat) -> nat
    decreases v,
{
    if v == 0 {
        0
    } else {
        v % 2 + byte_ones(v / 2)
    }
}

/// Set bits of a byte string.
pub open spec fn mask_ones(s: Seq<u8>) -> nat
    decreases s.len(),
{
    if s.len() == 0 {
        0
    } else {
        mask_ones(s.drop_last()) + byte_ones(s.last() as nat)
    }
}

/// CPUs in the first `r` bytes of the mask (as many as it has when
/// `r` is larger), or 1 when the mask was not read (`r <= 0`) or has
/// no CPU in it.
pub open spec fn cpu_count(mask: Seq<u8>, r: int) -> int {
    if r <= 0 {
        1
    } else {
        let n = if r < mask.len() {
            r
        } else {
            mask.len() as int
        };
        let c = mask_ones(mask.subrange(0, n));
        if c == 0 {
            1
        } else {
            c as int
        }
    }
}

proof fn lemma_byte_ones_bound(v: nat)
    requires
        v < 256,
    ensures
        byte_ones(v) <= 8,
{
    reveal_with_fuel(byte_ones, 9);
    assert(v / 2 < 128 && v / 4 < 64 && v / 8 < 32 && v / 16 < 16);
}

/// Set bits of `v`.
fn count_ones(v: u8) -> (c: usize)
    ensures
        c == byte_ones(v as nat),
        c <= 8,
{
    proof {
        lemma_byte_ones_bound(v as nat);
    }
    let mut x = v;
    let mut c: usize = 0;
    while x > 0
        invariant
            c + byte_ones(x as nat) == byte_ones(v as nat),
            byte_ones(v as nat) <= 8,
        decreases x,
    {
        c = c + (x % 2) as usize;
        x = x / 2;
    }
    c
}

/// The CPUs the thread may run on: `mask` holds the affinity mask the
/// kernel returned and `r` what the call returned (its length in bytes,
/// or a failure at 0 or below). At least 1.
pub fn num_cpus(mask: &[u8], r: i64) -> (n: usize)
    requires
        mask.len() * 8 <= usize::MAX,
    ensures
        n == cpu_count(mask@, r as int),
        n >= 1,
{
    if r <= 0 {
        return 1;
    }
    let n = if (r as u64) < mask.len() as u64 {
        r as usize
    } else {
        mask.len()
    };
    let mut count: usize = 0;
    let mut i: usize = 0;
    while i < n
        invariant
            n <= mask.len(),
            mask.len() * 8 <= usize::MAX,
            i <= n,
            count == mask_ones(mask@.subrange(0, i as int)),
            count <= i * 8,
        decreases n - i,
    {
        let b = count_ones(mask[i]);
        assert(mask@.subrange(0, i + 1).drop_last() =~= mask@.subrange(0, i as int));
        count = count + b;
        i = i + 1;
    }
    if count == 0 {
        1
    } else {
        count
    }
}

} // verus!
