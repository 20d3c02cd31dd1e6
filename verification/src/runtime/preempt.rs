//! The ring of program counters at which the asynchronous preemption
//! handler injected a yield, read back most recent first.
use vstd::prelude::*;

verus! {

/// Entries the injection ring holds.
pub const INJECT_RING_LEN: usize = 32;

/// How many entries a snapshot into `cap` slots reads after `total`
/// injections.
pub open spec fn snapshot_len(cap: int, total: int) -> int {
    let a = if cap < INJECT_RING_LEN {
        cap
    } else {
        INJECT_RING_LEN as int
    };
    if a < total {
        a
    } else {
        total
    }
}

/// Copies the last injection PCs into `out`, most recent first: entry
/// `i` is the one written `i` injections before the latest, and at
/// most `min(out.len(), 32, total)` are copied. Returns how many.
pub fn snapshot_injection_pcs(ring: &[u64; 32], total: u64, out: &mut [u64]) -> (n: usize)
    ensures
        n == snapshot_len(old(out)@.len() as int, total as int),
        final(out)@.len() == old(out)@.len(),
        forall|i: int| 0 <= i < n ==> final(out)@[i] == ring@[(total - 1 - i) % (INJECT_RING_LEN as int)],
        forall|i: int| n <= i < old(out)@.len() ==> final(out)@[i] == old(out)@[i],
{
    let count = if out.len() < INJECT_RING_LEN {
        out.len()
    } else {
        INJECT_RING_LEN
    };
    let mut i: usize = 0;
    while i < count && (i as u64) < total
        invariant
            count == (if old(out)@.len() < INJECT_RING_LEN { old(out)@.len() as int } else { INJECT_RING_LEN as int }),
            i <= count,
            i <= total,
            out@.len() == old(out)@.len(),
            forall|k: int| 0 <= k < i ==> out@[k] == ring@[(total - 1 - k) % (INJECT_RING_LEN as int)],
            forall|k: int| i <= k < old(out)@.len() ==> out@[k] == old(out)@[k],
        decreases count - i,
    {
        let slot = ((total - 1 - i as u64) % 32) as usize;
        out[i] = ring[slot];
        i = i + 1;
    }
    i
}

} // verus!
