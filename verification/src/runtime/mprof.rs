//! Sampled heap allocation profiling: the tables behind the `heap` and
//! `allocs` profiles.
//!
//! A table of buckets keyed by the hash of the allocating call stack
//! counts allocations and frees (and their bytes) per stack; in-use is
//! the difference. A side table of live sampled pointers lets a free
//! find the bucket that its allocation was counted in. Both tables are
//! open-addressed with linear probing and have fixed sizes: what does
//! not fit is counted in `dropped`, never grown into.
//!
//! The caller walks the stack and draws the sampling interval; this
//! module only keeps the books.
#![allow(non_snake_case)]

use vstd::prelude::*;
use vstd::wrapping::u64_specs;
use vstd::wrapping::usize_specs;

verus! {

broadcast use vstd::array::group_array_axioms;

/// Deepest stack recorded per bucket.
pub const MAX_STACK: usize = 32;
/// Buckets in the stack table: a ceiling on allocation sites.
pub const NBUCKETS: usize = 2048;
/// log2 of the slots in the live-pointer table.
pub const NADDR_BITS: u64 = 13;
/// Slots in the live-pointer table.
pub const NADDRS: usize = 8192;
/// A pointer slot that never held an entry: a lookup may stop here.
pub const EMPTY: usize = 0;
/// A pointer slot whose entry was removed: a lookup must go on past it.
pub const TOMBSTONE: usize = usize::MAX;
/// The default `MemProfileRate`: one sample per 512 KiB.
pub const DEFAULT_MEM_PROFILE_RATE: i64 = 524288;
/// The start value and multiplier of the stack hash (an FNV-1a shape).
pub const FNV_BASIS: u64 = 0xcbf2_9ce4_8422_2325;
pub const FNV_PRIME: u64 = 0x1000_0000_01b3;
/// The golden-ratio multiplier that spreads pointers over the table.
pub const GOLDEN: u64 = 0x9E37_79B9_7F4A_7C15;

/// One call stack's allocation history. A hash of 0 marks a free slot.
#[derive(Clone, Copy)]
pub struct Bucket {
    pub hash: u64,
    pub depth: u32,
    pub pcs: [u64; MAX_STACK],
    pub allocs: u64,
    pub frees: u64,
    pub alloc_bytes: u64,
    pub free_bytes: u64,
}

/// A live sampled object: the bucket to credit when it is freed.
#[derive(Clone, Copy)]
pub struct Addr {
    pub ptr: usize,
    pub bucket: u32,
    pub size: u64,
}

/// One bucket, copied out of the table.
#[derive(Clone, Copy)]
pub struct BucketSnapshot {
    pub depth: usize,
    pub pcs: [u64; MAX_STACK],
    pub allocs: u64,
    pub frees: u64,
    pub alloc_bytes: u64,
    pub free_bytes: u64,
}

/// The tables, the count of live sampled pointers, the count of samples
/// lost to a full table, and `MemProfileRate`.
pub struct MemProfile {
    buckets: Vec<Bucket>,
    addrs: Vec<Addr>,
    live_sampled: usize,
    dropped: u64,
    rate: i64,
}

/// What the tables hold.
pub struct ProfState {
    pub buckets: Seq<Bucket>,
    pub addrs: Seq<Addr>,
    pub live: usize,
    pub dropped: u64,
}

/// The stack hash of the first `n` frames: xor in a frame, multiply.
pub open spec fn fnv_prefix(s: Seq<u64>, n: int) -> u64
    decreases n,
{
    if n <= 0 {
        FNV_BASIS
    } else {
        u64_specs::wrapping_mul(fnv_prefix(s, n - 1) ^ s[n - 1], FNV_PRIME)
    }
}

/// The hash of a stack, forced nonzero so that 0 can mean "free".
pub open spec fn stack_hash_of(s: Seq<u64>) -> u64 {
    let h = fnv_prefix(s, s.len() as int);
    if h == 0 {
        1
    } else {
        h
    }
}

/// The home slot of a pointer: the top bits of its golden-ratio
/// product.
pub open spec fn addr_slot_of(ptr: usize) -> int {
    (u64_specs::wrapping_mul(ptr as u64, GOLDEN) >> 51u64) as int
}

/// The bucket for the hash `h`: the first slot, probing on from `k`
/// steps past `h`'s home slot, that holds `h` or is free.
pub open spec fn bucket_probe(b: Seq<Bucket>, h: u64, k: int) -> Option<int>
    decreases NBUCKETS - k,
{
    if k < 0 || k >= NBUCKETS {
        None
    } else {
        let i = ((h as int) % (NBUCKETS as int) + k) % (NBUCKETS as int);
        if b[i].hash == 0 || b[i].hash == h {
            Some(i)
        } else {
            bucket_probe(b, h, k + 1)
        }
    }
}

/// The slot a new pointer goes to: the first one, probing on from `k`
/// steps past `start`, that is empty or a tombstone.
pub open spec fn addr_free_slot(a: Seq<Addr>, start: int, k: int) -> Option<int>
    decreases NADDRS - k,
{
    if k < 0 || k >= NADDRS {
        None
    } else {
        let i = (start + k) % (NADDRS as int);
        if a[i].ptr == EMPTY || a[i].ptr == TOMBSTONE {
            Some(i)
        } else {
            addr_free_slot(a, start, k + 1)
        }
    }
}

/// The slot that holds `p`, probing on from `k` steps past `start`; an
/// empty slot ends the search.
pub open spec fn addr_find(a: Seq<Addr>, p: usize, start: int, k: int) -> Option<int>
    decreases NADDRS - k,
{
    if k < 0 || k >= NADDRS {
        None
    } else {
        let i = (start + k) % (NADDRS as int);
        if a[i].ptr == EMPTY {
            None
        } else if a[i].ptr == p {
            Some(i)
        } else {
            addr_find(a, p, start, k + 1)
        }
    }
}

/// `nb` is `ob` after one more allocation of `size` bytes on the stack
/// `frames` with hash `h`: a free slot is claimed for the stack first.
pub open spec fn bucket_after_alloc(ob: Bucket, nb: Bucket, frames: Seq<u64>, h: u64, size: usize) -> bool {
    &&& nb.hash == h
    &&& nb.depth == (if ob.hash == 0 {
        frames.len() as u32
    } else {
        ob.depth
    })
    &&& nb.pcs@ == (if ob.hash == 0 {
        frames + ob.pcs@.subrange(frames.len() as int, MAX_STACK as int)
    } else {
        ob.pcs@
    })
    &&& nb.allocs == u64_specs::wrapping_add(ob.allocs, 1)
    &&& nb.alloc_bytes == u64_specs::wrapping_add(ob.alloc_bytes, size as u64)
    &&& nb.frees == ob.frees
    &&& nb.free_bytes == ob.free_bytes
}

/// `s1` is `s0` after a sampled allocation of `size` bytes at `ptr` on
/// the stack `frames`: its bucket counts it and the pointer is
/// remembered; what finds no room is counted as dropped instead. An
/// empty stack is dropped.
pub open spec fn alloc_step(s0: ProfState, s1: ProfState, frames: Seq<u64>, ptr: usize, size: usize) -> bool {
    let h = stack_hash_of(frames);
    if frames.len() == 0 || bucket_probe(s0.buckets, h, 0) is None {
        &&& s1.buckets == s0.buckets
        &&& s1.addrs == s0.addrs
        &&& s1.live == s0.live
        &&& s1.dropped == u64_specs::wrapping_add(s0.dropped, 1)
    } else {
        let i = bucket_probe(s0.buckets, h, 0)->0;
        &&& s1.buckets.len() == s0.buckets.len()
        &&& forall|j: int| 0 <= j < s0.buckets.len() && j != i ==> s1.buckets[j] == s0.buckets[j]
        &&& bucket_after_alloc(s0.buckets[i], s1.buckets[i], frames, h, size)
        &&& match addr_free_slot(s0.addrs, addr_slot_of(ptr), 0) {
            Some(j) => {
                &&& s1.addrs == s0.addrs.update(j, Addr { ptr, bucket: i as u32, size: size as u64 })
                &&& s1.live == usize_specs::wrapping_add(s0.live, 1)
                &&& s1.dropped == s0.dropped
            },
            None => {
                &&& s1.addrs == s0.addrs
                &&& s1.live == s0.live
                &&& s1.dropped == u64_specs::wrapping_add(s0.dropped, 1)
            },
        }
    }
}

/// `s1` is `s0` after `ptr` is freed: if it was a sampled pointer, its
/// slot becomes a tombstone and its bucket counts the free.
pub open spec fn free_step(s0: ProfState, s1: ProfState, ptr: usize) -> bool {
    match addr_find(s0.addrs, ptr, addr_slot_of(ptr), 0) {
        None => s1 == s0,
        Some(j) => {
            let e = s0.addrs[j];
            let b = e.bucket as int;
            let ob = s0.buckets[b];
            &&& s1.addrs == s0.addrs.update(j, Addr { ptr: TOMBSTONE, ..e })
            &&& s1.buckets == s0.buckets.update(
                b,
                Bucket {
                    frees: u64_specs::wrapping_add(ob.frees, 1),
                    free_bytes: u64_specs::wrapping_add(ob.free_bytes, e.size),
                    ..ob
                },
            )
            &&& s1.live == usize_specs::wrapping_sub(s0.live, 1)
            &&& s1.dropped == s0.dropped
        },
    }
}

/// The tables have their sizes and every remembered pointer names a
/// bucket.
pub open spec fn state_wf(s: ProfState) -> bool {
    &&& s.buckets.len() == NBUCKETS
    &&& s.addrs.len() == NADDRS
    &&& forall|j: int| 0 <= j < NADDRS ==> (#[trigger] s.addrs[j]).bucket < NBUCKETS
}

impl MemProfile {
    /// The tables: buckets, address slots, the live count and the drop
    /// count. The sampling rate is no part of them; `rate_of` gives it.
    pub closed spec fn state(&self) -> ProfState {
        ProfState {
            buckets: self.buckets@,
            addrs: self.addrs@,
            live: self.live_sampled,
            dropped: self.dropped,
        }
    }

    /// The sampling rate.
    pub closed spec fn rate_of(&self) -> i64 {
        self.rate
    }

    pub open spec fn wf(&self) -> bool {
        state_wf(self.state())
    }
}

/// The hash of a call stack, as `stack_hash_of` says.
pub fn stack_hash(pcs: &[u64]) -> (h: u64)
    ensures
        h == stack_hash_of(pcs@),
{
    let mut h: u64 = FNV_BASIS;
    let mut i: usize = 0;
    while i < pcs.len()
        invariant
            i <= pcs@.len(),
            h == fnv_prefix(pcs@, i as int),
        decreases pcs@.len() - i,
    {
        h = (h ^ pcs[i]).wrapping_mul(FNV_PRIME);
        i = i + 1;
    }
    if h == 0 {
        return 1;
    }
    h
}

/// The home slot of a pointer in the live-pointer table.
pub fn addr_slot(ptr: usize) -> (r: usize)
    ensures
        r == addr_slot_of(ptr),
        r < NADDRS,
{
    let h = (ptr as u64).wrapping_mul(GOLDEN);
    let top = h >> 51u64;
    assert(top < 8192 && (top as usize) & 8191 == top as usize) by (bit_vector)
        requires
            top == h >> 51u64,
    ;
    (top as usize) & (NADDRS - 1)
}

impl MemProfile {
    /// Empty tables, at the default rate.
    pub fn new() -> (p: Self)
        ensures
            p.wf(),
            p.state().live == 0,
            p.state().dropped == 0,
            p.rate_of() == DEFAULT_MEM_PROFILE_RATE,
            forall|i: int| 0 <= i < NBUCKETS ==> (#[trigger] p.state().buckets[i]).hash == 0,
            forall|j: int| 0 <= j < NADDRS ==> (#[trigger] p.state().addrs[j]).ptr == EMPTY,
            live_consistent(p.state()),
    {
        let mut buckets: Vec<Bucket> = Vec::new();
        let mut i: usize = 0;
        while i < NBUCKETS
            invariant
                i <= NBUCKETS,
                buckets@.len() == i,
                forall|k: int| 0 <= k < i ==> (#[trigger] buckets@[k]).hash == 0,
            decreases NBUCKETS - i,
        {
            buckets.push(empty_bucket());
            i = i + 1;
        }
        let mut addrs: Vec<Addr> = Vec::new();
        let mut j: usize = 0;
        while j < NADDRS
            invariant
                j <= NADDRS,
                addrs@.len() == j,
                forall|k: int| 0 <= k < j ==> (#[trigger] addrs@[k]).ptr == EMPTY && addrs@[k].bucket
                    == 0,
            decreases NADDRS - j,
        {
            addrs.push(Addr { ptr: EMPTY, bucket: 0, size: 0 });
            j = j + 1;
        }
        proof {
            lemma_live_count_none(addrs@);
        }
        MemProfile { buckets, addrs, live_sampled: 0, dropped: 0, rate: DEFAULT_MEM_PROFILE_RATE }
    }

    /// Records a sampled allocation of `size` bytes at `ptr` on the
    /// stack `frames` (innermost first), as `alloc_step` says.
    pub fn record_alloc(&mut self, frames: &[u64], ptr: usize, size: usize)
        requires
            old(self).wf(),
            frames@.len() <= MAX_STACK,
            ptr != EMPTY,
            ptr != TOMBSTONE,
        ensures
            final(self).wf(),
            final(self).rate_of() == old(self).rate_of(),
            alloc_step(old(self).state(), final(self).state(), frames@, ptr, size),
    {
        let n = frames.len();
        if n == 0 {
            self.dropped = self.dropped.wrapping_add(1);
            return;
        }
        let h = stack_hash(frames);
        let ghost b0 = self.buckets@;
        let home = (h % (NBUCKETS as u64)) as usize;
        let mut i = home;
        let mut probes: usize = 0;
        loop
            invariant
                probes < NBUCKETS,
                home == (h as int) % (NBUCKETS as int),
                i == (home + probes) % (NBUCKETS as int),
                *self == *old(self),
                b0 == old(self).state().buckets,
                old(self).wf(),
                h == stack_hash_of(frames@),
                n == frames@.len(),
                n > 0,
                bucket_probe(b0, h, 0) == bucket_probe(b0, h, probes as int),
            ensures
                *self == *old(self),
                i < NBUCKETS,
                bucket_probe(b0, h, 0) == Some(i as int),
            decreases NBUCKETS - probes,
        {
            let hb = self.buckets[i].hash;
            if hb == 0 || hb == h {
                assert(bucket_probe(b0, h, probes as int) == Some(i as int));
                break;
            }
            probes = probes + 1;
            i = (home + probes) % NBUCKETS;
            if probes >= NBUCKETS {
                assert(bucket_probe(b0, h, probes as int) is None);
                self.dropped = self.dropped.wrapping_add(1);
                return;
            }
        }
        let mut b = self.buckets[i];
        let ghost ob = b;
        proof {
            lemma_bucket_probe_some(b0, h, 0);
        }
        if b.hash == 0 {
            b.hash = h;
            b.depth = n as u32;
            let mut k: usize = 0;
            let ghost pcs0 = b.pcs@;
            while k < n
                invariant
                    k <= n,
                    n == frames@.len(),
                    n <= MAX_STACK,
                    pcs0.len() == MAX_STACK,
                    b.pcs@.len() == MAX_STACK,
                    b.hash == h,
                    b.depth == n as u32,
                    b.allocs == ob.allocs && b.frees == ob.frees && b.alloc_bytes == ob.alloc_bytes
                        && b.free_bytes == ob.free_bytes,
                    b.pcs@ == frames@.subrange(0, k as int) + pcs0.subrange(k as int, MAX_STACK as int),
                decreases n - k,
            {
                let ghost before = b.pcs@;
                b.pcs[k] = frames[k];
                assert(b.pcs@ == before.update(k as int, frames@[k as int]));
                k = k + 1;
                assert(b.pcs@ =~= frames@.subrange(0, k as int) + pcs0.subrange(k as int, MAX_STACK as int));
            }
            assert(frames@.subrange(0, n as int) =~= frames@);
        }
        b.allocs = b.allocs.wrapping_add(1);
        b.alloc_bytes = b.alloc_bytes.wrapping_add(size as u64);
        assert(bucket_after_alloc(ob, b, frames@, h, size));
        self.buckets.set(i, b);
        let idx = i;
        let ghost mid = *self;
        assert(mid.buckets@ == old(self).state().buckets.update(idx as int, b));
        let start = addr_slot(ptr);
        let mut a = start;
        let mut aprobes: usize = 0;
        loop
            invariant
                aprobes < NADDRS,
                a == (start as int + aprobes) % (NADDRS as int),
                *self == mid,
                mid.buckets@ == old(self).state().buckets.update(idx as int, b),
                mid.addrs@ == old(self).state().addrs,
                mid.live_sampled == old(self).live_sampled,
                mid.dropped == old(self).dropped,
                mid.rate == old(self).rate,
                old(self).wf(),
                start == addr_slot_of(ptr),
                start < NADDRS,
                addr_free_slot(mid.addrs@, start as int, 0) == addr_free_slot(mid.addrs@, start as int, aprobes as int),
                idx < NBUCKETS,
                bucket_probe(old(self).state().buckets, stack_hash_of(frames@), 0) == Some(idx as int),
                bucket_after_alloc(old(self).state().buckets[idx as int], b, frames@, stack_hash_of(frames@), size),
                frames@.len() > 0,
            decreases NADDRS - aprobes,
        {
            let p = self.addrs[a].ptr;
            if p == EMPTY || p == TOMBSTONE {
                assert(addr_free_slot(mid.addrs@, start as int, aprobes as int) == Some(a as int));
                self.addrs.set(a, Addr { ptr, bucket: idx as u32, size: size as u64 });
                self.live_sampled = self.live_sampled.wrapping_add(1);
                return;
            }
            aprobes = aprobes + 1;
            a = (start + aprobes) % NADDRS;
            if aprobes >= NADDRS {
                assert(addr_free_slot(mid.addrs@, start as int, aprobes as int) is None);
                self.dropped = self.dropped.wrapping_add(1);
                return;
            }
        }
    }

    /// Credits a free of `ptr` to the bucket its allocation was counted
    /// in, if it was a sampled pointer, as `free_step` says.
    pub fn record_free(&mut self, ptr: usize)
        requires
            old(self).wf(),
        ensures
            final(self).wf(),
            final(self).rate_of() == old(self).rate_of(),
            free_step(old(self).state(), final(self).state(), ptr),
    {
        let ghost a0 = self.addrs@;
        let start = addr_slot(ptr);
        let mut a = start;
        let mut probes: usize = 0;
        loop
            invariant
                probes < NADDRS,
                a == (start as int + probes) % (NADDRS as int),
                self.addrs@ == a0,
                *self == *old(self),
                a0 == old(self).state().addrs,
                start == addr_slot_of(ptr),
                start < NADDRS,
                addr_find(a0, ptr, start as int, 0) == addr_find(a0, ptr, start as int, probes as int),
                old(self).wf(),
            decreases NADDRS - probes,
        {
            let e = self.addrs[a];
            if e.ptr == EMPTY {
                return;
            }
            if e.ptr == ptr {
                assert(addr_find(a0, ptr, start as int, 0) == Some(a as int));
                self.addrs.set(a, Addr { ptr: TOMBSTONE, ..e });
                let bi = e.bucket as usize;
                let mut b = self.buckets[bi];
                b.frees = b.frees.wrapping_add(1);
                b.free_bytes = b.free_bytes.wrapping_add(e.size);
                self.buckets.set(bi, b);
                self.live_sampled = self.live_sampled.wrapping_sub(1);
                return;
            }
            probes = probes + 1;
            a = (start + probes) % NADDRS;
            if probes >= NADDRS {
                return;
            }
        }
    }

    /// How many slots `bucket_at` accepts.
    pub fn bucket_slots(&self) -> (n: usize)
        ensures
            n == NBUCKETS,
    {
        NBUCKETS
    }

    /// Slot `i` of the stack table, or `None` when it is out of range,
    /// free, or has counted no allocation.
    pub fn bucket_at(&self, i: usize) -> (r: Option<BucketSnapshot>)
        requires
            self.wf(),
        ensures
            (i >= NBUCKETS || self.state().buckets[i as int].hash == 0
                || self.state().buckets[i as int].allocs == 0) ==> r is None,
            !(i >= NBUCKETS || self.state().buckets[i as int].hash == 0
                || self.state().buckets[i as int].allocs == 0) ==> (r matches Some(snap) && ({
                let b = self.state().buckets[i as int];
                &&& snap.depth == b.depth
                &&& snap.pcs == b.pcs
                &&& snap.allocs == b.allocs
                &&& snap.frees == b.frees
                &&& snap.alloc_bytes == b.alloc_bytes
                &&& snap.free_bytes == b.free_bytes
            })),
    {
        if i >= NBUCKETS {
            return None;
        }
        let b = self.buckets[i];
        if b.hash == 0 || b.allocs == 0 {
            return None;
        }
        Some(
            BucketSnapshot {
                depth: b.depth as usize,
                pcs: b.pcs,
                allocs: b.allocs,
                frees: b.frees,
                alloc_bytes: b.alloc_bytes,
                free_bytes: b.free_bytes,
            },
        )
    }

    /// Sampled allocations lost to a full table.
    pub fn dropped(&self) -> (d: u64)
        ensures
            d == self.state().dropped,
    {
        self.dropped
    }

    /// How many sampled pointers are live.
    pub fn live_sampled(&self) -> (n: usize)
        ensures
            n == self.state().live,
    {
        self.live_sampled
    }

    /// Empties both tables and the counters; the rate stays.
    pub fn reset(&mut self)
        requires
            old(self).wf(),
        ensures
            final(self).wf(),
            final(self).rate_of() == old(self).rate_of(),
            final(self).state().live == 0,
            final(self).state().dropped == 0,
            forall|i: int| 0 <= i < NBUCKETS ==> (#[trigger] final(self).state().buckets[i]).hash == 0,
            forall|j: int| 0 <= j < NADDRS ==> (#[trigger] final(self).state().addrs[j]).ptr == EMPTY,
    {
        let mut i: usize = 0;
        while i < NBUCKETS
            invariant
                i <= NBUCKETS,
                self.buckets@.len() == NBUCKETS,
                self.addrs@ == old(self).state().addrs,
                old(self).wf(),
                self.rate == old(self).rate,
                forall|k: int| 0 <= k < i ==> (#[trigger] self.buckets@[k]).hash == 0,
            decreases NBUCKETS - i,
        {
            self.buckets.set(i, empty_bucket());
            i = i + 1;
        }
        let mut a: usize = 0;
        while a < NADDRS
            invariant
                a <= NADDRS,
                self.addrs@.len() == NADDRS,
                forall|k: int| 0 <= k < a ==> (#[trigger] self.addrs@[k]).ptr == EMPTY,
                forall|k: int| 0 <= k < NADDRS ==> (#[trigger] self.addrs@[k]).bucket < NBUCKETS,
                self.rate == old(self).rate,
                self.buckets@.len() == NBUCKETS,
                forall|k: int| 0 <= k < NBUCKETS ==> (#[trigger] self.buckets@[k]).hash == 0,
            decreases NADDRS - a,
        {
            let e = self.addrs[a];
            self.addrs.set(a, Addr { ptr: EMPTY, ..e });
            a = a + 1;
        }
        self.live_sampled = 0;
        self.dropped = 0;
    }
}

/// The slot the probe stops at holds the hash or is free.
pub proof fn lemma_bucket_probe_some(b: Seq<Bucket>, h: u64, k: int)
    requires
        bucket_probe(b, h, k) is Some,
    ensures
        0 <= bucket_probe(b, h, k)->0 < NBUCKETS,
        b[bucket_probe(b, h, k)->0].hash == 0 || b[bucket_probe(b, h, k)->0].hash == h,
    decreases NBUCKETS - k,
{
    let i = ((h as int) % (NBUCKETS as int) + k) % (NBUCKETS as int);
    if !(b[i].hash == 0 || b[i].hash == h) {
        lemma_bucket_probe_some(b, h, k + 1);
    }
}

proof fn lemma_free_slot_range(a: Seq<Addr>, start: int, k: int)
    requires
        addr_free_slot(a, start, k) is Some,
        0 <= start,
    ensures
        0 <= addr_free_slot(a, start, k)->0 < NADDRS,
    decreases NADDRS - k,
{
    let i = (start + k) % (NADDRS as int);
    if !(a[i].ptr == EMPTY || a[i].ptr == TOMBSTONE) {
        lemma_free_slot_range(a, start, k + 1);
    }
}

proof fn lemma_find_inserted(a0: Seq<Addr>, a1: Seq<Addr>, p: usize, start: int, k: int, j: int, e: Addr)
    requires
        a0.len() == NADDRS,
        0 <= start < NADDRS,
        0 <= k,
        e.ptr == p,
        p != EMPTY,
        0 <= j < NADDRS,
        a1 == a0.update(j, e),
        addr_free_slot(a0, start, k) == Some(j),
        addr_find(a0, p, start, k) is None,
    ensures
        addr_find(a1, p, start, k) == Some(j),
    decreases NADDRS - k,
{
    let i = (start + k) % (NADDRS as int);
    if !(a0[i].ptr == EMPTY || a0[i].ptr == TOMBSTONE) {
        lemma_find_inserted(a0, a1, p, start, k + 1, j, e);
    }
}

proof fn lemma_probe_claimed(b0: Seq<Bucket>, b1: Seq<Bucket>, h: u64, k: int, i: int)
    requires
        b0.len() == NBUCKETS,
        b1.len() == NBUCKETS,
        0 <= k,
        h != 0,
        bucket_probe(b0, h, k) == Some(i),
        b1[i].hash == h,
        forall|j: int| 0 <= j < NBUCKETS && j != i ==> b1[j] == b0[j],
    ensures
        bucket_probe(b1, h, k) == Some(i),
    decreases NBUCKETS - k,
{
    let x = ((h as int) % (NBUCKETS as int) + k) % (NBUCKETS as int);
    if x != i {
        lemma_probe_claimed(b0, b1, h, k + 1, i);
    }
}

/// A stack's bucket stays its bucket: after an allocation was counted,
/// the next allocation on the same stack finds the same bucket.
pub proof fn lemma_same_stack_same_bucket(s0: ProfState, s1: ProfState, frames: Seq<u64>, p: usize, size: usize)
    requires
        state_wf(s0),
        frames.len() > 0,
        alloc_step(s0, s1, frames, p, size),
        bucket_probe(s0.buckets, stack_hash_of(frames), 0) is Some,
    ensures
        bucket_probe(s1.buckets, stack_hash_of(frames), 0) == bucket_probe(
            s0.buckets,
            stack_hash_of(frames),
            0,
        ),
{
    let h = stack_hash_of(frames);
    let i = bucket_probe(s0.buckets, h, 0)->0;
    lemma_bucket_probe_some(s0.buckets, h, 0);
    lemma_probe_claimed(s0.buckets, s1.buckets, h, 0, i);
}

/// A free of a sampled pointer is credited to the bucket that counted
/// its allocation, with the allocation's size, and the count of live
/// sampled pointers is back where it was.
pub proof fn lemma_free_credits_alloc(
    s0: ProfState,
    s1: ProfState,
    s2: ProfState,
    frames: Seq<u64>,
    p: usize,
    size: usize,
)
    requires
        state_wf(s0),
        p != EMPTY,
        p != TOMBSTONE,
        frames.len() > 0,
        addr_find(s0.addrs, p, addr_slot_of(p), 0) is None,
        bucket_probe(s0.buckets, stack_hash_of(frames), 0) is Some,
        addr_free_slot(s0.addrs, addr_slot_of(p), 0) is Some,
        alloc_step(s0, s1, frames, p, size),
        free_step(s1, s2, p),
    ensures
        ({
            let i = bucket_probe(s0.buckets, stack_hash_of(frames), 0)->0;
            &&& s2.buckets[i].allocs == u64_specs::wrapping_add(s0.buckets[i].allocs, 1)
            &&& s2.buckets[i].frees == u64_specs::wrapping_add(s0.buckets[i].frees, 1)
            &&& s2.buckets[i].free_bytes == u64_specs::wrapping_add(
                s0.buckets[i].free_bytes,
                size as u64,
            )
            &&& s2.buckets[i].alloc_bytes == u64_specs::wrapping_add(
                s0.buckets[i].alloc_bytes,
                size as u64,
            )
        }),
        s2.live == s0.live,
        s2.dropped == s0.dropped,
{
    let h = stack_hash_of(frames);
    let i = bucket_probe(s0.buckets, h, 0)->0;
    lemma_bucket_probe_some(s0.buckets, h, 0);
    let start = addr_slot_of(p);
    assert(0 <= start < NADDRS) by {
        let w = u64_specs::wrapping_mul(p as u64, GOLDEN);
        assert(w >> 51u64 < 8192) by (bit_vector);
    }
    let j = addr_free_slot(s0.addrs, start, 0)->0;
    lemma_free_slot_range(s0.addrs, start, 0);
    let e = Addr { ptr: p, bucket: i as u32, size: size as u64 };
    assert(s1.addrs == s0.addrs.update(j, e));
    lemma_find_inserted(s0.addrs, s1.addrs, p, start, 0, j, e);
    assert(addr_find(s1.addrs, p, start, 0) == Some(j));
    assert((i as u32) as int == i);
}

/// A free bucket.
fn empty_bucket() -> (b: Bucket)
    ensures
        b.hash == 0 && b.depth == 0 && b.allocs == 0 && b.frees == 0 && b.alloc_bytes == 0
            && b.free_bytes == 0,
        forall|k: int| 0 <= k < MAX_STACK ==> b.pcs@[k] == 0,
{
    Bucket {
        hash: 0,
        depth: 0,
        pcs: [0u64; 32],
        allocs: 0,
        frees: 0,
        alloc_bytes: 0,
        free_bytes: 0,
    }
}

/// The slot holds a sampled pointer: neither empty nor a tombstone.
pub open spec fn is_live(e: Addr) -> bool {
    e.ptr != EMPTY && e.ptr != TOMBSTONE
}

/// How many slots hold a sampled pointer.
pub open spec fn live_count(a: Seq<Addr>) -> nat
    decreases a.len(),
{
    if a.len() == 0 {
        0
    } else {
        live_count(a.drop_last()) + if is_live(a.last()) {
            1nat
        } else {
            0nat
        }
    }
}

/// The live counter counts the slots that hold a sampled pointer.
pub open spec fn live_consistent(s: ProfState) -> bool {
    s.live == live_count(s.addrs)
}

proof fn lemma_live_count_none(a: Seq<Addr>)
    requires
        forall|j: int| 0 <= j < a.len() ==> (#[trigger] a[j]).ptr == EMPTY,
    ensures
        live_count(a) == 0,
    decreases a.len(),
{
    if a.len() > 0 {
        assert forall|j: int| 0 <= j < a.drop_last().len() implies (#[trigger] a.drop_last()[j]).ptr == EMPTY by {
            assert(a.drop_last()[j] == a[j]);
        }
        lemma_live_count_none(a.drop_last());
    }
}

proof fn lemma_live_count_bound(a: Seq<Addr>)
    ensures
        live_count(a) <= a.len(),
    decreases a.len(),
{
    if a.len() > 0 {
        lemma_live_count_bound(a.drop_last());
    }
}

proof fn lemma_live_count_update(a: Seq<Addr>, j: int, v: Addr)
    requires
        0 <= j < a.len(),
    ensures
        live_count(a.update(j, v)) + (if is_live(a[j]) { 1int } else { 0int }) == live_count(a) + (if is_live(
            v,
        ) {
            1int
        } else {
            0int
        }),
    decreases a.len(),
{
    let b = a.update(j, v);
    if j == a.len() - 1 {
        assert(b.drop_last() =~= a.drop_last());
    } else {
        lemma_live_count_update(a.drop_last(), j, v);
        assert(b.drop_last() =~= a.drop_last().update(j, v));
    }
}

proof fn lemma_free_slot_free(a: Seq<Addr>, start: int, k: int)
    requires
        addr_free_slot(a, start, k) is Some,
        0 <= start,
    ensures
        !is_live(a[addr_free_slot(a, start, k)->0]),
    decreases NADDRS - k,
{
    let i = (start + k) % (NADDRS as int);
    if !(a[i].ptr == EMPTY || a[i].ptr == TOMBSTONE) {
        lemma_free_slot_free(a, start, k + 1);
    }
}

proof fn lemma_find_holds(a: Seq<Addr>, p: usize, start: int, k: int)
    requires
        addr_find(a, p, start, k) is Some,
        0 <= start,
    ensures
        0 <= addr_find(a, p, start, k)->0 < NADDRS,
        a[addr_find(a, p, start, k)->0].ptr == p,
        p != EMPTY,
    decreases NADDRS - k,
{
    let i = (start + k) % (NADDRS as int);
    if !(a[i].ptr == EMPTY) && a[i].ptr != p {
        lemma_find_holds(a, p, start, k + 1);
    }
}

proof fn lemma_find_none_when_dead(a: Seq<Addr>, p: usize, start: int, k: int)
    requires
        a.len() == NADDRS,
        0 <= start,
        p != TOMBSTONE,
        forall|j: int| 0 <= j < a.len() ==> !is_live(#[trigger] a[j]),
    ensures
        addr_find(a, p, start, k) is None,
    decreases NADDRS - k,
{
    if 0 <= k < NADDRS {
        let i = (start + k) % (NADDRS as int);
        assert(!is_live(a[i]));
        if a[i].ptr != EMPTY {
            lemma_find_none_when_dead(a, p, start, k + 1);
        }
    }
}

proof fn lemma_live_count_zero(a: Seq<Addr>)
    requires
        live_count(a) == 0,
    ensures
        forall|j: int| 0 <= j < a.len() ==> !is_live(#[trigger] a[j]),
    decreases a.len(),
{
    if a.len() > 0 {
        lemma_live_count_zero(a.drop_last());
        assert forall|j: int| 0 <= j < a.len() implies !is_live(#[trigger] a[j]) by {
            if j < a.len() - 1 {
                assert(a[j] == a.drop_last()[j]);
            }
        }
    }
}

/// A sampled allocation keeps the live counter equal to the number of
/// sampled pointers remembered.
pub proof fn lemma_alloc_keeps_live_count(s0: ProfState, s1: ProfState, frames: Seq<u64>, ptr: usize, size: usize)
    requires
        state_wf(s0),
        live_consistent(s0),
        alloc_step(s0, s1, frames, ptr, size),
        ptr != EMPTY,
        ptr != TOMBSTONE,
    ensures
        live_consistent(s1),
{
    let h = stack_hash_of(frames);
    if !(frames.len() == 0 || bucket_probe(s0.buckets, h, 0) is None) {
        let i = bucket_probe(s0.buckets, h, 0)->0;
        let start = addr_slot_of(ptr);
        assert(0 <= start) by {
            assert((u64_specs::wrapping_mul(ptr as u64, GOLDEN) >> 51u64) >= 0);
        }
        if let Some(j) = addr_free_slot(s0.addrs, start, 0) {
            lemma_free_slot_range(s0.addrs, start, 0);
            lemma_free_slot_free(s0.addrs, start, 0);
            lemma_live_count_update(s0.addrs, j, Addr { ptr, bucket: i as u32, size: size as u64 });
            lemma_live_count_bound(s0.addrs);
        }
    }
}

/// Freeing a pointer other than the tombstone value keeps the live
/// counter equal to the number of sampled pointers remembered.
pub proof fn lemma_free_keeps_live_count(s0: ProfState, s1: ProfState, ptr: usize)
    requires
        state_wf(s0),
        live_consistent(s0),
        free_step(s0, s1, ptr),
        ptr != TOMBSTONE,
    ensures
        live_consistent(s1),
{
    let start = addr_slot_of(ptr);
    assert(0 <= start) by {
        assert((u64_specs::wrapping_mul(ptr as u64, GOLDEN) >> 51u64) >= 0);
    }
    if let Some(j) = addr_find(s0.addrs, ptr, start, 0) {
        lemma_find_holds(s0.addrs, ptr, start, 0);
        let e = s0.addrs[j];
        lemma_live_count_update(s0.addrs, j, Addr { ptr: TOMBSTONE, ..e });
    }
}

/// With no sampled pointer live, a free (of anything but the
/// tombstone value) finds nothing and changes nothing: the free hook's
/// shortcut loses nothing.
pub proof fn lemma_no_live_free_is_noop(s: ProfState, ptr: usize)
    requires
        state_wf(s),
        live_consistent(s),
        s.live == 0,
        ptr != TOMBSTONE,
    ensures
        free_step(s, s, ptr),
{
    lemma_live_count_zero(s.addrs);
    let start = addr_slot_of(ptr);
    assert(0 <= start) by {
        assert((u64_specs::wrapping_mul(ptr as u64, GOLDEN) >> 51u64) >= 0);
    }
    lemma_find_none_when_dead(s.addrs, ptr, start, 0);
}

/// Turning the slot of another pointer into a tombstone leaves a lookup
/// of `p` as it was.
proof fn lemma_find_past_tombstone(a0: Seq<Addr>, a1: Seq<Addr>, j: int, p: usize, start: int, k: int)
    requires
        a0.len() == NADDRS,
        0 <= start,
        0 <= j < NADDRS,
        a0[j].ptr != EMPTY,
        a0[j].ptr != p,
        p != TOMBSTONE,
        a1 == a0.update(j, Addr { ptr: TOMBSTONE, ..a0[j] }),
    ensures
        addr_find(a1, p, start, k) == addr_find(a0, p, start, k),
    decreases NADDRS - k,
{
    if 0 <= k < NADDRS {
        lemma_find_past_tombstone(a0, a1, j, p, start, k + 1);
    }
}

/// A lookup of a pointer that no slot holds finds nothing.
proof fn lemma_find_absent(a: Seq<Addr>, p: usize, start: int, k: int)
    requires
        a.len() == NADDRS,
        0 <= start,
        forall|i: int| 0 <= i < a.len() ==> (#[trigger] a[i]).ptr != p,
    ensures
        addr_find(a, p, start, k) is None,
    decreases NADDRS - k,
{
    if 0 <= k < NADDRS {
        let i = (start + k) % (NADDRS as int);
        if a[i].ptr != EMPTY {
            lemma_find_absent(a, p, start, k + 1);
        }
    }
}

/// Freeing one sampled pointer does not hide another: its slot becomes a
/// tombstone, which a later lookup probes past, so a free of any other
/// pointer `q` finds the same slot (and credits the same bucket) as
/// before.
pub proof fn lemma_free_keeps_other_lookups(s0: ProfState, s1: ProfState, p: usize, q: usize)
    requires
        state_wf(s0),
        free_step(s0, s1, p),
        p != q,
        q != TOMBSTONE,
    ensures
        addr_find(s1.addrs, q, addr_slot_of(q), 0) == addr_find(s0.addrs, q, addr_slot_of(q), 0),
{
    let start = addr_slot_of(p);
    assert(0 <= start) by {
        assert((u64_specs::wrapping_mul(p as u64, GOLDEN) >> 51u64) >= 0);
    }
    assert(0 <= addr_slot_of(q)) by {
        assert((u64_specs::wrapping_mul(q as u64, GOLDEN) >> 51u64) >= 0);
    }
    if addr_find(s0.addrs, p, start, 0) is Some {
        lemma_find_holds(s0.addrs, p, start, 0);
        let j = addr_find(s0.addrs, p, start, 0)->0;
        lemma_find_past_tombstone(s0.addrs, s1.addrs, j, q, addr_slot_of(q), 0);
    }
}

/// A sampled pointer held by one slot only is freed once: its first free
/// makes the slot a tombstone, and a second free of it changes nothing.
pub proof fn lemma_second_free_is_noop(s0: ProfState, s1: ProfState, s2: ProfState, p: usize)
    requires
        state_wf(s0),
        p != TOMBSTONE,
        forall|i: int, k: int|
            0 <= i < k < s0.addrs.len() && #[trigger] s0.addrs[i].ptr == p ==> #[trigger] s0.addrs[k].ptr != p,
        free_step(s0, s1, p),
        free_step(s1, s2, p),
    ensures
        s2 == s1,
{
    let start = addr_slot_of(p);
    assert(0 <= start) by {
        assert((u64_specs::wrapping_mul(p as u64, GOLDEN) >> 51u64) >= 0);
    }
    if addr_find(s0.addrs, p, start, 0) is Some {
        lemma_find_holds(s0.addrs, p, start, 0);
        let j = addr_find(s0.addrs, p, start, 0)->0;
        assert forall|i: int| 0 <= i < s1.addrs.len() implies (#[trigger] s1.addrs[i]).ptr != p by {
            if i != j {
                if i < j {
                    assert(s0.addrs[j].ptr == p);
                    assert(s0.addrs[i].ptr != p);
                } else {
                    assert(s0.addrs[i].ptr != p);
                }
            }
        }
        lemma_find_absent(s1.addrs, p, start, 0);
    } else {
        assert(s1 == s0);
    }
}

/// Go's `MemProfileRate`: the mean number of bytes between samples.
pub fn MemProfileRate(p: &MemProfile) -> (r: i64)
    ensures
        r == p.rate_of(),
{
    p.rate
}

/// Sets `MemProfileRate`; the tables are left as they are.
pub fn SetMemProfileRate(p: &mut MemProfile, rate: i64)
    ensures
        final(p).rate_of() == rate,
        final(p).state() == old(p).state(),
{
    p.rate = rate;
}

/// What the allocation hook does with one allocation.
#[derive(Clone, Copy, PartialEq, Eq, Debug)]
pub enum HookStep {
    /// Profiling is off, the pointer is null, or there is no M yet to
    /// hold the countdown: nothing.
    Skip,
    /// The countdown goes on at this many bytes.
    Countdown(i64),
    /// The countdown ran out: sample this allocation (with the
    /// countdown parked at `i64::MAX` meanwhile), then draw the next one.
    Sample,
}

/// The allocation hook's decision for an allocation of `size` bytes
/// at `ptr`, with `next` bytes left before the next sample on this M.
pub fn malloc_hook_step(rate: i64, ptr: usize, tls_ready: bool, next: i64, size: usize) -> (r: HookStep)
    requires
        size <= i64::MAX,
        next - size >= i64::MIN,
    ensures
        r == (if rate <= 0 || ptr == 0 || !tls_ready {
            HookStep::Skip
        } else if next - size > 0 {
            HookStep::Countdown((next - size) as i64)
        } else {
            HookStep::Sample
        }),
{
    if rate <= 0 || ptr == 0 {
        return HookStep::Skip;
    }
    if !tls_ready {
        return HookStep::Skip;
    }
    let left = next - size as i64;
    if left > 0 {
        HookStep::Countdown(left)
    } else {
        HookStep::Sample
    }
}

/// The free hook: a null pointer, or no sampled pointer live, costs
/// nothing; otherwise the free is credited as `record_free` does.
pub fn free_hook(p: &mut MemProfile, ptr: usize)
    requires
        old(p).wf(),
    ensures
        final(p).wf(),
        final(p).rate_of() == old(p).rate_of(),
        ptr == 0 || old(p).state().live == 0 ==> final(p).state() == old(p).state(),
        !(ptr == 0 || old(p).state().live == 0) ==> free_step(old(p).state(), final(p).state(), ptr),
{
    if ptr == 0 || p.live_sampled() == 0 {
        return;
    }
    p.record_free(ptr);
}

} // verus!
