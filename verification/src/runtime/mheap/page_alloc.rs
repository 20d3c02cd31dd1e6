//! Radix-tree page allocator: five levels of `(start, max, end)` free-run
//! summaries over per-chunk page bitmaps. A summary at level `l` covers
//! `2^levelLogPages[l]` pages; a parent's summary is the merge of its
//! eight children's. `alloc` descends the tree to the first run of free
//! pages long enough; `alloc` and `free` update the bitmaps and then the
//! summaries from the leaves up.
use vstd::prelude::*;
use vstd::arithmetic::power2::pow2;
use super::consts::{
    level_bits, level_log_pages, level_shift, spec_level_log_pages, spec_level_shift,
    spec_level_bits, MAX_PACKED_VALUE, PAGE_SHIFT, PAGE_SIZE, PALLOC_CHUNK_BYTES,
    PALLOC_CHUNK_PAGES, SUMMARY_LEVELS,
};
use super::palloc_bits::{
    PallocBits, NO_INDEX, is_first_fit, search_base, range_set, count_alloc, lemma_all_alloc,
};
use super::palloc_sum::{
    PallocSum, merge_summaries, merge_fold, sum_views, pack_view, run_summary, lemma_run_bounds,
    free_run_at, lead_free, trail_free, max_free, lemma_lead_free_run,
    lemma_trail_free_run, lemma_run_le_max, lemma_max_witness, lemma_run_summary_concat,
};

verus! {

/// Returned by `alloc` and `find` when no run of free pages is long
/// enough. 0 is never a heap address.
pub const ALLOC_FAILED: usize = 0;

/// Entries of the root summary level.
pub const L0_ENTRIES: usize = 16384;

/// Pages one summary at level `l` covers.
pub open spec fn lp(l: int) -> int {
    if l == 0 {
        2097152
    } else if l == 1 {
        262144
    } else if l == 2 {
        32768
    } else if l == 3 {
        4096
    } else {
        512
    }
}

proof fn lemma_lp(l: int)
    requires
        0 <= l < 5,
    ensures
        lp(l) == pow2(spec_level_log_pages(l) as nat),
        lp(l) * 8192 == pow2(spec_level_shift(l) as nat),
        l < 4 ==> lp(l) == 8 * lp(l + 1),
        l > 0 ==> spec_level_bits(l) == 3,
        1 <= lp(l) <= MAX_PACKED_VALUE,
        spec_level_shift(l) < 64,
{
    vstd::arithmetic::power2::lemma2_to64();
    vstd::arithmetic::power2::lemma2_to64_rest();
}

/// `pageAlloc` — the radix-tree page allocator over chunks
/// `[start_chunk, end_chunk)` of an arena based at `arena_base`, with
/// metadata sized for `capacity_chunks()` chunks.
pub struct PageAlloc {
    sum0: Vec<PallocSum>,
    sum1: Vec<PallocSum>,
    sum2: Vec<PallocSum>,
    sum3: Vec<PallocSum>,
    sum4: Vec<PallocSum>,
    chunks: Vec<PallocBits>,
    chunks_capacity: usize,
    /// Virtual base address of the arena.
    pub arena_base: usize,
    /// First active chunk.
    pub start_chunk: usize,
    /// One past the last active chunk.
    pub end_chunk: usize,
}

impl PageAlloc {
    /// The summaries of level `l`.
    pub closed spec fn level(self, l: int) -> Seq<PallocSum> {
        if l == 0 {
            self.sum0@
        } else if l == 1 {
            self.sum1@
        } else if l == 2 {
            self.sum2@
        } else if l == 3 {
            self.sum3@
        } else {
            self.sum4@
        }
    }

    /// The arena's base address.
    pub closed spec fn arena(self) -> int {
        self.arena_base as int
    }

    /// One past the last active chunk.
    pub closed spec fn end(self) -> int {
        self.end_chunk as int
    }

    /// First active chunk.
    pub closed spec fn start(self) -> int {
        self.start_chunk as int
    }

    /// Metadata capacity in chunks.
    pub closed spec fn capacity(self) -> int {
        self.chunks_capacity as int
    }

    /// The active pages, `true` for allocated: page `p` is at address
    /// `arena_base + p * PAGE_SIZE`.
    pub closed spec fn pages(self) -> Seq<bool> {
        Seq::new(
            (self.end_chunk * 512) as nat,
            |p: int| self.chunks@[p / 512]@[p % 512],
        )
    }

    /// Page `p` of the whole address range; pages outside the active
    /// chunks count as allocated.
    spec fn vpage(self, p: int) -> bool {
        if 0 <= p < self.end_chunk * 512 {
            self.chunks@[p / 512]@[p % 512]
        } else {
            true
        }
    }

    /// The pages covered by summary `i` of level `l`.
    spec fn region(self, l: int, i: int) -> Seq<bool> {
        Seq::new(lp(l) as nat, |k: int| self.vpage(i * lp(l) + k))
    }

    /// The merge of the eight children of summary `i` of level `l`.
    spec fn child_merge(self, l: int, i: int) -> (int, int, int) {
        let f = merge_fold(sum_views(self.level(l + 1).subrange(i * 8, i * 8 + 8)), lp(l + 1));
        pack_view(f.0, f.1, f.2)
    }

    /// Summary `i` of level `l` agrees with what lies below it.
    spec fn entry_ok(self, l: int, i: int) -> bool {
        if l == 4 {
            self.level(4)[i]@ == if i < self.end_chunk {
                run_summary(self.chunks@[i]@)
            } else {
                (0int, 0int, 0int)
            }
        } else if i * 8 + 8 <= self.level(l + 1).len() {
            self.level(l)[i]@ == self.child_merge(l, i)
        } else {
            self.level(l)[i]@ == (0int, 0int, 0int)
        }
    }

    spec fn level_ok(self, l: int) -> bool {
        forall|i: int| 0 <= i < self.level(l).len() ==> #[trigger] self.entry_ok(l, i)
    }

    /// Shape of the arena and the summary arrays.
    spec fn shape_ok(self) -> bool {
        &&& self.level(0).len() == L0_ENTRIES
        &&& forall|l: int|
            1 <= l < 5 ==> {
                &&& #[trigger] self.level(l).len() % 8 == 0
                &&& self.level(l).len() >= 8
                &&& self.level(l).len() * lp(l) >= self.chunks_capacity * 512
                &&& self.level(l).len() * lp(l) <= self.chunks_capacity * 512 + 8 * lp(l)
            }
        &&& self.chunks@.len() == self.chunks_capacity
        &&& 1 <= self.end_chunk <= self.chunks_capacity
        &&& self.chunks_capacity <= 0x400_0000
        &&& self.start_chunk == 0
        &&& self.arena_base % PALLOC_CHUNK_BYTES == 0
        &&& self.arena_base > 0
        &&& self.arena_base + self.chunks_capacity * PALLOC_CHUNK_BYTES <= usize::MAX
    }

    /// The arena fits in the address space, chunk by chunk.
    pub proof fn lemma_capacity_bound(self)
        requires
            self.wf(),
        ensures
            self.arena() + self.capacity() * PALLOC_CHUNK_BYTES <= usize::MAX,
            self.capacity() * 512 * 8192 <= usize::MAX,
            1 <= self.end() <= self.capacity() <= 0x400_0000,
            self.arena() > 0,
    {
    }

    /// The active pages fit in the address space.
    pub proof fn lemma_pages_bound(self)
        requires
            self.wf(),
        ensures
            count_alloc(self.pages()) <= self.pages().len(),
            self.pages().len() == self.end() * 512,
            self.pages().len() * 8192 <= usize::MAX,
    {
        lemma_count_concat(Seq::empty(), self.pages());
        assert(Seq::<bool>::empty() + self.pages() =~= self.pages());
    }

    /// Well-formed: shape, and every summary agrees with the pages below.
    pub closed spec fn wf(self) -> bool {
        &&& self.shape_ok()
        &&& forall|l: int| 0 <= l < 5 ==> #[trigger] self.level_ok(l)
        &&& self.inactive_free()
    }

    /// Chunks past the active ones are entirely free, ready for `grow`.
    spec fn inactive_free(self) -> bool {
        forall|c: int|
            self.end_chunk <= c < self.chunks@.len() ==> #[trigger] self.chunks@[c]@ == Seq::new(
                512,
                |i: int| false,
            )
    }

    /// Address of page `p`.
    pub closed spec fn page_addr(self, p: int) -> int {
        self.arena_base + p * PAGE_SIZE
    }
}


/// A run summary of at most `MAX_PACKED_VALUE` pages packs losslessly.
proof fn lemma_pack_identity(b: Seq<bool>)
    requires
        b.len() <= MAX_PACKED_VALUE,
    ensures
        pack_view(run_summary(b).0, run_summary(b).1, run_summary(b).2) == run_summary(b),
{
    lemma_run_bounds(b);
}

/// Length of summary level `l` for `max_chunks` chunks: enough entries to
/// cover them, rounded up to whole blocks of eight.
fn level_len(l: usize, max_chunks: usize) -> (r: usize)
    requires
        1 <= l < 5,
        1 <= max_chunks <= 0x400_0000,
    ensures
        r % 8 == 0,
        r >= 8,
        r * lp(l as int) >= max_chunks * 512,
        r * lp(l as int) <= max_chunks * 512 + 8 * lp(l as int),
        r <= max_chunks + 8,
{
    let d: usize = if l == 1 { 512 } else if l == 2 { 64 } else if l == 3 { 8 } else { 1 };
    let entries = (max_chunks + d - 1) / d;
    let n = (entries + 7) / 8 * 8;
    assert(lp(l as int) == 512 * d);
    assert(entries * d >= max_chunks && entries * d < max_chunks + d) by (nonlinear_arith)
        requires
            entries == (max_chunks + d - 1) as int / (d as int),
            d >= 1,
    ;
    assert(n >= entries && n < entries + 8 && n % 8 == 0) by (nonlinear_arith)
        requires
            n == (entries + 7) / 8 * 8,
    ;
    assert(n * d >= entries * d && n * d <= entries * d + 7 * d) by (nonlinear_arith)
        requires
            n >= entries,
            n < entries + 8,
            d >= 1,
    ;
    assert(n * lp(l as int) == (n * d) * 512) by (nonlinear_arith)
        requires
            lp(l as int) == 512 * d,
    ;
    assert(entries <= max_chunks) by (nonlinear_arith)
        requires
            entries == (max_chunks + d - 1) as int / (d as int),
            d >= 1,
    ;
    assert(n >= 8) by {
        assert(entries >= 1) by (nonlinear_arith)
            requires
                entries == (max_chunks + d - 1) as int / (d as int),
                d >= 1,
                max_chunks >= 1,
        ;
    }
    n
}

/// A vector of `n` empty summaries.
fn empty_level(n: usize) -> (r: Vec<PallocSum>)
    ensures
        r@.len() == n,
        forall|i: int| 0 <= i < n ==> #[trigger] r@[i]@ == (0int, 0int, 0int),
{
    let mut v: Vec<PallocSum> = Vec::new();
    while v.len() < n
        invariant
            v@.len() <= n,
            forall|i: int| 0 <= i < v@.len() ==> #[trigger] v@[i]@ == (0int, 0int, 0int),
        decreases n - v@.len(),
    {
        v.push(PallocSum::empty());
    }
    v
}

impl PageAlloc {
    /// The summaries of level `l`, as a slice.
    fn level_slice(&self, l: usize) -> (r: &[PallocSum])
        requires
            l < 5,
        ensures
            r@ == self.level(l as int),
    {
        if l == 0 {
            self.sum0.as_slice()
        } else if l == 1 {
            self.sum1.as_slice()
        } else if l == 2 {
            self.sum2.as_slice()
        } else if l == 3 {
            self.sum3.as_slice()
        } else {
            self.sum4.as_slice()
        }
    }

    /// Replace summary `i` of level `l`.
    fn set_sum(&mut self, l: usize, i: usize, v: PallocSum)
        requires
            l < 5,
            i < old(self).level(l as int).len(),
        ensures
            final(self).level(l as int) == old(self).level(l as int).update(i as int, v),
            forall|m: int| 0 <= m < 5 && m != l ==> #[trigger] final(self).level(m) == old(self).level(m),
            final(self).chunks == old(self).chunks,
            final(self).chunks_capacity == old(self).chunks_capacity,
            final(self).arena_base == old(self).arena_base,
            final(self).start_chunk == old(self).start_chunk,
            final(self).end_chunk == old(self).end_chunk,
    {
        if l == 0 {
            self.sum0.set(i, v);
        } else if l == 1 {
            self.sum1.set(i, v);
        } else if l == 2 {
            self.sum2.set(i, v);
        } else if l == 3 {
            self.sum3.set(i, v);
        } else {
            self.sum4.set(i, v);
        }
    }

    /// The merge of the eight children of summary `i` of level `l`.
    fn merge_children(&self, l: usize, i: usize) -> (r: PallocSum)
        requires
            l < 4,
            i * 8 + 8 <= self.level(l as int + 1).len(),
        ensures
            r@ == self.child_merge(l as int, i as int),
    {
        proof {
            lemma_lp(l as int + 1);
        }
        let lv = self.level_slice(l + 1);
        let len = lv.len();
        let kids = vstd::slice::slice_subrange(lv, i * 8, i * 8 + 8);
        merge_summaries(kids, level_log_pages(l + 1))
    }

    /// The prefix of the region of summary `i` of level `l` covered by its
    /// first `m` children.
    spec fn child_prefix(self, l: int, i: int, m: int) -> Seq<bool> {
        Seq::new((m * lp(l + 1)) as nat, |k: int| self.vpage(i * lp(l) + k))
    }

    /// Merging the first `m` children's run summaries gives the summary of
    /// the pages they cover.
    proof fn lemma_children_merge(self, l: int, i: int, m: int)
        requires
            0 <= l < 4,
            0 <= i,
            1 <= m <= 8,
            i * 8 + 8 <= self.level(l + 1).len(),
            forall|k: int|
                0 <= k < m ==> #[trigger] self.level(l + 1)[i * 8 + k]@ == run_summary(
                    self.region(l + 1, i * 8 + k),
                ),
        ensures
            merge_fold(sum_views(self.level(l + 1).subrange(i * 8, i * 8 + m)), lp(l + 1))
                == run_summary(self.child_prefix(l, i, m)),
        decreases m,
    {
        lemma_lp(l);
        let b = lp(l + 1);
        let kids = self.level(l + 1).subrange(i * 8, i * 8 + m);
        if m == 1 {
            assert(i * lp(l) == (i * 8) * b) by (nonlinear_arith)
                requires
                    lp(l) == 8 * b,
            ;
            assert(self.child_prefix(l, i, 1).len() == b);
            assert(self.region(l + 1, i * 8).len() == b);
            assert forall|k: int| 0 <= k < b implies self.child_prefix(l, i, 1)[k] == self.region(
                l + 1,
                i * 8,
            )[k] by {
                assert(self.child_prefix(l, i, 1)[k] == self.vpage(i * lp(l) + k));
                assert(self.region(l + 1, i * 8)[k] == self.vpage((i * 8) * b + k));
            }
            assert(self.child_prefix(l, i, 1) =~= self.region(l + 1, i * 8));
            assert(sum_views(kids)[0] == kids[0]@);
        } else {
            self.lemma_children_merge(l, i, m - 1);
            assert(sum_views(kids).drop_last() =~= sum_views(
                self.level(l + 1).subrange(i * 8, i * 8 + m - 1),
            ));
            let a = self.child_prefix(l, i, m - 1);
            let c = self.region(l + 1, i * 8 + m - 1);
            assert(self.child_prefix(l, i, m) =~= a + c) by {
                assert((m - 1) * b + b == m * b) by (nonlinear_arith);
                assert forall|k: int| 0 <= k < m * b implies #[trigger] self.child_prefix(l, i, m)[k]
                    == (a + c)[k] by {
                    if k >= (m - 1) * b {
                        assert((i * 8 + m - 1) * b + (k - (m - 1) * b) == i * lp(l) + k)
                            by (nonlinear_arith)
                            requires
                                lp(l) == 8 * b,
                        ;
                    }
                }
            }
            super::palloc_sum::lemma_run_summary_concat(a, c);
            lemma_run_bounds(a);
            lemma_run_bounds(c);
            assert(a.len() == (m - 1) * b);
        }
    }
}


impl PageAlloc {
    /// The per-level facts of `shape_ok`.
    proof fn lemma_shape_facts(self, l: int)
        requires
            self.shape_ok(),
            1 <= l < 5,
        ensures
            self.level(l).len() % 8 == 0,
            self.level(l).len() >= 8,
            self.level(l).len() * lp(l) >= self.chunks_capacity * 512,
            self.level(l).len() * lp(l) <= self.chunks_capacity * 512 + 8 * lp(l),
    {
        assert(self.level(l).len() % 8 == 0);
    }

    /// The summary arrays are small enough for index arithmetic.
    proof fn lemma_level_len_bound(self, l: int)
        requires
            self.shape_ok(),
            0 <= l < 5,
        ensures
            self.level(l).len() <= 0x800_0000,
    {
        lemma_lp(l);
        if l > 0 {
            let len = self.level(l).len();
            assert(len * lp(l) <= self.chunks_capacity * 512 + 8 * lp(l));
            assert(len <= self.chunks_capacity + 8) by (nonlinear_arith)
                requires
                    len * lp(l) <= self.chunks_capacity * 512 + 8 * lp(l),
                    lp(l) >= 512,
            ;
        }
    }

    /// Every page of a region that starts at or past the active pages is
    /// allocated.
    proof fn lemma_region_inactive(self, l: int, i: int)
        requires
            0 <= l < 5,
            i * lp(l) >= self.end_chunk * 512,
        ensures
            forall|k: int| 0 <= k < lp(l) ==> #[trigger] self.region(l, i)[k],
            run_summary(self.region(l, i)) == (0int, 0int, 0int),
    {
        lemma_all_alloc(self.region(l, i));
    }

    /// In a well-formed allocator, every summary is the run summary of the
    /// pages it covers.
    proof fn lemma_entry_region(self, l: int, i: int)
        requires
            self.wf(),
            0 <= l < 5,
            0 <= i < self.level(l).len(),
        ensures
            self.level(l)[i]@ == run_summary(self.region(l, i)),
        decreases 4 - l,
    {
        lemma_lp(l);
        assert(self.level_ok(l));
        assert(self.entry_ok(l, i));
        if l == 4 {
            if i < self.end_chunk {
                assert(self.region(4, i) =~= self.chunks@[i]@) by {
                    assert forall|k: int| 0 <= k < 512 implies self.region(4, i)[k]
                        == self.chunks@[i]@[k] by {
                        assert((i * 512 + k) / 512 == i);
                        assert((i * 512 + k) % 512 == k);
                    }
                }
            } else {
                self.lemma_region_inactive(4, i);
            }
        } else if i * 8 + 8 <= self.level(l + 1).len() {
            assert forall|k: int| 0 <= k < 8 implies #[trigger] self.level(l + 1)[i * 8 + k]@
                == run_summary(self.region(l + 1, i * 8 + k)) by {
                self.lemma_entry_region(l + 1, i * 8 + k);
            }
            self.lemma_children_merge(l, i, 8);
            assert(self.child_prefix(l, i, 8) =~= self.region(l, i));
            lemma_pack_identity(self.region(l, i));
        } else {
            let len = self.level(l + 1).len();
            assert(len % 8 == 0 && len * lp(l + 1) >= self.chunks_capacity * 512);
            assert(i * 8 >= len);
            assert(i * lp(l) >= self.end_chunk * 512) by (nonlinear_arith)
                requires
                    i * 8 >= len,
                    lp(l) == 8 * lp(l + 1),
                    len * lp(l + 1) >= self.chunks_capacity * 512,
                    self.end_chunk <= self.chunks_capacity,
                    lp(l + 1) >= 1,
            ;
            self.lemma_region_inactive(l, i);
        }
    }

    /// Regions past the end of a level's array are allocated.
    proof fn lemma_beyond_level(self, l: int, i: int)
        requires
            self.shape_ok(),
            0 <= l < 5,
            i >= self.level(l).len(),
        ensures
            run_summary(self.region(l, i)) == (0int, 0int, 0int),
            forall|k: int| 0 <= k < lp(l) ==> #[trigger] self.region(l, i)[k],
    {
        lemma_lp(l);
        let len = self.level(l).len();
        if l == 0 {
            assert(len * lp(l) >= self.chunks_capacity * 512);
        } else {
            assert(len * lp(l) >= self.chunks_capacity * 512);
        }
        assert(i * lp(l) >= self.end_chunk * 512) by (nonlinear_arith)
            requires
                i >= len,
                len * lp(l) >= self.chunks_capacity * 512,
                self.end_chunk <= self.chunks_capacity,
                lp(l) >= 1,
        ;
        self.lemma_region_inactive(l, i);
    }

    /// Build an allocator over the arena at `arena_base` with the first
    /// `n_chunks` chunks active, all free, and metadata for `max_chunks`.
    pub fn new(arena_base: usize, n_chunks: usize, max_chunks: usize) -> (r: Self)
        requires
            arena_base % PALLOC_CHUNK_BYTES == 0,
            arena_base > 0,
            1 <= n_chunks <= max_chunks,
            max_chunks <= 0x400_0000,
            arena_base + max_chunks * PALLOC_CHUNK_BYTES <= usize::MAX,
        ensures
            r.wf(),
            r.arena() == arena_base,
            r.start() == 0,
            r.end() == n_chunks,
            r.capacity() == max_chunks,
            r.pages() == Seq::new((n_chunks * 512) as nat, |p: int| false),
            count_alloc(r.pages()) == 0,
    {
        let mut chunks: Vec<PallocBits> = Vec::new();
        while chunks.len() < max_chunks
            invariant
                chunks@.len() <= max_chunks,
                forall|c: int| 0 <= c < chunks@.len() ==> #[trigger] chunks@[c]@ == Seq::new(512, |i: int| false),
            decreases max_chunks - chunks@.len(),
        {
            chunks.push(PallocBits::zero());
        }
        let l1 = level_len(1, max_chunks);
        let l2 = level_len(2, max_chunks);
        let l3 = level_len(3, max_chunks);
        let l4 = level_len(4, max_chunks);
        let mut p = PageAlloc {
            sum0: empty_level(L0_ENTRIES),
            sum1: empty_level(l1),
            sum2: empty_level(l2),
            sum3: empty_level(l3),
            sum4: empty_level(l4),
            chunks,
            chunks_capacity: max_chunks,
            arena_base,
            start_chunk: 0,
            end_chunk: n_chunks,
        };
        assert(p.shape_ok()) by {
            lemma_lp(0);
            assert(p.level(0).len() * lp(0) >= max_chunks * 512);
        }
        // Leaves of the active chunks: all free.
        let mut ci: usize = 0;
        while ci < n_chunks
            invariant
                p.shape_ok(),
                ci <= n_chunks,
                p.end_chunk == n_chunks,
                p.arena_base == arena_base,
                p.chunks_capacity == max_chunks,
                p.start_chunk == 0,
                p.chunks@.len() == max_chunks,
                forall|c: int| 0 <= c < max_chunks ==> #[trigger] p.chunks@[c]@ == Seq::new(512, |i: int| false),
                forall|m: int, i: int| 0 <= m < 4 && 0 <= i < p.level(m).len() ==> #[trigger] p.level(m)[i]@ == (0int, 0int, 0int),
                forall|i: int| ci <= i < p.level(4).len() ==> #[trigger] p.level(4)[i]@ == (0int, 0int, 0int),
                forall|i: int| 0 <= i < ci ==> #[trigger] p.entry_ok(4, i),
            decreases n_chunks - ci,
        {
            let leaf = p.chunks[ci].summarize();
            proof {
                lemma_lp(4);
                assert(p.level(4).len() * 512 >= max_chunks * 512);
            }
            let ghost before = p;
            p.set_sum(4, ci, leaf);
            proof {
                assert forall|i: int| 0 <= i < ci + 1 implies #[trigger] p.entry_ok(4, i) by {
                    if i < ci {
                        assert(before.entry_ok(4, i));
                    }
                }
            }
            ci += 1;
        }
        proof {
            assert forall|i: int| 0 <= i < p.level(4).len() implies #[trigger] p.entry_ok(4, i) by {
                if i >= ci {
                    assert(p.level(4)[i]@ == (0int, 0int, 0int));
                }
            }
            assert(p.level_ok(4));
        }
        p.bubble_up_initial();
        proof {
            assert(p.pages() =~= Seq::new((n_chunks * 512) as nat, |q: int| false));
            lemma_count_uniform(p.pages(), false);
        }
        p
    }

    /// Compute every parent summary from its children, leaves up.
    fn bubble_up_initial(&mut self)
        requires
            old(self).shape_ok(),
            old(self).level_ok(4),
            old(self).inactive_free(),
            forall|m: int, i: int| 0 <= m < 4 && 0 <= i < old(self).level(m).len() ==> #[trigger] old(self).level(m)[i]@ == (0int, 0int, 0int),
        ensures
            final(self).wf(),
            final(self).chunks == old(self).chunks,
            final(self).chunks_capacity == old(self).chunks_capacity,
            final(self).arena_base == old(self).arena_base,
            final(self).start_chunk == old(self).start_chunk,
            final(self).end_chunk == old(self).end_chunk,
    {
        let mut l: usize = 4;
        while l > 0
            invariant
                l <= 4,
                self.shape_ok(),
                self.chunks == old(self).chunks,
                self.chunks_capacity == old(self).chunks_capacity,
                self.arena_base == old(self).arena_base,
                self.start_chunk == old(self).start_chunk,
                self.end_chunk == old(self).end_chunk,
                forall|m: int| l <= m < 5 ==> #[trigger] self.level_ok(m),
                forall|m: int, i: int| 0 <= m < l && 0 <= i < self.level(m).len() ==> #[trigger] self.level(m)[i]@ == (0int, 0int, 0int),
            decreases l,
        {
            let pl = l - 1;
            proof {
                self.lemma_level_len_bound(pl as int);
            }
            let parent_count = self.level_slice(pl).len();
            let child_count = self.level_slice(l).len();
            let mut i: usize = 0;
            while i < parent_count
                invariant
                    pl + 1 == l,
                    l <= 4,
                    self.shape_ok(),
                    parent_count == self.level(pl as int).len(),
                    parent_count <= 0x800_0000,
                    child_count == self.level(l as int).len(),
                    i <= parent_count,
                    self.chunks == old(self).chunks,
                    self.chunks_capacity == old(self).chunks_capacity,
                    self.arena_base == old(self).arena_base,
                    self.start_chunk == old(self).start_chunk,
                    self.end_chunk == old(self).end_chunk,
                    forall|m: int| l <= m < 5 ==> #[trigger] self.level_ok(m),
                    forall|m: int, k: int| 0 <= m < pl && 0 <= k < self.level(m).len() ==> #[trigger] self.level(m)[k]@ == (0int, 0int, 0int),
                    forall|k: int| i <= k < parent_count ==> #[trigger] self.level(pl as int)[k]@ == (0int, 0int, 0int),
                    forall|k: int| 0 <= k < i ==> #[trigger] self.entry_ok(pl as int, k),
                decreases parent_count - i,
            {
                let lo = i * 8;
                if lo + 8 > child_count {
                    proof {
                        assert forall|k: int| 0 <= k < parent_count implies #[trigger] self.entry_ok(pl as int, k) by {
                            if k >= i {
                                assert(k * 8 + 8 > child_count);
                            }
                        }
                    }
                    i = parent_count;
                } else {
                    let merged = self.merge_children(pl, i);
                    let ghost before = *self;
                    self.set_sum(pl, i, merged);
                    proof {
                        assert(self.level(l as int) == before.level(l as int));
                        assert forall|k: int| 0 <= k < i + 1 implies #[trigger] self.entry_ok(pl as int, k) by {
                            if k < i {
                                assert(before.entry_ok(pl as int, k));
                            }
                        }
                        assert forall|m: int| l <= m < 5 implies #[trigger] self.level_ok(m) by {
                            assert(before.level_ok(m));
                            assert forall|k: int| 0 <= k < self.level(m).len() implies #[trigger] self.entry_ok(m, k) by {
                                assert(before.entry_ok(m, k));
                                if m < 4 {
                                    assert(self.level(m + 1) == before.level(m + 1));
                                }
                            }
                        }
                    }
                    i += 1;
                }
            }
            proof {
                assert forall|k: int| 0 <= k < self.level(pl as int).len() implies #[trigger] self.entry_ok(pl as int, k) by {}
                assert(self.level_ok(pl as int));
            }
            l = pl;
        }
    }
}


/// Allocated pages of `a + b`.
pub proof fn lemma_count_concat(a: Seq<bool>, b: Seq<bool>)
    ensures
        count_alloc(a + b) == count_alloc(a) + count_alloc(b),
        0 <= count_alloc(b) <= b.len(),
    decreases b.len(),
{
    if b.len() == 0 {
        assert(a + b =~= a);
    } else {
        assert((a + b).drop_last() =~= a + b.drop_last());
        lemma_count_concat(a, b.drop_last());
    }
}

/// Index at level `l` of the summary covering arena offset `off`.
pub open spec fn level_index(l: int, off: int) -> int {
    off / (lp(l) * 8192)
}

proof fn lemma_level_index_parent(l: int, off: int)
    requires
        0 <= l < 4,
        off >= 0,
    ensures
        level_index(l, off) == level_index(l + 1, off) / 8,
{
    lemma_lp(l);
    let a = lp(l + 1) * 8192;
    assert(lp(l) * 8192 == a * 8);
    vstd::arithmetic::div_mod::lemma_div_denominator(off, a, 8);
}

impl PageAlloc {
    /// `chunkIndex(p)` — index of the chunk holding `addr`.
    pub fn chunk_index(&self, addr: usize) -> (r: usize)
        requires
            self.arena() <= addr,
        ensures
            r == (addr - self.arena()) / (PALLOC_CHUNK_BYTES as int),
    {
        (addr - self.arena_base) / PALLOC_CHUNK_BYTES
    }

    /// `chunkPageIndex(p)` — index within its chunk of the page holding
    /// `addr`.
    pub fn chunk_page_index(&self, addr: usize) -> (r: usize)
        ensures
            r == (addr % PALLOC_CHUNK_BYTES) / PAGE_SIZE,
    {
        (addr % PALLOC_CHUNK_BYTES) / PAGE_SIZE
    }

    /// `chunkBase(ci)` — base address of chunk `ci`.
    pub fn chunk_base(&self, ci: usize) -> (r: usize)
        requires
            self.arena() + ci * PALLOC_CHUNK_BYTES <= usize::MAX,
        ensures
            r == self.arena() + ci * PALLOC_CHUNK_BYTES,
    {
        self.arena_base + ci * PALLOC_CHUNK_BYTES
    }

    /// Index at level `l` of the summary covering `addr`.
    fn addr_to_level_index(&self, l: usize, addr: usize) -> (r: usize)
        requires
            l < 5,
            self.arena() <= addr,
        ensures
            r == level_index(l as int, addr - self.arena()),
    {
        let off = (addr - self.arena_base) as u64;
        let sh = level_shift(l) as u64;
        proof {
            lemma_lp(l as int);
            vstd::bits::lemma_u64_shr_is_div(off, sh);
        }
        let r = off >> sh;
        assert(r <= off) by (nonlinear_arith)
            requires
                r == off as int / (lp(l as int) * 8192),
                lp(l as int) >= 1,
        ;
        r as usize
    }

    /// Total chunk capacity of the metadata.
    pub fn capacity_chunks(&self) -> (r: usize)
        ensures
            r == self.capacity(),
    {
        self.chunks_capacity
    }

    /// The arena's base address.
    pub fn arena_addr(&self) -> (r: usize)
        ensures
            r == self.arena(),
    {
        self.arena_base
    }

    /// One past the last active chunk.
    pub fn end_chunk_index(&self) -> (r: usize)
        ensures
            r == self.end(),
    {
        self.end_chunk
    }

    /// Allocated pages among the active ones.
    pub fn allocated_pages(&self) -> (r: usize)
        requires
            self.wf(),
        ensures
            r == count_alloc(self.pages()),
    {
        let ghost pg = self.pages();
        let mut n: usize = 0;
        let mut ci = self.start_chunk;
        assert(pg.take(0) =~= Seq::<bool>::empty());
        while ci < self.end_chunk
            invariant
                self.wf(),
                pg == self.pages(),
                ci <= self.end_chunk,
                n == count_alloc(pg.take(ci * 512)),
                n <= ci * 512,
            decreases self.end_chunk - ci,
        {
            let c = self.chunks[ci].0.popcnt_range(0, PALLOC_CHUNK_PAGES);
            proof {
                let cv = self.chunks@[ci as int]@;
                assert(cv.subrange(0, 512) =~= cv);
                assert(pg.take((ci + 1) * 512) =~= pg.take(ci * 512) + cv) by {
                    assert forall|k: int| 0 <= k < (ci + 1) * 512 implies #[trigger] pg.take((ci + 1) * 512)[k]
                        == (pg.take(ci * 512) + cv)[k] by {
                        if k >= ci * 512 {
                            assert(k / 512 == ci && k % 512 == k - ci * 512);
                        }
                    }
                }
                lemma_count_concat(pg.take(ci * 512), cv);
                assert(self.end_chunk * 512 <= usize::MAX) by {
                    assert(self.end_chunk <= self.chunks_capacity);
                }
            }
            n += c;
            ci += 1;
        }
        assert(pg.take(self.end_chunk * 512) =~= pg);
        n
    }

    /// Free pages among the active ones.
    pub fn free_pages(&self) -> (r: usize)
        requires
            self.wf(),
        ensures
            r == self.end() * 512 - count_alloc(self.pages()),
    {
        let ghost pg = self.pages();
        let mut n: usize = 0;
        let mut ci = self.start_chunk;
        assert(pg.take(0) =~= Seq::<bool>::empty());
        while ci < self.end_chunk
            invariant
                self.wf(),
                pg == self.pages(),
                ci <= self.end_chunk,
                n == ci * 512 - count_alloc(pg.take(ci * 512)),
                n <= ci * 512,
            decreases self.end_chunk - ci,
        {
            let c = self.chunks[ci].0.popcnt_range(0, PALLOC_CHUNK_PAGES);
            proof {
                let cv = self.chunks@[ci as int]@;
                assert(cv.subrange(0, 512) =~= cv);
                assert(pg.take((ci + 1) * 512) =~= pg.take(ci * 512) + cv) by {
                    assert forall|k: int| 0 <= k < (ci + 1) * 512 implies #[trigger] pg.take((ci + 1) * 512)[k]
                        == (pg.take(ci * 512) + cv)[k] by {
                        if k >= ci * 512 {
                            assert(k / 512 == ci && k % 512 == k - ci * 512);
                        }
                    }
                }
                lemma_count_concat(pg.take(ci * 512), cv);
                lemma_count_concat(pg.take(ci * 512), Seq::<bool>::empty());
                assert(self.end_chunk * 512 <= usize::MAX) by {
                    assert(self.end_chunk <= self.chunks_capacity);
                }
            }
            n += PALLOC_CHUNK_PAGES - c;
            ci += 1;
        }
        assert(pg.take(self.end_chunk * 512) =~= pg);
        n
    }
}


impl PageAlloc {
    /// Every summary agrees with what lies below it, except possibly the
    /// leaves of chunks `[sc, ec]`: the state right after those chunks'
    /// bitmaps changed.
    pub closed spec fn leaves_stale_only(self, sc: int, ec: int) -> bool {
        &&& self.shape_ok()
        &&& forall|l: int| 0 <= l < 4 ==> #[trigger] self.level_ok(l)
        &&& forall|ci: int|
            0 <= ci < self.level(4).len() && (ci < sc || ci > ec) ==> #[trigger] self.entry_ok(4, ci)
        &&& self.inactive_free()
    }

    /// Summary `i` of internal level `l` stays consistent when neither it
    /// nor its children changed.
    proof fn lemma_entry_frame(a: Self, b: Self, l: int, i: int)
        requires
            0 <= l < 4,
            0 <= i < a.level(l).len(),
            a.entry_ok(l, i),
            a.level(l).len() == b.level(l).len(),
            a.level(l)[i] == b.level(l)[i],
            a.level(l + 1).len() == b.level(l + 1).len(),
            i * 8 + 8 <= a.level(l + 1).len() ==> a.level(l + 1).subrange(i * 8, i * 8 + 8)
                == b.level(l + 1).subrange(i * 8, i * 8 + 8),
        ensures
            b.entry_ok(l, i),
    {
    }

    /// A whole level stays consistent when it and the level below did not
    /// change.
    proof fn lemma_level_ok_frame(a: Self, b: Self, m: int)
        requires
            0 <= m < 5,
            a.level_ok(m),
            a.level(m) == b.level(m),
            m < 4 ==> a.level(m + 1) == b.level(m + 1),
            m == 4 ==> a.chunks == b.chunks && a.end_chunk == b.end_chunk,
        ensures
            b.level_ok(m),
    {
        assert forall|k: int| 0 <= k < b.level(m).len() implies #[trigger] b.entry_ok(m, k) by {
            assert(a.entry_ok(m, k));
        }
    }

    /// A stale range at level `l` lies inside the level's array.
    proof fn lemma_stale_range_in_level(self, l: int, lim: int)
        requires
            self.shape_ok(),
            0 <= l < 5,
            0 <= lim < self.end_chunk * PALLOC_CHUNK_BYTES,
        ensures
            level_index(l, lim) + 1 <= self.level(l).len(),
    {
        lemma_lp(l);
        let len = self.level(l).len();
        let d = lp(l) * 8192;
        assert(len * lp(l) >= self.chunks_capacity * 512);
        assert(lim < self.chunks_capacity * PALLOC_CHUNK_BYTES);
        assert(len * d > lim) by (nonlinear_arith)
            requires
                len * lp(l) >= self.chunks_capacity * 512,
                lim < self.chunks_capacity * 4194304,
                d == lp(l) * 8192,
        ;
        assert(lim / d < len) by (nonlinear_arith)
            requires
                len * d > lim,
                d > 0,
                lim >= 0,
        ;
    }

    /// `(*pageAlloc).update` — refresh the leaf summaries of the chunks
    /// touched by `[base, base + npages * PAGE_SIZE)` and carry the change
    /// up the tree.
    #[verifier::rlimit(40)]
    pub fn update(&mut self, base: usize, npages: usize)
        requires
            npages >= 1,
            old(self).arena() <= base,
            base + npages * PAGE_SIZE <= old(self).arena() + old(self).end() * PALLOC_CHUNK_BYTES,
            old(self).leaves_stale_only(
                (base - old(self).arena()) / (PALLOC_CHUNK_BYTES as int),
                (base + npages * PAGE_SIZE - 1 - old(self).arena()) / (PALLOC_CHUNK_BYTES as int),
            ),
        ensures
            final(self).wf(),
            final(self).pages() == old(self).pages(),
            final(self).capacity() == old(self).capacity(),
            final(self).arena() == old(self).arena(),
            final(self).end() == old(self).end(),
            final(self).start() == old(self).start(),
    {
        let limit = base + npages * PAGE_SIZE - 1;
        let sc = self.chunk_index(base);
        let ec = self.chunk_index(limit);
        let ghost off = base - self.arena_base;
        let ghost offl = limit - self.arena_base;
        let ghost s4 = self.level(4);
        let ghost s3 = self.level(3);
        proof {
            lemma_lp(4);
            self.lemma_stale_range_in_level(4, offl);
            assert(level_index(4, offl) == ec);
            assert(sc <= ec) by (nonlinear_arith)
                requires
                    sc == off / 4194304,
                    ec == offl / 4194304,
                    off <= offl,
            ;
        }
        // Refresh affected leaf summaries.
        let mut ci = sc;
        while ci <= ec
            invariant
                sc <= ci <= ec + 1,
                ec + 1 <= self.level(4).len(),
                ec < self.end_chunk,
                self.shape_ok(),
                self.chunks == old(self).chunks,
                self.chunks_capacity == old(self).chunks_capacity,
                self.arena_base == old(self).arena_base,
                self.start_chunk == old(self).start_chunk,
                self.end_chunk == old(self).end_chunk,
                forall|l: int| 0 <= l < 3 ==> #[trigger] self.level(l) == old(self).level(l),
                self.level(3) == s3,
                s4 == old(self).level(4),
                s3 == old(self).level(3),
                self.level(4).len() == s4.len(),
                forall|k: int| 0 <= k < s4.len() && (k < sc || k >= ci) ==> #[trigger] self.level(4)[k] == s4[k],
                forall|k: int| 0 <= k < s4.len() && (k < sc || k > ec || k < ci) ==> #[trigger] self.entry_ok(4, k),
            decreases ec + 1 - ci,
        {
            let leaf = self.chunks[ci].summarize();
            let ghost before = *self;
            self.set_sum(4, ci, leaf);
            proof {
                assert forall|k: int| 0 <= k < s4.len() && (k < sc || k > ec || k < ci + 1) implies #[trigger] self.entry_ok(4, k) by {
                    if k != ci {
                        assert(before.entry_ok(4, k));
                    }
                }
            }
            ci += 1;
        }
        proof {
            assert(self.level_ok(4));
            // Level 3: parents of untouched leaves are still consistent.
            assert forall|l: int| 0 <= l < 3 implies #[trigger] self.level_ok(l) by {
                assert(old(self).level_ok(l));
                assert forall|k: int| 0 <= k < self.level(l).len() implies #[trigger] self.entry_ok(l, k) by {
                    assert(old(self).entry_ok(l, k));
                    Self::lemma_entry_frame(*old(self), *self, l, k);
                }
            }
            lemma_level_index_parent(3, off);
            lemma_level_index_parent(3, offl);
            assert forall|k: int| 0 <= k < self.level(3).len() && (k < level_index(3, off) || k > level_index(3, offl) || k * 8 + 8 > self.level(4).len()) implies #[trigger] self.entry_ok(3, k) by {
                assert(old(self).level_ok(3));
                assert(old(self).entry_ok(3, k));
                if k * 8 + 8 <= self.level(4).len() {
                    assert(k * 8 + 8 <= sc || k * 8 > ec);
                    assert(self.level(4).subrange(k * 8, k * 8 + 8) =~= old(self).level(4).subrange(k * 8, k * 8 + 8));
                }
                Self::lemma_entry_frame(*old(self), *self, 3, k);
            }
        }
        // Walk up.
        let mut changed = true;
        let mut l: usize = SUMMARY_LEVELS - 1;
        while l > 0 && changed
            invariant
                l <= 4,
                self.shape_ok(),
                self.chunks == old(self).chunks,
                self.chunks_capacity == old(self).chunks_capacity,
                self.arena_base == old(self).arena_base,
                self.start_chunk == old(self).start_chunk,
                self.end_chunk == old(self).end_chunk,
                off == base - self.arena_base,
                offl == limit - self.arena_base,
                0 <= off <= offl < self.end_chunk * PALLOC_CHUNK_BYTES,
                !changed ==> forall|m: int| 0 <= m < 5 ==> #[trigger] self.level_ok(m),
                changed ==> forall|m: int| l <= m < 5 ==> #[trigger] self.level_ok(m),
                changed && l > 0 ==> forall|m: int| 0 <= m < l - 1 ==> #[trigger] self.level_ok(m),
                changed && l > 0 ==> forall|k: int|
                    0 <= k < self.level(l - 1).len() && (k < level_index(l - 1, off) || k > level_index(l - 1, offl) || k * 8 + 8 > self.level(l as int).len()) ==> #[trigger] self.entry_ok(l - 1, k),
            decreases l,
        {
            changed = false;
            let lu = l - 1;
            let ghost sp = self.level(lu as int);
            let lo = self.addr_to_level_index(lu, base);
            let hi = self.addr_to_level_index(lu, limit) + 1;
            let child_len = self.level_slice(l).len();
            proof {
                self.lemma_stale_range_in_level(lu as int, offl);
                self.lemma_level_len_bound(lu as int);
                lemma_lp(lu as int);
                vstd::arithmetic::div_mod::lemma_div_is_ordered(off, offl, lp(lu as int) * 8192);
                if lu > 0 {
                    assert(self.level_ok(lu - 1));
                }
            }
            let mut i = lo;
            while i < hi
                invariant
                    lu + 1 == l,
                    l <= 4,
                    lo <= i <= hi,
                    hi <= self.level(lu as int).len(),
                    hi <= 0x800_0000,
                    lo == level_index(lu as int, off),
                    hi == level_index(lu as int, offl) + 1,
                    child_len == self.level(l as int).len(),
                    self.shape_ok(),
                    self.chunks == old(self).chunks,
                    self.chunks_capacity == old(self).chunks_capacity,
                    self.arena_base == old(self).arena_base,
                    self.start_chunk == old(self).start_chunk,
                    self.end_chunk == old(self).end_chunk,
                    off == base - self.arena_base,
                    offl == limit - self.arena_base,
                    0 <= off <= offl < self.end_chunk * PALLOC_CHUNK_BYTES,
                    self.level(lu as int).len() == sp.len(),
                    forall|k: int| 0 <= k < sp.len() && (k < lo || k >= i) ==> #[trigger] self.level(lu as int)[k] == sp[k],
                    !changed ==> self.level(lu as int) == sp,
                    forall|m: int| l <= m < 5 ==> #[trigger] self.level_ok(m),
                    forall|m: int| 0 <= m < lu - 1 ==> #[trigger] self.level_ok(m),
                    forall|k: int|
                        0 <= k < sp.len() && (k < lo || k >= hi || k * 8 + 8 > child_len || k < i) ==> #[trigger] self.entry_ok(lu as int, k),
                    lu > 0 ==> forall|k: int|
                        0 <= k < self.level(lu - 1).len() && (k * 8 + 8 > sp.len() || self.level(lu as int).subrange(k * 8, k * 8 + 8) == sp.subrange(k * 8, k * 8 + 8)) ==> #[trigger] self.entry_ok(lu - 1, k),
                decreases hi - i,
            {
                let child_lo = i * 8;
                let child_hi = child_lo + 8;
                if child_hi > child_len {
                    i += 1;
                    continue;
                }
                let merged = self.merge_children(lu, i);
                let cur = self.level_slice(lu)[i];
                if cur != merged {
                    let ghost before = *self;
                    self.set_sum(lu, i, merged);
                    changed = true;
                    proof {
                        assert forall|m: int| l <= m < 5 implies #[trigger] self.level_ok(m) by {
                            assert(before.level_ok(m));
                            Self::lemma_level_ok_frame(before, *self, m);
                        }
                        assert forall|m: int| 0 <= m < lu - 1 implies #[trigger] self.level_ok(m) by {
                            assert(before.level_ok(m));
                            Self::lemma_level_ok_frame(before, *self, m);
                        }
                        assert forall|k: int| 0 <= k < sp.len() && (k < lo || k >= hi || k * 8 + 8 > child_len || k < i + 1) implies #[trigger] self.entry_ok(lu as int, k) by {
                            if k != i {
                                assert(before.entry_ok(lu as int, k));
                                Self::lemma_entry_frame(before, *self, lu as int, k);
                            }
                        }
                        if lu > 0 {
                            assert forall|k: int| 0 <= k < self.level(lu - 1).len() && (k * 8 + 8 > sp.len() || self.level(lu as int).subrange(k * 8, k * 8 + 8) == sp.subrange(k * 8, k * 8 + 8)) implies #[trigger] self.entry_ok(lu - 1, k) by {
                                if k * 8 + 8 > sp.len() {
                                    assert(before.entry_ok(lu - 1, k));
                                    Self::lemma_entry_frame(before, *self, lu - 1, k);
                                } else {
                                    assert(k * 8 <= i < k * 8 + 8 || before.level(lu as int).subrange(k * 8, k * 8 + 8) == sp.subrange(k * 8, k * 8 + 8)) by {
                                        if !(k * 8 <= i < k * 8 + 8) {
                                            assert(before.level(lu as int).subrange(k * 8, k * 8 + 8) =~= self.level(lu as int).subrange(k * 8, k * 8 + 8));
                                        }
                                    }
                                    if !(k * 8 <= i < k * 8 + 8) {
                                        assert(before.entry_ok(lu - 1, k));
                                        Self::lemma_entry_frame(before, *self, lu - 1, k);
                                    } else {
                                        let j = i - k * 8;
                                        assert(self.level(lu as int).subrange(k * 8, k * 8 + 8)[j] == merged);
                                        assert(sp.subrange(k * 8, k * 8 + 8)[j] == sp[i as int]);
                                        assert(sp[i as int] == cur);
                                    }
                                }
                            }
                        }
                    }
                } else {
                    proof {
                        assert(cur@ == merged@);
                    }
                }
                i += 1;
            }
            proof {
                assert(self.level_ok(lu as int));
                if changed && lu > 0 {
                    lemma_level_index_parent((lu - 1) as int, off);
                    lemma_level_index_parent((lu - 1) as int, offl);
                    assert forall|k: int| 0 <= k < self.level(lu - 1).len() && (k < level_index(lu - 1, off) || k > level_index(lu - 1, offl) || k * 8 + 8 > self.level(lu as int).len()) implies #[trigger] self.entry_ok(lu - 1, k) by {
                        if k * 8 + 8 <= sp.len() {
                            assert(k * 8 + 8 <= lo || k * 8 >= hi);
                            assert(self.level(lu as int).subrange(k * 8, k * 8 + 8) =~= sp.subrange(k * 8, k * 8 + 8));
                        }
                    }
                }
                if !changed && lu > 0 {
                    assert forall|k: int| 0 <= k < self.level(lu - 1).len() implies #[trigger] self.entry_ok(lu - 1, k) by {
                        if k * 8 + 8 <= sp.len() {
                            assert(self.level(lu as int).subrange(k * 8, k * 8 + 8) =~= sp.subrange(k * 8, k * 8 + 8));
                        }
                    }
                    assert(self.level_ok(lu - 1));
                }
            }
            l = lu;
        }
        proof {
            assert(forall|m: int| 0 <= m < 5 ==> #[trigger] self.level_ok(m));
            assert(self.pages() =~= old(self).pages());
        }
    }
}


/// Splitting an arena offset `q * PAGE_SIZE + r` into chunk and page.
proof fn lemma_page_split(q: int, r: int)
    requires
        q >= 0,
        0 <= r < 8192,
    ensures
        (q * 8192 + r) / 4194304 == q / 512,
        ((q * 8192 + r) % 4194304) / 8192 == q % 512,
        (q * 8192 + r) / 8192 == q,
{
    let x = q * 8192 + r;
    vstd::arithmetic::div_mod::lemma_fundamental_div_mod_converse(x, 8192, q, r);
    vstd::arithmetic::div_mod::lemma_div_denominator(x, 8192, 512);
    vstd::arithmetic::div_mod::lemma_mod_breakdown(x, 8192, 512);
    let m = q % 512;
    assert(x % 4194304 == 8192 * m + r);
    vstd::arithmetic::div_mod::lemma_fundamental_div_mod_converse(8192 * m + r, 8192, m, r);
}

impl PageAlloc {
    /// Set (`val`) or clear pages `[i, i + n)` of chunk `ci`.
    fn set_chunk(&mut self, ci: usize, i: usize, n: usize, val: bool)
        requires
            ci < old(self).end_chunk,
            old(self).shape_ok(),
            1 <= n,
            i + n <= 512,
        ensures
            final(self).pages() == range_set(old(self).pages(), ci * 512 + i, n as int, val),
            forall|m: int| 0 <= m < 5 ==> #[trigger] final(self).level(m) == old(self).level(m),
            final(self).chunks@.len() == old(self).chunks@.len(),
            forall|c: int| 0 <= c < final(self).chunks@.len() && c != ci ==> #[trigger] final(self).chunks@[c] == old(self).chunks@[c],
            final(self).chunks_capacity == old(self).chunks_capacity,
            final(self).arena_base == old(self).arena_base,
            final(self).start_chunk == old(self).start_chunk,
            final(self).end_chunk == old(self).end_chunk,
            final(self).shape_ok(),
    {
        let mut c = self.chunks[ci];
        if val {
            c.alloc_range(i, n);
        } else {
            c.free(i, n);
        }
        self.chunks.set(ci, c);
        proof {
            assert(forall|m: int| 0 <= m < 5 ==> #[trigger] self.level(m) == old(self).level(m));
            assert(self.chunks@.len() == old(self).chunks@.len());
            assert(old(self).shape_ok());
            assert forall|l: int| 1 <= l < 5 implies {
                &&& #[trigger] self.level(l).len() % 8 == 0
                &&& self.level(l).len() >= 8
                &&& self.level(l).len() * lp(l) >= self.chunks_capacity * 512
                &&& self.level(l).len() * lp(l) <= self.chunks_capacity * 512 + 8 * lp(l)
            } by {
                assert(self.level(l) == old(self).level(l));
            }
            assert(self.shape_ok());
            assert(self.pages() =~= range_set(old(self).pages(), ci * 512 + i, n as int, val)) by {
                assert forall|p: int| 0 <= p < self.end_chunk * 512 implies #[trigger] self.pages()[p]
                    == range_set(old(self).pages(), ci * 512 + i, n as int, val)[p] by {
                    if p / 512 == ci {
                        assert(ci * 512 + i <= p < ci * 512 + i + n <==> i <= p % 512 < i + n);
                    } else {
                        assert(!(ci * 512 + i <= p < ci * 512 + i + n));
                    }
                }
            }
        }
    }

    /// Set (`val`) or clear the pages of `[base, base + npages * PAGE_SIZE)`
    /// in the chunk bitmaps, without touching the summaries.
    fn mark(&mut self, base: usize, npages: usize, val: bool)
        requires
            old(self).shape_ok(),
            npages >= 1,
            old(self).arena() <= base,
            (base - old(self).arena()) % (PAGE_SIZE as int) == 0,
            base + npages * PAGE_SIZE <= old(self).arena() + old(self).end() * PALLOC_CHUNK_BYTES,
        ensures
            final(self).pages() == range_set(old(self).pages(), (base - old(self).arena()) / (PAGE_SIZE as int), npages as int, val),
            forall|m: int| 0 <= m < 5 ==> #[trigger] final(self).level(m) == old(self).level(m),
            final(self).chunks@.len() == old(self).chunks@.len(),
            forall|c: int| 0 <= c < final(self).chunks@.len() && c >= final(self).end_chunk ==> #[trigger] final(self).chunks@[c] == old(self).chunks@[c],
            final(self).chunks_capacity == old(self).chunks_capacity,
            final(self).arena_base == old(self).arena_base,
            final(self).start_chunk == old(self).start_chunk,
            final(self).end_chunk == old(self).end_chunk,
            final(self).shape_ok(),
    {
        let ghost p0 = (base - self.arena_base) / (PAGE_SIZE as int);
        let ghost old_pages = self.pages();
        let limit = base + npages * PAGE_SIZE - 1;
        let sc = self.chunk_index(base);
        let ec = self.chunk_index(limit);
        let si = self.chunk_page_index(base);
        let ei = self.chunk_page_index(limit);
        proof {
            let off = base - self.arena_base;
            assert(off == p0 * 8192);
            lemma_page_split(p0, 0);
            lemma_page_split(p0 + npages - 1, 8191);
            assert(limit - self.arena_base == (p0 + npages - 1) * 8192 + 8191);
            assert(base % 4194304 == off % 4194304) by {
                vstd::arithmetic::div_mod::lemma_mod_add_multiples_vanish(off, 4194304);
                assert(self.arena_base % 4194304 == 0);
                vstd::arithmetic::div_mod::lemma_add_mod_noop(self.arena_base as int, off, 4194304);
            }
            assert(limit % 4194304 == (limit - self.arena_base) % 4194304) by {
                vstd::arithmetic::div_mod::lemma_add_mod_noop(self.arena_base as int, (limit - self.arena_base) as int, 4194304);
            }
            assert(p0 + npages <= self.end_chunk * 512) by (nonlinear_arith)
                requires
                    base + npages * 8192 <= self.arena_base + self.end_chunk * 4194304,
                    base - self.arena_base == p0 * 8192,
            ;
            assert(sc == p0 / 512 && si == p0 % 512);
            assert(ec == (p0 + npages - 1) / 512 && ei == (p0 + npages - 1) % 512);
        }
        if sc == ec {
            self.set_chunk(sc, si, ei + 1 - si, val);
            proof {
                assert(sc * 512 + si == p0);
            }
            return;
        }
        self.set_chunk(sc, si, PALLOC_CHUNK_PAGES - si, val);
        let mut c = sc + 1;
        while c < ec
            invariant
                sc < c <= ec,
                ec < self.end_chunk,
                sc * 512 + si == p0,
                si < 512,
                p0 + npages == ec * 512 + ei + 1,
                ei < 512,
                self.shape_ok(),
                self.pages() == range_set(old_pages, p0, c * 512 - p0, val),
                old_pages == old(self).pages(),
                forall|m: int| 0 <= m < 5 ==> #[trigger] self.level(m) == old(self).level(m),
                self.chunks@.len() == old(self).chunks@.len(),
                forall|k: int| 0 <= k < self.chunks@.len() && k >= self.end_chunk ==> #[trigger] self.chunks@[k] == old(self).chunks@[k],
                self.chunks_capacity == old(self).chunks_capacity,
                self.arena_base == old(self).arena_base,
                self.start_chunk == old(self).start_chunk,
                self.end_chunk == old(self).end_chunk,
            decreases ec - c,
        {
            let ghost pre = self.pages();
            self.set_chunk(c, 0, PALLOC_CHUNK_PAGES, val);
            proof {
                assert forall|p: int| 0 <= p < self.end_chunk * 512 implies #[trigger] self.pages()[p] == range_set(old_pages, p0, (c + 1) * 512 - p0, val)[p] by {
                    assert(self.pages() == range_set(pre, c * 512 + 0, 512, val));
                    assert(self.pages()[p] == range_set(pre, c * 512 + 0, 512, val)[p]);
                    assert(pre[p] == range_set(old_pages, p0, c * 512 - p0, val)[p]);
                    assert(pre.len() == old_pages.len());
                }
                assert(self.pages() =~= range_set(old_pages, p0, (c + 1) * 512 - p0, val));
            }
            c += 1;
        }
        let ghost pre = self.pages();
        self.set_chunk(ec, 0, ei + 1, val);
        proof {
            assert forall|p: int| 0 <= p < self.end_chunk * 512 implies #[trigger] self.pages()[p] == range_set(old_pages, p0, npages as int, val)[p] by {
                assert(self.pages()[p] == range_set(pre, ec * 512 + 0, ei + 1, val)[p]);
                assert(pre[p] == range_set(old_pages, p0, ec * 512 - p0, val)[p]);
                assert(pre.len() == old_pages.len());
            }
            assert(self.pages() =~= range_set(old_pages, p0, npages as int, val));
        }
    }

    /// After a bitmap change over `[p0, p0 + n)`, only the leaves of the
    /// touched chunks can be stale.
    proof fn lemma_marked_stale(a: Self, b: Self, p0: int, n: int, val: bool)
        requires
            a.wf(),
            b.shape_ok(),
            n >= 1,
            0 <= p0,
            p0 + n <= a.end_chunk * 512,
            b.pages() == range_set(a.pages(), p0, n, val),
            forall|m: int| 0 <= m < 5 ==> #[trigger] b.level(m) == a.level(m),
            b.end_chunk == a.end_chunk,
            b.chunks@.len() == a.chunks@.len(),
            forall|c: int| 0 <= c < b.chunks@.len() && c >= b.end_chunk ==> #[trigger] b.chunks@[c] == a.chunks@[c],
        ensures
            b.leaves_stale_only(p0 / 512, (p0 + n - 1) / 512),
    {
        assert forall|l: int| 0 <= l < 4 implies #[trigger] b.level_ok(l) by {
            assert(a.level_ok(l));
            Self::lemma_level_ok_frame(a, b, l);
        }
        assert(b.inactive_free()) by {
            assert forall|c: int| b.end_chunk <= c < b.chunks@.len() implies #[trigger] b.chunks@[c]@ == Seq::new(512, |i: int| false) by {
                assert(b.chunks@[c] == a.chunks@[c]);
            }
        }
        assert forall|ci: int| 0 <= ci < b.level(4).len() && (ci < p0 / 512 || ci > (p0 + n - 1) / 512) implies #[trigger] b.entry_ok(4, ci) by {
            assert(a.level_ok(4));
            assert(a.entry_ok(4, ci));
            if ci < b.end_chunk {
                assert(b.chunks@[ci]@ =~= a.chunks@[ci]@) by {
                    assert forall|k: int| 0 <= k < 512 implies b.chunks@[ci]@[k] == a.chunks@[ci]@[k] by {
                        let p = ci * 512 + k;
                        assert(p / 512 == ci && p % 512 == k);
                        assert(b.pages()[p] == b.chunks@[ci]@[k]);
                        assert(a.pages()[p] == a.chunks@[ci]@[k]);
                        assert(!(p0 <= p < p0 + n));
                    }
                }
            }
        }
    }

    /// `(*pageAlloc).allocRange` — mark `npages` pages from `base` allocated
    /// and refresh the summaries.
    pub fn alloc_range(&mut self, base: usize, npages: usize)
        requires
            old(self).wf(),
            npages >= 1,
            old(self).arena() <= base,
            (base - old(self).arena()) % (PAGE_SIZE as int) == 0,
            base + npages * PAGE_SIZE <= old(self).arena() + old(self).end() * PALLOC_CHUNK_BYTES,
        ensures
            final(self).wf(),
            final(self).pages() == range_set(old(self).pages(), (base - old(self).arena()) / (PAGE_SIZE as int), npages as int, true),
            final(self).capacity() == old(self).capacity(),
            final(self).arena() == old(self).arena(),
            final(self).end() == old(self).end(),
            final(self).start() == old(self).start(),
    {
        let ghost a = *self;
        self.mark(base, npages, true);
        proof {
            let p0 = (base - a.arena_base) / (PAGE_SIZE as int);
            Self::lemma_marked_stale(a, *self, p0, npages as int, true);
            lemma_page_split(p0, 0);
            lemma_page_split(p0 + npages - 1, 8191);
            assert(base - a.arena_base == p0 * 8192);
            assert(base + npages * 8192 - 1 - a.arena_base == (p0 + npages - 1) * 8192 + 8191);
        }
        self.update(base, npages);
    }

    /// `(*pageAlloc).free` — return `npages` pages from `base` to the heap.
    pub fn free(&mut self, base: usize, npages: usize)
        requires
            old(self).wf(),
            npages >= 1,
            old(self).arena() <= base,
            (base - old(self).arena()) % (PAGE_SIZE as int) == 0,
            base + npages * PAGE_SIZE <= old(self).arena() + old(self).end() * PALLOC_CHUNK_BYTES,
        ensures
            final(self).wf(),
            final(self).pages() == range_set(old(self).pages(), (base - old(self).arena()) / (PAGE_SIZE as int), npages as int, false),
            final(self).capacity() == old(self).capacity(),
            final(self).arena() == old(self).arena(),
            final(self).end() == old(self).end(),
            final(self).start() == old(self).start(),
    {
        let ghost a = *self;
        let ghost p0 = (base - a.arena_base) / (PAGE_SIZE as int);
        proof {
            lemma_page_split(p0, 0);
            lemma_page_split(p0 + npages - 1, 8191);
            assert(base - a.arena_base == p0 * 8192);
            assert(base + npages * 8192 - 1 - a.arena_base == (p0 + npages - 1) * 8192 + 8191);
        }
        if npages == 1 {
            let i = self.chunk_index(base);
            let pi = self.chunk_page_index(base);
            proof {
                assert(base % 4194304 == (base - a.arena_base) % 4194304) by {
                    vstd::arithmetic::div_mod::lemma_add_mod_noop(a.arena_base as int, (base - a.arena_base) as int, 4194304);
                }
                assert(i == p0 / 512 && pi == p0 % 512);
                assert(p0 + 1 <= a.end_chunk * 512) by (nonlinear_arith)
                    requires
                        base + 8192 <= a.arena_base + a.end_chunk * 4194304,
                        base - a.arena_base == p0 * 8192,
                ;
            }
            self.set_chunk(i, pi, 1, false);
        } else {
            self.mark(base, npages, false);
        }
        proof {
            assert(p0 + npages <= a.end_chunk * 512) by (nonlinear_arith)
                requires
                    base + npages * 8192 <= a.arena_base + a.end_chunk * 4194304,
                    base - a.arena_base == p0 * 8192,
            ;
            Self::lemma_marked_stale(a, *self, p0, npages as int, false);
        }
        self.update(base, npages);
    }
}


impl PageAlloc {
    /// `(*pageAlloc).grow` — activate `n_more` further chunks, all free.
    #[verifier::rlimit(40)]
    pub fn grow(&mut self, n_more: usize)
        requires
            old(self).wf(),
            old(self).end() + n_more <= old(self).capacity(),
        ensures
            final(self).wf(),
            final(self).pages() == old(self).pages() + Seq::new((n_more * 512) as nat, |i: int| false),
            final(self).end() == old(self).end() + n_more,
            final(self).capacity() == old(self).capacity(),
            final(self).arena() == old(self).arena(),
            final(self).start() == old(self).start(),
            count_alloc(final(self).pages()) == count_alloc(old(self).pages()),
    {
        if n_more == 0 {
            assert(self.pages() =~= old(self).pages() + Seq::new((n_more * 512) as nat, |i: int| false));
            proof {
                lemma_count_falses(old(self).pages(), 0);
            }
            return;
        }
        let old_count = self.end_chunk;
        let new_count = old_count + n_more;
        self.end_chunk = new_count;
        let ghost s4 = self.level(4);
        proof {
            lemma_lp(4);
            old(self).lemma_shape_facts(4);
            assert(s4.len() >= self.chunks_capacity) by (nonlinear_arith)
                requires
                    s4.len() * 512 >= self.chunks_capacity * 512,
            ;
            assert forall|l: int| 1 <= l < 5 implies {
                &&& #[trigger] self.level(l).len() % 8 == 0
                &&& self.level(l).len() >= 8
                &&& self.level(l).len() * lp(l) >= self.chunks_capacity * 512
                &&& self.level(l).len() * lp(l) <= self.chunks_capacity * 512 + 8 * lp(l)
            } by {
                old(self).lemma_shape_facts(l);
            }
            assert(self.shape_ok());
            assert(old(self).level_ok(4));
            assert forall|k: int| 0 <= k < s4.len() && (k < old_count || k >= new_count) implies #[trigger] self.entry_ok(4, k) by {
                assert(old(self).entry_ok(4, k));
            }
            assert forall|l: int| 0 <= l < 4 implies #[trigger] self.level_ok(l) by {
                assert(old(self).level_ok(l));
                assert forall|k: int| 0 <= k < self.level(l).len() implies #[trigger] self.entry_ok(l, k) by {
                    assert(old(self).entry_ok(l, k));
                }
            }
        }
        // Leaf summaries of the new chunks.
        let mut ci = old_count;
        while ci < new_count
            invariant
                old_count <= ci <= new_count,
                new_count == self.end_chunk,
                new_count <= s4.len(),
                self.shape_ok(),
                self.chunks == old(self).chunks,
                self.chunks_capacity == old(self).chunks_capacity,
                self.arena_base == old(self).arena_base,
                self.start_chunk == old(self).start_chunk,
                old_count == old(self).end_chunk,
                s4 == old(self).level(4),
                forall|l: int| 0 <= l < 3 ==> #[trigger] self.level(l) == old(self).level(l),
                forall|l: int| 0 <= l < 3 ==> #[trigger] self.level_ok(l),
                self.level(3) == old(self).level(3),
                self.level(4).len() == s4.len(),
                forall|k: int| 0 <= k < s4.len() && (k < old_count || k >= ci) ==> #[trigger] self.level(4)[k] == s4[k],
                forall|k: int| 0 <= k < s4.len() && (k < old_count || k >= new_count || k < ci) ==> #[trigger] self.entry_ok(4, k),
            decreases new_count - ci,
        {
            let leaf = self.chunks[ci].summarize();
            let ghost before = *self;
            self.set_sum(4, ci, leaf);
            proof {
                assert forall|l: int| 0 <= l < 3 implies #[trigger] self.level_ok(l) by {
                    assert(before.level_ok(l));
                    Self::lemma_level_ok_frame(before, *self, l);
                }
                assert forall|k: int| 0 <= k < s4.len() && (k < old_count || k >= new_count || k < ci + 1) implies #[trigger] self.entry_ok(4, k) by {
                    if k != ci {
                        assert(before.entry_ok(4, k));
                    }
                }
            }
            ci += 1;
        }
        proof {
            assert forall|k: int| 0 <= k < s4.len() implies #[trigger] self.entry_ok(4, k) by {
                if old_count <= k < new_count {
                } else {
                    assert(old(self).entry_ok(4, k));
                }
            }
            assert(self.level_ok(4));
            assert forall|k: int| 0 <= k < self.level(3).len() && !(k * 8 + 8 > old_count && k * 8 < new_count && k * 8 + 8 <= self.level(4).len()) implies #[trigger] self.entry_ok(3, k) by {
                assert(old(self).level_ok(3));
                assert(old(self).entry_ok(3, k));
                if k * 8 + 8 <= self.level(4).len() {
                    assert(self.level(4).subrange(k * 8, k * 8 + 8) =~= old(self).level(4).subrange(k * 8, k * 8 + 8));
                }
                Self::lemma_entry_frame(*old(self), *self, 3, k);
            }
        }
        // Bubble up over the new chunk range only.
        let mut lo_chunk = old_count;
        let mut hi_chunk = new_count;
        let mut l: usize = SUMMARY_LEVELS - 1;
        while l > 0
            invariant
                l <= 4,
                lo_chunk < hi_chunk,
                hi_chunk <= 0x400_0000,
                self.shape_ok(),
                self.chunks == old(self).chunks,
                self.chunks_capacity == old(self).chunks_capacity,
                self.arena_base == old(self).arena_base,
                self.start_chunk == old(self).start_chunk,
                self.end_chunk == new_count,
                forall|m: int| l <= m < 5 ==> #[trigger] self.level_ok(m),
                l > 0 ==> forall|m: int| 0 <= m < l - 1 ==> #[trigger] self.level_ok(m),
                l > 0 ==> forall|k: int|
                    0 <= k < self.level(l - 1).len() && !(k * 8 + 8 > lo_chunk && k * 8 < hi_chunk && k * 8 + 8 <= self.level(l as int).len()) ==> #[trigger] self.entry_ok(l - 1, k),
            decreases l,
        {
            let lu = l - 1;
            let ghost sp = self.level(lu as int);
            let parent_lo = lo_chunk >> 3usize;
            proof {
                self.lemma_level_len_bound(l as int);
            }
            let h7 = hi_chunk + 7;
            let parent_hi = h7 >> 3usize;
            let child_len = self.level_slice(l).len();
            let parent_len = self.level_slice(lu).len();
            proof {
                self.lemma_level_len_bound(lu as int);
                self.lemma_level_len_bound(l as int);
                assert(lo_chunk >> 3usize == lo_chunk / 8) by (bit_vector);
                assert(h7 >> 3usize == h7 / 8) by (bit_vector);
                if lu > 0 {
                    assert(self.level_ok(lu - 1));
                }
            }
            let mut i = parent_lo;
            while i < parent_hi
                invariant
                    lu + 1 == l,
                    l <= 4,
                    parent_lo <= i <= parent_hi,
                    parent_lo == lo_chunk / 8,
                    parent_hi == (hi_chunk + 7) / 8,
                    parent_hi <= 0x800_0000,
                    child_len == self.level(l as int).len(),
                    parent_len == self.level(lu as int).len(),
                    self.shape_ok(),
                    self.chunks == old(self).chunks,
                    self.chunks_capacity == old(self).chunks_capacity,
                    self.arena_base == old(self).arena_base,
                    self.start_chunk == old(self).start_chunk,
                    self.end_chunk == new_count,
                    self.level(lu as int).len() == sp.len(),
                    forall|k: int| 0 <= k < sp.len() && (k < parent_lo || k >= i) ==> #[trigger] self.level(lu as int)[k] == sp[k],
                    forall|m: int| l <= m < 5 ==> #[trigger] self.level_ok(m),
                    forall|m: int| 0 <= m < lu - 1 ==> #[trigger] self.level_ok(m),
                    forall|k: int|
                        0 <= k < sp.len() && (!(k * 8 + 8 > lo_chunk && k * 8 < hi_chunk && k * 8 + 8 <= child_len) || (parent_lo <= k < i)) ==> #[trigger] self.entry_ok(lu as int, k),
                    lu > 0 ==> forall|k: int|
                        0 <= k < self.level(lu - 1).len() && (k * 8 + 8 > sp.len() || self.level(lu as int).subrange(k * 8, k * 8 + 8) == sp.subrange(k * 8, k * 8 + 8)) ==> #[trigger] self.entry_ok(lu - 1, k),
                decreases parent_hi - i,
            {
                let child_lo = i * 8;
                let child_hi = child_lo + 8;
                if child_hi > child_len {
                    i += 1;
                    continue;
                }
                let merged = self.merge_children(lu, i);
                if i < parent_len {
                    let ghost before = *self;
                    self.set_sum(lu, i, merged);
                    proof {
                        assert forall|m: int| l <= m < 5 implies #[trigger] self.level_ok(m) by {
                            assert(before.level_ok(m));
                            Self::lemma_level_ok_frame(before, *self, m);
                        }
                        assert forall|m: int| 0 <= m < lu - 1 implies #[trigger] self.level_ok(m) by {
                            assert(before.level_ok(m));
                            Self::lemma_level_ok_frame(before, *self, m);
                        }
                        assert forall|k: int| 0 <= k < sp.len() && (!(k * 8 + 8 > lo_chunk && k * 8 < hi_chunk && k * 8 + 8 <= child_len) || (parent_lo <= k < i + 1)) implies #[trigger] self.entry_ok(lu as int, k) by {
                            if k != i {
                                assert(before.entry_ok(lu as int, k));
                                Self::lemma_entry_frame(before, *self, lu as int, k);
                            }
                        }
                        if lu > 0 {
                            assert forall|k: int| 0 <= k < self.level(lu - 1).len() && (k * 8 + 8 > sp.len() || self.level(lu as int).subrange(k * 8, k * 8 + 8) == sp.subrange(k * 8, k * 8 + 8)) implies #[trigger] self.entry_ok(lu - 1, k) by {
                                if k * 8 + 8 > sp.len() {
                                    assert(before.entry_ok(lu - 1, k));
                                    Self::lemma_entry_frame(before, *self, lu - 1, k);
                                } else if !(k * 8 <= i < k * 8 + 8) {
                                    assert(before.level(lu as int).subrange(k * 8, k * 8 + 8) =~= self.level(lu as int).subrange(k * 8, k * 8 + 8));
                                    assert(before.entry_ok(lu - 1, k));
                                    Self::lemma_entry_frame(before, *self, lu - 1, k);
                                } else {
                                    let j = i - k * 8;
                                    assert(self.level(lu as int).subrange(k * 8, k * 8 + 8)[j] == merged);
                                    assert(sp.subrange(k * 8, k * 8 + 8)[j] == sp[i as int]);
                                    assert(before.level(lu as int)[i as int] == sp[i as int]);
                                    assert(before.level(lu as int).subrange(k * 8, k * 8 + 8) =~= sp.subrange(k * 8, k * 8 + 8));
                                    assert(self.level(lu as int).subrange(k * 8, k * 8 + 8) == sp.subrange(k * 8, k * 8 + 8));
                                    assert(merged == sp[i as int]);
                                    assert(self.level(lu as int) =~= before.level(lu as int));
                                    assert(before.entry_ok(lu - 1, k));
                                    Self::lemma_entry_frame(before, *self, lu - 1, k);
                                }
                            }
                        }
                    }
                }
                i += 1;
            }
            proof {
                assert forall|k: int| 0 <= k < self.level(lu as int).len() implies #[trigger] self.entry_ok(lu as int, k) by {
                    if k * 8 + 8 > lo_chunk && k * 8 < hi_chunk && k * 8 + 8 <= child_len {
                        assert(parent_lo <= k < parent_hi);
                    }
                }
                assert(self.level_ok(lu as int));
                if lu > 0 {
                    assert forall|k: int| 0 <= k < self.level(lu - 1).len() && !(k * 8 + 8 > parent_lo && k * 8 < parent_hi && k * 8 + 8 <= self.level(lu as int).len()) implies #[trigger] self.entry_ok(lu - 1, k) by {
                        if k * 8 + 8 <= sp.len() {
                            assert(k * 8 + 8 <= parent_lo || k * 8 >= parent_hi);
                            assert(self.level(lu as int).subrange(k * 8, k * 8 + 8) =~= sp.subrange(k * 8, k * 8 + 8));
                        }
                    }
                }
                assert(parent_lo < parent_hi);
            }
            lo_chunk = parent_lo;
            hi_chunk = parent_hi;
            l = lu;
        }
        proof {
            assert forall|c: int| self.end_chunk <= c < self.chunks@.len() implies #[trigger] self.chunks@[c]@ == Seq::new(512, |i: int| false) by {
                assert(old(self).inactive_free());
            }
            assert(self.pages() =~= old(self).pages() + Seq::new((n_more * 512) as nat, |i: int| false)) by {
                assert forall|p: int| 0 <= p < self.end_chunk * 512 implies #[trigger] self.pages()[p] == (old(self).pages() + Seq::new((n_more * 512) as nat, |i: int| false))[p] by {
                    if p >= old_count * 512 {
                        assert(old(self).inactive_free());
                        assert(old(self).chunks@[p / 512]@ == Seq::new(512, |i: int| false));
                    }
                }
            }
        }
        proof {
            lemma_count_falses(old(self).pages(), (n_more * 512) as nat);
        }
    }
}


/// What scanning one block of a summary level found.
enum LevelScan {
    /// The first run of free pages starts at this page.
    Found(usize),
    /// The first run lies inside the region of this summary.
    Descend(usize),
    /// No run lies inside the block.
    NotFound,
}

/// `r` is the address of the first run of `n` free pages in `pages`,
/// page `p` standing at `arena + p * PAGE_SIZE`, or `ALLOC_FAILED` when
/// there is none.
pub open spec fn first_fit_in(pages: Seq<bool>, arena: int, n: int, r: usize) -> bool {
    if r == ALLOC_FAILED {
        forall|p: int| !#[trigger] free_run_at(pages, p, n)
    } else {
        exists|f: int|
            #![trigger free_run_at(pages, f, n)]
            r == arena + f * PAGE_SIZE && free_run_at(pages, f, n) && forall|p: int|
                p < f ==> !#[trigger] free_run_at(pages, p, n)
    }
}

impl PageAlloc {
    /// `npages` free pages start at page `p`.
    pub closed spec fn fit(self, p: int, n: int) -> bool {
        free_run_at(self.pages(), p, n)
    }

    /// `r` is the address of the first run of `n` free pages, or
    /// `ALLOC_FAILED` when there is none.
    pub closed spec fn is_first_fit_addr(self, n: int, r: usize) -> bool {
        if r == ALLOC_FAILED {
            forall|p: int| !#[trigger] self.fit(p, n)
        } else {
            exists|f: int|
                #![trigger self.fit(f, n)]
                r == self.arena() + f * PAGE_SIZE && self.fit(f, n) && forall|p: int|
                    p < f ==> !#[trigger] self.fit(p, n)
        }
    }

    /// `is_first_fit_addr` said over the page bitmap and the arena base.
    pub proof fn lemma_first_fit_in(self, n: int, r: usize)
        ensures
            self.is_first_fit_addr(n, r) == first_fit_in(self.pages(), self.arena(), n, r),
    {
        let pg = self.pages();
        assert forall|p: int| #[trigger] self.fit(p, n) == free_run_at(pg, p, n) by {}
        if r == ALLOC_FAILED {
            if forall|p: int| !#[trigger] self.fit(p, n) {
                assert forall|p: int| !#[trigger] free_run_at(pg, p, n) by {
                    assert(!self.fit(p, n));
                }
            }
            if forall|p: int| !#[trigger] free_run_at(pg, p, n) {
                assert forall|p: int| !#[trigger] self.fit(p, n) by {
                    assert(!free_run_at(pg, p, n));
                }
            }
        } else {
            if self.is_first_fit_addr(n, r) {
                let f = choose|f: int|
                    #![trigger self.fit(f, n)]
                    r == self.arena() + f * PAGE_SIZE && self.fit(f, n) && forall|p: int|
                        p < f ==> !#[trigger] self.fit(p, n);
                assert(free_run_at(pg, f, n));
                assert forall|p: int| p < f implies !#[trigger] free_run_at(pg, p, n) by {
                    assert(!self.fit(p, n));
                }
            }
            if first_fit_in(pg, self.arena(), n, r) {
                let f = choose|f: int|
                    #![trigger free_run_at(pg, f, n)]
                    r == self.arena() + f * PAGE_SIZE && free_run_at(pg, f, n) && forall|p: int|
                        p < f ==> !#[trigger] free_run_at(pg, p, n);
                assert(self.fit(f, n));
                assert forall|p: int| p < f implies !#[trigger] self.fit(p, n) by {
                    assert(!free_run_at(pg, p, n));
                }
            }
        }
    }

    /// The pages of entries `[i, j)` of level `l`.
    spec fn block_prefix(self, l: int, i: int, j: int) -> Seq<bool> {
        Seq::new(((j - i) * lp(l)) as nat, |k: int| self.vpage(i * lp(l) + k))
    }

    proof fn lemma_block_prefix_step(self, l: int, i: int, j: int)
        requires
            0 <= l < 5,
            0 <= i <= j,
        ensures
            self.block_prefix(l, i, j + 1) =~= self.block_prefix(l, i, j) + self.region(l, j),
            self.block_prefix(l, i, i) =~= Seq::<bool>::empty(),
    {
        lemma_lp(l);
        let b = lp(l);
        assert((j - i) * b + b == (j + 1 - i) * b) by (nonlinear_arith);
        assert forall|k: int| 0 <= k < (j + 1 - i) * b implies #[trigger] self.block_prefix(l, i, j + 1)[k]
            == (self.block_prefix(l, i, j) + self.region(l, j))[k] by {
            if k >= (j - i) * b {
                assert(j * b + (k - (j - i) * b) == i * b + k) by (nonlinear_arith);
            }
        }
        assert((i - i) * b == 0);
    }

    /// A run of free virtual pages is a fit.
    proof fn lemma_vpages_fit(self, p: int, n: int)
        requires
            n >= 1,
            p >= 0,
            forall|k: int| p <= k < p + n ==> !#[trigger] self.vpage(k),
        ensures
            self.fit(p, n),
    {
        assert(!self.vpage(p + n - 1));
        assert forall|k: int| p <= k < p + n implies !#[trigger] self.pages()[k] by {
            assert(!self.vpage(k));
        }
    }

    /// A fit is a run of free virtual pages.
    proof fn lemma_fit_vpages(self, p: int, n: int)
        requires
            self.fit(p, n),
        ensures
            forall|k: int| p <= k < p + n ==> !#[trigger] self.vpage(k),
            p >= 0,
            p + n <= self.end_chunk * 512,
    {
        assert forall|k: int| p <= k < p + n implies !#[trigger] self.vpage(k) by {
            assert(!self.pages()[k]);
        }
    }

    /// A summary with any free page covers some active page.
    proof fn lemma_nonzero_entry_active(self, l: int, j: int)
        requires
            self.wf(),
            0 <= l < 5,
            0 <= j < self.level(l).len(),
            self.level(l)[j]@ != (0int, 0int, 0int),
        ensures
            j * lp(l) < self.end_chunk * 512,
            self.level(l)[j]@.1 >= 1,
    {
        self.lemma_entry_region(l, j);
        let r = self.region(l, j);
        lemma_run_bounds(r);
        let q = lemma_max_witness(r);
        assert(!r[q]);
        assert(!self.vpage(j * lp(l) + q));
    }

    /// `max >= n` for a summary means a fit lies inside its region.
    proof fn lemma_max_gives_fit(self, l: int, j: int, n: int)
        requires
            self.wf(),
            0 <= l < 5,
            0 <= j < self.level(l).len(),
            n >= 1,
            self.level(l)[j]@.1 >= n,
        ensures
            exists|p: int| j * lp(l) <= p && p + n <= (j + 1) * lp(l) && #[trigger] self.fit(p, n),
    {
        self.lemma_entry_region(l, j);
        lemma_lp(l);
        let r = self.region(l, j);
        let q = lemma_max_witness(r);
        assert forall|k: int| j * lp(l) + q <= k < j * lp(l) + q + n implies !#[trigger] self.vpage(k) by {
            assert(!r[k - j * lp(l)]);
        }
        self.lemma_vpages_fit(j * lp(l) + q, n);
        assert((j + 1) * lp(l) == j * lp(l) + lp(l)) by (nonlinear_arith);
    }

    /// The scan of the block of level `l` that starts at summary `i` has
    /// reached summary `j`: `size` free pages run up to it, fewer than `n`,
    /// and no run of `n` free pages starts before them.
    spec fn scan_state(self, l: int, i: int, j: int, size: int, n: int) -> bool {
        &&& size == trail_free(self.block_prefix(l, i, j))
        &&& 0 <= size < n
        &&& size <= (j - i) * lp(l)
        &&& size > 0 ==> j * lp(l) <= self.end_chunk * 512
        &&& forall|p: int| p < j * lp(l) - size ==> !#[trigger] self.fit(p, n)
    }

    /// Free pages at the end of a block prefix are active pages.
    proof fn lemma_trail_active(self, l: int, i: int, j: int)
        requires
            0 <= l < 5,
            0 <= i <= j,
        ensures
            0 <= trail_free(self.block_prefix(l, i, j)) <= (j - i) * lp(l),
            forall|k: int|
                j * lp(l) - trail_free(self.block_prefix(l, i, j)) <= k < j * lp(l)
                    ==> !#[trigger] self.vpage(k),
            trail_free(self.block_prefix(l, i, j)) > 0 ==> j * lp(l) <= self.end_chunk * 512,
    {
        lemma_lp(l);
        let pre = self.block_prefix(l, i, j);
        lemma_trail_free_run(pre);
        assert(i * lp(l) + (j - i) * lp(l) == j * lp(l)) by (nonlinear_arith);
        assert forall|k: int|
            j * lp(l) - trail_free(pre) <= k < j * lp(l) implies !#[trigger] self.vpage(k) by {
            assert(pre[k - i * lp(l)] == self.vpage(k));
        }
        if trail_free(pre) > 0 {
            assert(!self.vpage(j * lp(l) - 1));
        }
    }

    /// The scan starts with nothing before the block.
    proof fn lemma_scan_start(self, l: int, i: int, n: int)
        requires
            0 <= l < 5,
            0 <= i,
            n >= 1,
            forall|p: int| p < i * lp(l) ==> !#[trigger] self.fit(p, n),
        ensures
            self.scan_state(l, i, i, 0, n),
    {
        self.lemma_block_prefix_step(l, i, i);
        lemma_run_bounds(Seq::<bool>::empty());
    }

    /// A summary without free pages ends every run.
    proof fn lemma_scan_empty(self, l: int, i: int, j: int, size: int, n: int)
        requires
            self.wf(),
            0 <= l < 5,
            0 <= i <= j < self.level(l).len(),
            n >= 1,
            self.scan_state(l, i, j, size, n),
            self.level(l)[j]@ == (0int, 0int, 0int),
        ensures
            self.scan_state(l, i, j + 1, 0, n),
    {
        lemma_lp(l);
        let b = lp(l);
        let pre = self.block_prefix(l, i, j);
        let reg = self.region(l, j);
        self.lemma_entry_region(l, j);
        self.lemma_block_prefix_step(l, i, j);
        lemma_run_summary_concat(pre, reg);
        lemma_run_bounds(reg);
        assert((j + 1 - i) * b == (j - i) * b + b) by (nonlinear_arith);
        assert forall|p: int| p < (j + 1) * b implies !#[trigger] self.fit(p, n) by {
            if p >= j * b - size && self.fit(p, n) {
                self.lemma_fit_vpages(p, n);
                let q = if p >= j * b { p } else { j * b };
                assert((j + 1) * b == j * b + b) by (nonlinear_arith);
                assert(p <= q < p + n);
                assert(!self.vpage(q));
                assert(reg[q - j * b] == self.vpage(q));
                lemma_all_alloc_means(reg, q - j * b);
            }
        }
    }

    /// A run that reaches into summary `j` far enough is the first fit.
    proof fn lemma_scan_found(self, l: int, i: int, j: int, size: int, n: int)
        requires
            self.wf(),
            0 <= l < 5,
            0 <= i <= j < self.level(l).len(),
            n >= 1,
            self.scan_state(l, i, j, size, n),
            size + self.level(l)[j]@.0 >= n,
        ensures
            self.fit(j * lp(l) - size, n),
            forall|p: int| p < j * lp(l) - size ==> !#[trigger] self.fit(p, n),
    {
        lemma_lp(l);
        let b = lp(l);
        let reg = self.region(l, j);
        self.lemma_entry_region(l, j);
        lemma_lead_free_run(reg);
        lemma_run_bounds(reg);
        self.lemma_trail_active(l, i, j);
        assert((j - i) * b <= j * b) by (nonlinear_arith)
            requires 0 <= i <= j, b >= 1;
        assert forall|k: int| j * b - size <= k < j * b - size + n implies !#[trigger] self.vpage(k) by {
            if k >= j * b {
                assert(k - j * b < lead_free(reg));
                assert(reg[k - j * b] == self.vpage(k));
            }
        }
        self.lemma_vpages_fit(j * b - size, n);
    }

    /// A summary whose longest run is long enough holds the first fit when
    /// the run reaching into it is too short.
    proof fn lemma_scan_descend(self, l: int, i: int, j: int, size: int, n: int)
        requires
            self.wf(),
            0 <= l < 5,
            0 <= i <= j < self.level(l).len(),
            n >= 1,
            self.scan_state(l, i, j, size, n),
            size + self.level(l)[j]@.0 < n,
            self.level(l)[j]@.1 >= n,
        ensures
            forall|p: int| p < j * lp(l) ==> !#[trigger] self.fit(p, n),
    {
        lemma_lp(l);
        let b = lp(l);
        let reg = self.region(l, j);
        let s = self.level(l)[j]@.0;
        self.lemma_entry_region(l, j);
        lemma_lead_free_run(reg);
        lemma_run_bounds(reg);
        assert(s < b);
        assert forall|p: int| p < j * b implies !#[trigger] self.fit(p, n) by {
            if p >= j * b - size && self.fit(p, n) {
                self.lemma_fit_vpages(p, n);
                let q = j * b + s;
                assert(p <= q < p + n);
                assert(reg[s] == self.vpage(q));
            }
        }
    }

    /// The run length the scan carries past summary `j`.
    spec fn next_size(self, l: int, j: int, size: int) -> int {
        let v = self.level(l)[j]@;
        if size == 0 || v.0 < lp(l) {
            v.2
        } else {
            size + lp(l)
        }
    }

    /// Past a summary that holds no fit, the scan goes on to the next.
    proof fn lemma_scan_next(self, l: int, i: int, j: int, size: int, n: int)
        requires
            self.wf(),
            0 <= l < 5,
            0 <= i <= j < self.level(l).len(),
            n >= 1,
            self.scan_state(l, i, j, size, n),
            size + self.level(l)[j]@.0 < n,
            self.level(l)[j]@.1 < n,
        ensures
            self.scan_state(l, i, j + 1, self.next_size(l, j, size), n),
    {
        lemma_lp(l);
        let b = lp(l);
        let pre = self.block_prefix(l, i, j);
        let reg = self.region(l, j);
        let s = self.level(l)[j]@.0;
        let ns = self.next_size(l, j, size);
        self.lemma_entry_region(l, j);
        self.lemma_block_prefix_step(l, i, j);
        lemma_run_summary_concat(pre, reg);
        lemma_run_bounds(reg);
        lemma_lead_free_run(reg);
        lemma_trail_free_run(reg);
        self.lemma_trail_active(l, i, j + 1);
        assert((j + 1 - i) * b == (j - i) * b + b) by (nonlinear_arith);
        assert(ns == trail_free(self.block_prefix(l, i, j + 1)));
        assert forall|p: int| p < (j + 1) * b - ns implies !#[trigger] self.fit(p, n) by {
            if p >= j * b - size && self.fit(p, n) {
                self.lemma_fit_vpages(p, n);
                assert((j + 1) * b == j * b + b) by (nonlinear_arith);
                if p < j * b {
                    let q = j * b + s;
                    assert(p <= q < p + n);
                    assert(reg[s] == self.vpage(q));
                } else {
                    let off = p - j * b;
                    if off + n <= b {
                        assert forall|k: int| off <= k < off + n implies !#[trigger] reg[k] by {
                            assert(reg[k] == self.vpage(j * b + k));
                        }
                        lemma_run_le_max(reg, off, n);
                    } else {
                        let t = trail_free(reg);
                        let q = j * b + b - 1 - t;
                        assert(p <= q < p + n);
                        assert(reg[b - 1 - t] == self.vpage(q));
                    }
                }
            }
        }
    }

    /// At the end of the block, every fit reaches past it.
    proof fn lemma_scan_end(self, l: int, i: int, j: int, size: int, n: int, epb: int)
        requires
            self.wf(),
            0 <= l < 5,
            0 <= i <= j,
            n >= 1,
            self.scan_state(l, i, j, size, n),
            j == i + epb || j == self.level(l).len(),
            j <= i + epb,
        ensures
            forall|p: int| #[trigger] self.fit(p, n) ==> p + n > (i + epb) * lp(l),
    {
        lemma_lp(l);
        let b = lp(l);
        assert forall|p: int| #[trigger] self.fit(p, n) implies p + n > (i + epb) * b by {
            self.lemma_fit_vpages(p, n);
            if j < i + epb {
                self.lemma_beyond_level(l, j);
                let q = j * b;
                assert(p <= q < p + n);
                assert(self.region(l, j)[0] == self.vpage(q));
            }
        }
    }

    /// Scan the block of level `l` that starts at summary `i` for a run of
    /// `npages` free pages, given that none starts before the block.
    fn scan_level(&self, l: usize, i: usize, npages: usize) -> (r: LevelScan)
        requires
            self.wf(),
            l < 5,
            npages >= 1,
            i < self.level(l as int).len(),
            l == 0 ==> i == 0,
            forall|p: int| p < i * lp(l as int) ==> !#[trigger] self.fit(p, npages as int),
        ensures
            match r {
                LevelScan::Found(pos) => self.fit(pos as int, npages as int) && forall|p: int|
                    p < pos ==> !#[trigger] self.fit(p, npages as int),
                LevelScan::Descend(j) => i <= j < self.level(l as int).len()
                    && self.level(l as int)[j as int]@.1 >= npages && forall|p: int|
                    p < j * lp(l as int) ==> !#[trigger] self.fit(p, npages as int),
                LevelScan::NotFound => forall|p: int|
                    #[trigger] self.fit(p, npages as int) ==> p + npages > (i + (if l == 0 {
                        L0_ENTRIES as int
                    } else {
                        8int
                    })) * lp(l as int),
            },
    {
        let ghost n = npages as int;
        let ghost b = lp(l as int);
        proof {
            lemma_lp(l as int);
            self.lemma_level_len_bound(l as int);
            assert(self.end_chunk * 512 * 8192 <= usize::MAX) by (nonlinear_arith)
                requires
                    self.arena_base + self.chunks_capacity * 4194304 <= usize::MAX,
                    self.end_chunk <= self.chunks_capacity,
            ;
        }
        let lb = level_bits(l);
        let entries_per_block: usize = 1usize << lb;
        let lmp = level_log_pages(l);
        let block_pages: usize = 1usize << lmp;
        proof {
            assert(entries_per_block == if l == 0 { L0_ENTRIES as int } else { 8int }) by {
                vstd::arithmetic::power2::lemma2_to64();
                vstd::bits::lemma_usize_shl_is_mul(1, lb as usize);
            }
            assert(block_pages == b) by {
                vstd::bits::lemma_usize_pow2_no_overflow(lmp as nat);
                vstd::bits::lemma_usize_shl_is_mul(1, lmp as usize);
            }
            self.lemma_scan_start(l as int, i as int, n);
        }
        let lvl = self.level_slice(l);
        let block_end = if i + entries_per_block < lvl.len() { i + entries_per_block } else { lvl.len() };
        let mut base: usize = 0;
        let mut size: usize = 0;
        let mut j = i;
        while j < block_end
            invariant
                self.wf(),
                l < 5,
                n == npages,
                npages >= 1,
                b == lp(l as int),
                1 <= b <= MAX_PACKED_VALUE,
                lvl@ == self.level(l as int),
                block_pages == b,
                i <= j <= block_end,
                block_end <= lvl@.len(),
                block_end == i + entries_per_block || block_end == lvl@.len(),
                block_end <= i + entries_per_block,
                self.end_chunk * 512 * 8192 <= usize::MAX,
                self.scan_state(l as int, i as int, j as int, size as int, n),
                size > 0 ==> base == (j - i) * b - size,
            decreases block_end - j,
        {
            let sum = lvl[j];
            proof {
                sum.lemma_bounds();
                self.lemma_entry_region(l as int, j as int);
                lemma_run_bounds(self.region(l as int, j as int));
            }
            if sum.raw() == 0 {
                proof {
                    self.lemma_scan_empty(l as int, i as int, j as int, size as int, n);
                }
                size = 0;
                j += 1;
                continue;
            }
            proof {
                self.lemma_nonzero_entry_active(l as int, j as int);
                assert((j - i) * b <= j * b) by (nonlinear_arith)
                    requires i <= j, b >= 1;
                assert((j - i + 1) * b <= j * b + b) by (nonlinear_arith)
                    requires i <= j, b >= 1;
                assert(i * b + (j - i) * b == j * b) by (nonlinear_arith);
            }
            let s = sum.start();
            if size + s >= npages {
                proof {
                    self.lemma_scan_found(l as int, i as int, j as int, size as int, n);
                }
                if size == 0 {
                    base = (j - i) * block_pages;
                }
                let pos = i * block_pages + base;
                return LevelScan::Found(pos);
            }
            if sum.max() >= npages {
                proof {
                    self.lemma_scan_descend(l as int, i as int, j as int, size as int, n);
                }
                return LevelScan::Descend(j);
            }
            proof {
                self.lemma_scan_next(l as int, i as int, j as int, size as int, n);
            }
            if size == 0 || s < block_pages {
                size = sum.end();
                base = (j - i + 1) * block_pages - size;
            } else {
                size += block_pages;
            }
            proof {
                assert((j - i + 1) * b == (j + 1 - i) * b);
            }
            j += 1;
        }
        proof {
            self.lemma_scan_end(l as int, i as int, j as int, size as int, n, entries_per_block as int);
        }
        LevelScan::NotFound
    }
}

impl PageAlloc {
    /// The pages of chunk `ci` as one leaf region.
    proof fn lemma_leaf_region(self, ci: int)
        requires
            0 <= ci < self.end_chunk,
            self.chunks@.len() >= self.end_chunk,
        ensures
            self.region(4, ci) =~= self.chunks@[ci]@,
            self.chunks@[ci]@.len() == 512 ==> forall|k: int|
                0 <= k < 512 ==> #[trigger] self.vpage(ci * 512 + k) == self.chunks@[ci]@[k],
    {
        assert forall|k: int| 0 <= k < 512 implies #[trigger] self.vpage(ci * 512 + k)
            == self.chunks@[ci]@[k] by {
            assert((ci * 512 + k) / 512 == ci);
            assert((ci * 512 + k) % 512 == k);
        }
        assert forall|k: int| 0 <= k < 512 implies self.region(4, ci)[k] == self.chunks@[ci]@[k] by {
            assert(self.vpage(ci * 512 + k) == self.chunks@[ci]@[k]);
        }
    }

    /// `(*pageAlloc).find` — descend the summary levels to the first run of
    /// `npages` free pages and return its address, or `ALLOC_FAILED` when
    /// there is none.
    pub fn find(&self, npages: usize) -> (r: usize)
        requires
            self.wf(),
            npages >= 1,
        ensures
            self.is_first_fit_addr(npages as int, r),
    {
        let ghost n = npages as int;
        proof {
            assert(self.end_chunk * 512 * 8192 <= usize::MAX) by (nonlinear_arith)
                requires
                    self.arena_base + self.chunks_capacity * 4194304 <= usize::MAX,
                    self.end_chunk <= self.chunks_capacity,
            ;
        }
        let mut i: usize = 0;
        let mut l: usize = 0;
        while l < SUMMARY_LEVELS
            invariant
                self.wf(),
                n == npages,
                npages >= 1,
                l <= 5,
                self.end_chunk * 512 * 8192 <= usize::MAX,
                l == 0 ==> i == 0,
                l > 0 ==> i < self.level(l - 1).len() && self.level(l - 1)[i as int]@.1 >= n
                    && forall|p: int| p < i * lp(l - 1) ==> !#[trigger] self.fit(p, n),
            decreases 5 - l,
        {
            let lb = level_bits(l);
            let ghost parent = i as int;
            proof {
                lemma_lp(l as int);
                if l > 0 {
                    lemma_lp(l - 1);
                    self.lemma_nonzero_entry_active(l - 1, i as int);
                    self.lemma_shape_facts(l as int);
                    self.lemma_level_len_bound(l - 1);
                    let len = self.level(l as int).len();
                    assert(i * 8 < len) by (nonlinear_arith)
                        requires
                            i * lp(l - 1) < self.end_chunk * 512,
                            self.end_chunk <= self.chunks_capacity,
                            len * lp(l as int) >= self.chunks_capacity * 512,
                            lp(l - 1) == 8 * lp(l as int),
                            lp(l as int) >= 1,
                    ;
                    assert(i * 8 * lp(l as int) == i * lp(l - 1)) by (nonlinear_arith)
                        requires lp(l - 1) == 8 * lp(l as int);
                }
                vstd::arithmetic::power2::lemma2_to64();
                vstd::bits::lemma_usize_shl_is_mul(i, lb as usize);
            }
            i <<= lb;
            match self.scan_level(l, i, npages) {
                LevelScan::Found(pos) => {
                    proof {
                        self.lemma_fit_vpages(pos as int, n);
                        assert(pos * 8192 <= self.chunks_capacity * 4194304) by (nonlinear_arith)
                            requires
                                pos + n <= self.end_chunk * 512,
                                n >= 1,
                                self.end_chunk <= self.chunks_capacity,
                        ;
                        assert(self.fit(pos as int, n));
                    }
                    return self.arena_base + pos * PAGE_SIZE;
                },
                LevelScan::Descend(j) => {
                    i = j;
                    l += 1;
                },
                LevelScan::NotFound => {
                    proof {
                        if l > 0 {
                            let pi = parent;
                            assert(pi * 8 == i);
                            self.lemma_max_gives_fit(l - 1, pi, n);
                            let p = choose|p: int|
                                pi * lp(l - 1) <= p && p + n <= (pi + 1) * lp(l - 1) && #[trigger] self.fit(p, n);
                            assert((i + 8) * lp(l as int) == (pi + 1) * lp(l - 1)) by (nonlinear_arith)
                                requires
                                    pi * 8 == i,
                                    lp(l - 1) == 8 * lp(l as int),
                            ;
                        } else {
                            assert forall|p: int| !#[trigger] self.fit(p, n) by {
                                if self.fit(p, n) {
                                    self.lemma_fit_vpages(p, n);
                                }
                            }
                        }
                    }
                    return ALLOC_FAILED;
                },
            }
        }
        let ci = i;
        proof {
            self.lemma_nonzero_entry_active(4, ci as int);
            self.lemma_entry_region(4, ci as int);
            self.lemma_leaf_region(ci as int);
        }
        let (j, _) = self.chunks[ci].find(npages, 0);
        let ghost v = self.chunks@[ci as int]@;
        if j == NO_INDEX {
            proof {
                let q = lemma_max_witness(v);
                assert(free_run_at(v, q, n));
            }
            return ALLOC_FAILED;
        }
        proof {
            let f = ci * 512 + j;
            assert(self.chunks@[ci as int]@.len() == 512);
            assert forall|k: int| f <= k < f + n implies !#[trigger] self.vpage(k) by {
                assert(!v[k - ci * 512]);
                assert(self.vpage(ci * 512 + (k - ci * 512)) == v[k - ci * 512]);
            }
            self.lemma_vpages_fit(f, n);
            assert forall|p: int| p < f implies !#[trigger] self.fit(p, n) by {
                if p >= ci * 512 && self.fit(p, n) {
                    self.lemma_fit_vpages(p, n);
                    let o = p - ci * 512;
                    if o + n <= 512 {
                        assert forall|k: int| o <= k < o + n implies !#[trigger] v[k] by {
                            assert(self.vpage(ci * 512 + k) == v[k]);
                        }
                        assert(free_run_at(v, o, n));
                    }
                }
            }
            assert(f * 8192 <= self.chunks_capacity * 4194304) by (nonlinear_arith)
                requires
                    f + n <= self.end_chunk * 512,
                    f >= 0,
                    n >= 1,
                    self.end_chunk <= self.chunks_capacity,
            ;
            assert(self.arena_base + ci * 4194304 + j * 8192 == self.arena_base + f * 8192);
        }
        self.chunk_base(ci) + j * PAGE_SIZE
    }

    /// `(*pageAlloc).alloc` — find the first run of `npages` free pages and
    /// mark it allocated. Returns its address, or `ALLOC_FAILED` with
    /// nothing changed.
    pub fn allocate(&mut self, npages: usize) -> (r: usize)
        requires
            old(self).wf(),
            npages >= 1,
        ensures
            final(self).wf(),
            old(self).is_first_fit_addr(npages as int, r),
            r == ALLOC_FAILED ==> *final(self) == *old(self),
            r != ALLOC_FAILED ==> final(self).pages() == range_set(
                old(self).pages(),
                (r - old(self).arena()) / (PAGE_SIZE as int),
                npages as int,
                true,
            ),
            final(self).capacity() == old(self).capacity(),
            final(self).arena() == old(self).arena(),
            final(self).end() == old(self).end(),
            final(self).start() == old(self).start(),
    {
        let addr = self.find(npages);
        if addr == ALLOC_FAILED {
            return ALLOC_FAILED;
        }
        proof {
            let f = choose|f: int|
                #![trigger self.fit(f, npages as int)]
                addr == self.arena() + f * PAGE_SIZE && self.fit(f, npages as int) && forall|p: int|
                    p < f ==> !#[trigger] self.fit(p, npages as int);
            self.lemma_fit_vpages(f, npages as int);
            assert((addr - self.arena_base) % 8192 == 0) by {
                vstd::arithmetic::div_mod::lemma_mod_multiples_basic(f, 8192);
            }
            assert(addr + npages * 8192 <= self.arena_base + self.end_chunk * 4194304) by (nonlinear_arith)
                requires
                    addr == self.arena_base + f * 8192,
                    f + npages <= self.end_chunk * 512,
            ;
        }
        self.alloc_range(addr, npages);
        addr
    }
}

/// A run of equal pages counts all or none of them as allocated.
/// Free pages appended to a bitmap add no allocated page.
proof fn lemma_count_falses(a: Seq<bool>, n: nat)
    ensures
        count_alloc(a + Seq::new(n, |i: int| false)) == count_alloc(a),
{
    lemma_count_concat(a, Seq::new(n, |i: int| false));
    lemma_count_uniform(Seq::new(n, |i: int| false), false);
}

proof fn lemma_count_uniform(b: Seq<bool>, v: bool)
    requires
        forall|k: int| 0 <= k < b.len() ==> #[trigger] b[k] == v,
    ensures
        count_alloc(b) == if v { b.len() as int } else { 0int },
    decreases b.len(),
{
    if b.len() > 0 {
        lemma_count_uniform(b.drop_last(), v);
    }
}

/// Setting `n` pages from `f` to `val` changes the allocated count by the
/// pages that change.
proof fn lemma_count_range_set(b: Seq<bool>, f: int, n: int, val: bool)
    requires
        0 <= f,
        0 <= n,
        f + n <= b.len(),
    ensures
        count_alloc(range_set(b, f, n, val)) == count_alloc(b) - count_alloc(b.subrange(f, f + n))
            + if val { n } else { 0int },
{
    let x = b.subrange(0, f);
    let y = b.subrange(f, f + n);
    let z = b.subrange(f + n, b.len() as int);
    let c = Seq::new(n as nat, |k: int| val);
    assert(b =~= x + y + z);
    assert(range_set(b, f, n, val) =~= x + c + z);
    lemma_count_concat(x, y);
    lemma_count_concat(x + y, z);
    lemma_count_concat(x, c);
    lemma_count_concat(x + c, z);
    lemma_count_uniform(c, val);
}

impl PageAlloc {
    /// Page index of a heap address.
    pub open spec fn page_of(self, addr: int) -> int {
        (addr - self.arena()) / (PAGE_SIZE as int)
    }

    /// There is one first fit: two answers of `find` for the same pages
    /// and arena are the same address.
    pub proof fn lemma_first_fit_unique(self, n: int, r1: usize, r2: usize)
        requires
            self.is_first_fit_addr(n, r1),
            self.is_first_fit_addr(n, r2),
        ensures
            r1 == r2,
    {
        if r1 != ALLOC_FAILED && r2 != ALLOC_FAILED {
            let f1 = choose|f: int|
                #![trigger self.fit(f, n)]
                r1 == self.arena() + f * PAGE_SIZE && self.fit(f, n) && forall|p: int|
                    p < f ==> !#[trigger] self.fit(p, n);
            let f2 = choose|f: int|
                #![trigger self.fit(f, n)]
                r2 == self.arena() + f * PAGE_SIZE && self.fit(f, n) && forall|p: int|
                    p < f ==> !#[trigger] self.fit(p, n);
            if f1 < f2 {
                assert(!self.fit(f1, n));
            } else if f2 < f1 {
                assert(!self.fit(f2, n));
            }
        } else if r1 != ALLOC_FAILED {
            let f1 = choose|f: int|
                #![trigger self.fit(f, n)]
                r1 == self.arena() + f * PAGE_SIZE && self.fit(f, n);
            assert(!self.fit(f1, n));
        } else if r2 != ALLOC_FAILED {
            let f2 = choose|f: int|
                #![trigger self.fit(f, n)]
                r2 == self.arena() + f * PAGE_SIZE && self.fit(f, n);
            assert(!self.fit(f2, n));
        }
    }

    /// A successful allocation lies inside the active arena, on a page
    /// boundary, and covers only pages that were free: it never overlaps
    /// a live allocation.
    pub proof fn lemma_alloc_disjoint(self, n: int, r: usize)
        requires
            n >= 1,
            self.is_first_fit_addr(n, r),
            r != ALLOC_FAILED,
        ensures
            self.arena() <= r,
            (r - self.arena()) % (PAGE_SIZE as int) == 0,
            r + n * PAGE_SIZE <= self.arena() + self.end() * PALLOC_CHUNK_BYTES,
            forall|k: int|
                self.page_of(r as int) <= k < self.page_of(r as int) + n ==> !#[trigger] self.pages()[k],
    {
        let f = choose|f: int|
            #![trigger self.fit(f, n)]
            r == self.arena() + f * PAGE_SIZE && self.fit(f, n) && forall|p: int|
                p < f ==> !#[trigger] self.fit(p, n);
        assert(r - self.arena() == f * 8192);
        vstd::arithmetic::div_mod::lemma_mod_multiples_basic(f, 8192);
        vstd::arithmetic::div_mod::lemma_div_multiples_vanish(f, 8192);
        assert(self.page_of(r as int) == f);
        assert(r + n * 8192 <= self.arena() + self.end() * 4194304) by (nonlinear_arith)
            requires
                r == self.arena() + f * 8192,
                f + n <= self.end_chunk * 512,
                self.end() == self.end_chunk,
        ;
    }

    /// Allocation respects live runs: when `n` pages are allocated at `r`
    /// (the state after is `after`), every run of `m` pages at `base` that
    /// was allocated before stays allocated, and the new run
    /// `[r, r + n * PAGE_SIZE)` does not overlap `[base, base + m * PAGE_SIZE)`.
    /// Applied at each call, this keeps a whole history of live
    /// allocations pairwise disjoint.
    pub proof fn lemma_alloc_keeps_live(self, after: PageAlloc, n: int, r: usize, base: int, m: int)
        requires
            n >= 1,
            self.is_first_fit_addr(n, r),
            r != ALLOC_FAILED,
            after.pages() == range_set(self.pages(), self.page_of(r as int), n, true),
            m >= 1,
            self.arena() <= base,
            (base - self.arena()) % (PAGE_SIZE as int) == 0,
            self.page_of(base) + m <= self.pages().len(),
            forall|k: int| self.page_of(base) <= k < self.page_of(base) + m ==> #[trigger] self.pages()[k],
        ensures
            forall|k: int| self.page_of(base) <= k < self.page_of(base) + m ==> #[trigger] after.pages()[k],
            r + n * PAGE_SIZE <= base || base + m * PAGE_SIZE <= r,
    {
        self.lemma_alloc_disjoint(n, r);
        let f = self.page_of(r as int);
        let q = self.page_of(base);
        assert(f + n <= q || q + m <= f) by {
            if !(f + n <= q || q + m <= f) {
                let k = if f <= q { q } else { f };
                assert(self.pages()[k]);
                assert(!self.pages()[k]);
            }
        }
        assert(r - self.arena() == f * 8192) by {
            vstd::arithmetic::div_mod::lemma_fundamental_div_mod(r - self.arena(), 8192);
        }
        assert(base - self.arena() == q * 8192) by {
            vstd::arithmetic::div_mod::lemma_fundamental_div_mod(base - self.arena(), 8192);
        }
        assert(f + n <= q ==> r + n * 8192 <= base) by (nonlinear_arith)
            requires
                r - self.arena() == f * 8192,
                base - self.arena() == q * 8192,
        ;
        assert(q + m <= f ==> base + m * 8192 <= r) by (nonlinear_arith)
            requires
                r - self.arena() == f * 8192,
                base - self.arena() == q * 8192,
        ;
    }

    /// A successful allocation of `n` pages raises the allocated count by
    /// `n`.
    pub proof fn lemma_alloc_count(self, n: int, r: usize)
        requires
            n >= 1,
            self.is_first_fit_addr(n, r),
            r != ALLOC_FAILED,
        ensures
            count_alloc(range_set(self.pages(), self.page_of(r as int), n, true))
                == count_alloc(self.pages()) + n,
    {
        self.lemma_alloc_disjoint(n, r);
        let f = self.page_of(r as int);
        let pg = self.pages();
        assert(f + n <= pg.len()) by (nonlinear_arith)
            requires
                r + n * 8192 <= self.arena() + self.end() * 4194304,
                self.arena() <= r,
                f == (r - self.arena()) / 8192,
                (r - self.arena()) % 8192 == 0,
                pg.len() == self.end() * 512,
        ;
        lemma_count_range_set(pg, f, n, true);
        lemma_count_uniform(pg.subrange(f, f + n), false);
    }

    /// Freeing `n` allocated pages lowers the allocated count by `n`.
    pub proof fn lemma_free_count(self, f: int, n: int)
        requires
            0 <= f,
            0 <= n,
            f + n <= self.pages().len(),
            forall|k: int| f <= k < f + n ==> #[trigger] self.pages()[k],
        ensures
            count_alloc(range_set(self.pages(), f, n, false)) == count_alloc(self.pages()) - n,
    {
        lemma_count_range_set(self.pages(), f, n, false);
        lemma_count_uniform(self.pages().subrange(f, f + n), true);
    }

    /// Freeing what an allocation took gives back the pages as they were,
    /// so allocating the same size again returns the same address.
    pub proof fn lemma_alloc_free_round_trip(self, after: Self, n: int, r: usize)
        requires
            n >= 1,
            self.is_first_fit_addr(n, r),
            r != ALLOC_FAILED,
            after.arena() == self.arena(),
            after.end() == self.end(),
            after.pages() == range_set(
                range_set(self.pages(), self.page_of(r as int), n, true),
                self.page_of(r as int),
                n,
                false,
            ),
        ensures
            after.pages() == self.pages(),
            forall|r2: usize| after.is_first_fit_addr(n, r2) ==> r2 == r,
    {
        self.lemma_alloc_disjoint(n, r);
        assert(after.pages() =~= self.pages());
        assert forall|r2: usize| after.is_first_fit_addr(n, r2) implies r2 == r by {
            assert forall|p: int| after.fit(p, n) == self.fit(p, n) by {}
            assert(self.is_first_fit_addr(n, r2));
            self.lemma_first_fit_unique(n, r, r2);
        }
    }
}

/// A summary with no free page has every page allocated.
proof fn lemma_all_alloc_means(b: Seq<bool>, q: int)
    requires
        run_summary(b) == (0int, 0int, 0int),
        0 <= q < b.len(),
    ensures
        b[q],
{
    if !b[q] {
        assert(free_run_at(b, q, 1));
        lemma_run_le_max(b, q, 1);
    }
}

} // verus!
