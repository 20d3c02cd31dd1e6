//! Packed `(start, max, end)` free-page summary, and what such a summary
//! means for a run of pages: pages free at the start, the longest run of
//! free pages anywhere, and pages free at the end.
//!
//! Encoding (LSB to MSB), 21 bits each: `start`, `max`, `end`; bit 63 is
//! the sentinel for "the whole 2^21-page region is free", a value that does
//! not fit in a field.
use vstd::prelude::*;
use super::consts::{LOG_MAX_PACKED_VALUE, MAX_PACKED_VALUE};

verus! {

/// Mask of one packed field (21 bits).
pub const FIELD_MASK: u64 = 0x1f_ffff;

/// The "entirely free" sentinel bit.
pub const FULL_BIT: u64 = 0x8000_0000_0000_0000;

// ─── Free runs of a page sequence ────────────────────────────────────
//
// A page sequence is a `Seq<bool>` in which `true` marks an allocated
// page and `false` a free one. All three measures recurse on the last
// page, which keeps concatenation proofs to one induction.

/// Number of free pages at the start of `b`.
pub open spec fn lead_free(b: Seq<bool>) -> int
    decreases b.len(),
{
    if b.len() == 0 {
        0
    } else if lead_free(b.drop_last()) == b.len() - 1 && !b.last() {
        b.len() as int
    } else {
        lead_free(b.drop_last())
    }
}

/// Number of free pages at the end of `b`.
pub open spec fn trail_free(b: Seq<bool>) -> int
    decreases b.len(),
{
    if b.len() == 0 {
        0
    } else if b.last() {
        0
    } else {
        trail_free(b.drop_last()) + 1
    }
}

/// Length of the longest run of free pages in `b`.
pub open spec fn max_free(b: Seq<bool>) -> int
    decreases b.len(),
{
    if b.len() == 0 {
        0
    } else {
        let m = max_free(b.drop_last());
        let t = trail_free(b);
        if m >= t { m } else { t }
    }
}

/// The summary `(start, max, end)` that describes `b`.
pub open spec fn run_summary(b: Seq<bool>) -> (int, int, int) {
    (lead_free(b), max_free(b), trail_free(b))
}

/// `b` holds no allocated page.
pub open spec fn all_free(b: Seq<bool>) -> bool {
    forall|i: int| 0 <= i < b.len() ==> !b[i]
}

/// A run of `n` free pages starts at `p` in `b`.
pub open spec fn free_run_at(b: Seq<bool>, p: int, n: int) -> bool {
    0 <= p && p + n <= b.len() && forall|k: int| p <= k < p + n ==> !b[k]
}

/// Bounds of the three measures.
pub proof fn lemma_run_bounds(b: Seq<bool>)
    ensures
        0 <= lead_free(b) <= max_free(b) <= b.len(),
        0 <= trail_free(b) <= max_free(b),
        lead_free(b) == b.len() <==> all_free(b),
        trail_free(b) == b.len() <==> all_free(b),
        max_free(b) == b.len() <==> all_free(b),
        lead_free(b) == b.len() ==> trail_free(b) == b.len(),
    decreases b.len(),
{
    if b.len() > 0 {
        let p = b.drop_last();
        lemma_run_bounds(p);
        if all_free(b) {
            assert(all_free(p));
        }
        if all_free(p) && !b.last() {
            assert forall|i: int| 0 <= i < b.len() implies !b[i] by {
                if i < b.len() - 1 {
                    assert(p[i] == b[i]);
                }
            }
        }
        if !all_free(p) {
            let i = choose|i: int| 0 <= i < p.len() && p[i];
            assert(b[i]);
        }
    }
}

/// Summary of a concatenation, from the summaries of its parts: the
/// rule by which a parent summary is built from its children.
pub proof fn lemma_run_summary_concat(a: Seq<bool>, b: Seq<bool>)
    ensures
        lead_free(a + b) == (if lead_free(a) == a.len() { a.len() + lead_free(b) } else {
            lead_free(a)
        }),
        trail_free(a + b) == (if trail_free(b) == b.len() { b.len() + trail_free(a) } else {
            trail_free(b)
        }),
        max_free(a + b) == ({
            let m1 = if max_free(a) >= max_free(b) { max_free(a) } else { max_free(b) };
            if trail_free(a) + lead_free(b) > m1 { trail_free(a) + lead_free(b) } else { m1 }
        }),
    decreases b.len(),
{
    lemma_run_bounds(a);
    lemma_run_bounds(b);
    if b.len() == 0 {
        assert(a + b =~= a);
    } else {
        let bp = b.drop_last();
        assert((a + b).drop_last() =~= a + bp);
        assert((a + b).last() == b.last());
        lemma_run_summary_concat(a, bp);
        lemma_run_bounds(bp);
        lemma_run_bounds(a + bp);
        lemma_run_bounds(a + b);
    }
}


/// The pages counted by `lead_free` are free, and the page after them (if
/// any) is allocated.
pub proof fn lemma_lead_free_run(b: Seq<bool>)
    ensures
        forall|k: int| 0 <= k < lead_free(b) ==> !#[trigger] b[k],
        lead_free(b) < b.len() ==> b[lead_free(b)],
    decreases b.len(),
{
    if b.len() > 0 {
        let p = b.drop_last();
        lemma_lead_free_run(p);
        lemma_run_bounds(p);
        assert forall|k: int| 0 <= k < lead_free(b) implies !#[trigger] b[k] by {
            if k < b.len() - 1 {
                assert(b[k] == p[k]);
            }
        }
        if lead_free(b) < b.len() {
            if lead_free(p) < p.len() {
                assert(b[lead_free(b)] == p[lead_free(p)]);
            }
        }
    }
}

/// The pages counted by `trail_free` are free, and the page before them
/// (if any) is allocated.
pub proof fn lemma_trail_free_run(b: Seq<bool>)
    ensures
        0 <= trail_free(b) <= b.len(),
        forall|k: int| b.len() - trail_free(b) <= k < b.len() ==> !#[trigger] b[k],
        trail_free(b) < b.len() ==> b[b.len() - 1 - trail_free(b)],
    decreases b.len(),
{
    if b.len() > 0 {
        let p = b.drop_last();
        lemma_trail_free_run(p);
        assert forall|k: int| b.len() - trail_free(b) <= k < b.len() implies !#[trigger] b[k] by {
            if k < b.len() - 1 {
                assert(b[k] == p[k]);
            }
        }
        if trail_free(b) < b.len() && !b.last() {
            assert(b[b.len() - 1 - trail_free(b)] == p[p.len() - 1 - trail_free(p)]);
        }
    }
}

/// A free suffix of `n` pages makes `trail_free` at least `n`.
pub proof fn lemma_trail_ge(b: Seq<bool>, n: int)
    requires
        0 <= n <= b.len(),
        forall|k: int| b.len() - n <= k < b.len() ==> !#[trigger] b[k],
    ensures
        trail_free(b) >= n,
    decreases n,
{
    lemma_run_bounds(b);
    if n > 0 {
        let p = b.drop_last();
        assert(!b[b.len() - 1]);
        assert(b.last() == b[b.len() - 1]);
        assert forall|k: int| p.len() - (n - 1) <= k < p.len() implies !#[trigger] p[k] by {
            assert(p[k] == b[k]);
        }
        lemma_trail_ge(p, n - 1);
    }
}

/// A run of `n` free pages anywhere in `b` makes `max_free(b)` at least `n`.
pub proof fn lemma_run_le_max(b: Seq<bool>, q: int, n: int)
    requires
        n >= 0,
        free_run_at(b, q, n),
    ensures
        n <= max_free(b),
    decreases b.len(),
{
    if b.len() > 0 && n > 0 {
        let p = b.drop_last();
        if q + n <= p.len() {
            assert(free_run_at(p, q, n)) by {
                assert forall|k: int| q <= k < q + n implies !#[trigger] p[k] by {
                    assert(p[k] == b[k]);
                }
            }
            lemma_run_le_max(p, q, n);
        } else {
            lemma_trail_ge(b, n);
        }
    }
    if n == 0 {
        lemma_run_bounds(b);
    }
}

/// The longest free run is a run: it starts somewhere.
pub proof fn lemma_max_witness(b: Seq<bool>) -> (q: int)
    ensures
        free_run_at(b, q, max_free(b)),
    decreases b.len(),
{
    if b.len() == 0 {
        0
    } else {
        let p = b.drop_last();
        lemma_trail_free_run(b);
        if max_free(p) >= trail_free(b) {
            let q0 = lemma_max_witness(p);
            assert forall|k: int| q0 <= k < q0 + max_free(b) implies !#[trigger] b[k] by {
                assert(p[k] == b[k]);
            }
            q0
        } else {
            b.len() - trail_free(b)
        }
    }
}

// ─── Packed representation ───────────────────────────────────────────

/// The three counts a raw packed word stands for.
pub open spec fn raw_view(raw: u64) -> (int, int, int) {
    if raw & FULL_BIT != 0 {
        (MAX_PACKED_VALUE as int, MAX_PACKED_VALUE as int, MAX_PACKED_VALUE as int)
    } else {
        (
            (raw & FIELD_MASK) as int,
            ((raw >> 21u64) & FIELD_MASK) as int,
            ((raw >> 42u64) & FIELD_MASK) as int,
        )
    }
}

/// What `pack(start, max, end)` stands for: the sentinel when `max` is
/// the largest packable value, else each field reduced to its 21 bits.
pub open spec fn pack_view(start: int, max: int, end: int) -> (int, int, int) {
    if max == MAX_PACKED_VALUE {
        (MAX_PACKED_VALUE as int, MAX_PACKED_VALUE as int, MAX_PACKED_VALUE as int)
    } else {
        (start % 0x20_0000, max % 0x20_0000, end % 0x20_0000)
    }
}

/// `pallocSum` — three 21-bit page counts packed into one word.
#[derive(Clone, Copy, PartialEq, Eq, Structural)]
pub struct PallocSum(u64);

impl View for PallocSum {
    type V = (int, int, int);

    closed spec fn view(&self) -> (int, int, int) {
        raw_view(self.0)
    }
}

proof fn lemma_mask_is_mod(x: u64)
    by (bit_vector)
    ensures
        x & 0x1f_ffff == x % 0x20_0000,
        x & 0x1f_ffff < 0x20_0000,
{
}

proof fn lemma_pack_fields(a: u64, b: u64, c: u64)
    by (bit_vector)
    requires
        a < 0x20_0000,
        b < 0x20_0000,
        c < 0x20_0000,
    ensures
        (a | (b << 21u64) | (c << 42u64)) & 0x8000_0000_0000_0000 == 0,
        (a | (b << 21u64) | (c << 42u64)) & 0x1f_ffff == a,
        ((a | (b << 21u64) | (c << 42u64)) >> 21u64) & 0x1f_ffff == b,
        ((a | (b << 21u64) | (c << 42u64)) >> 42u64) & 0x1f_ffff == c,
        (a | (b << 21u64) | (c << 42u64)) < 0x8000_0000_0000_0000u64,
{
}

proof fn lemma_canonical_zero(raw: u64)
    by (bit_vector)
    requires
        raw < 0x8000_0000_0000_0000u64,
        raw & 0x1f_ffff == 0,
        (raw >> 21u64) & 0x1f_ffff == 0,
        (raw >> 42u64) & 0x1f_ffff == 0,
    ensures
        raw == 0,
{
}

proof fn lemma_below_full(raw: u64)
    by (bit_vector)
    requires
        raw < 0x8000_0000_0000_0000u64,
    ensures
        raw & 0x8000_0000_0000_0000u64 == 0,
{
}

proof fn lemma_raw_fields_bounded(raw: u64)
    by (bit_vector)
    ensures
        raw & 0x1f_ffff < 0x20_0000,
        (raw >> 21u64) & 0x1f_ffff < 0x20_0000,
        (raw >> 42u64) & 0x1f_ffff < 0x20_0000,
        raw == 0 ==> raw & 0x8000_0000_0000_0000 == 0 && raw & 0x1f_ffff == 0 && (raw >> 21u64)
            & 0x1f_ffff == 0 && (raw >> 42u64) & 0x1f_ffff == 0,
        0x8000_0000_0000_0000u64 & 0x8000_0000_0000_0000 != 0,
{
}

impl PallocSum {
    /// Every summary is either the sentinel or a word whose bits all lie in
    /// the three fields.
    #[verifier::type_invariant]
    spec fn canonical(self) -> bool {
        self.0 == FULL_BIT || self.0 < FULL_BIT
    }

    /// The raw packed word.
    pub closed spec fn spec_raw(self) -> u64 {
        self.0
    }

    /// Each count lies in `[0, MAX_PACKED_VALUE]`; a count equal to
    /// `MAX_PACKED_VALUE` only occurs as the all-free sentinel.
    pub proof fn lemma_bounds(self)
        ensures
            0 <= self@.0 <= MAX_PACKED_VALUE,
            0 <= self@.1 <= MAX_PACKED_VALUE,
            0 <= self@.2 <= MAX_PACKED_VALUE,
            self@.0 == MAX_PACKED_VALUE || self@.1 == MAX_PACKED_VALUE || self@.2
                == MAX_PACKED_VALUE ==> self@ == (
                MAX_PACKED_VALUE as int,
                MAX_PACKED_VALUE as int,
                MAX_PACKED_VALUE as int,
            ),
            self.spec_raw() == 0 ==> self@ == (0int, 0int, 0int),
    {
        lemma_raw_fields_bounded(self.0);
    }

    /// `packPallocSum(start, max, end)`.
    pub fn pack(start: usize, max_: usize, end: usize) -> (r: Self)
        ensures
            r@ == pack_view(start as int, max_ as int, end as int),
    {
        if max_ == MAX_PACKED_VALUE {
            proof {
                lemma_raw_fields_bounded(0);
            }
            return PallocSum(FULL_BIT);
        }
        let s = (start as u64) & FIELD_MASK;
        let m = (max_ as u64) & FIELD_MASK;
        let e = (end as u64) & FIELD_MASK;
        proof {
            lemma_mask_is_mod(start as u64);
            lemma_mask_is_mod(max_ as u64);
            lemma_mask_is_mod(end as u64);
            lemma_pack_fields(s, m, e);
        }
        PallocSum(s | (m << LOG_MAX_PACKED_VALUE as u64) | (e << 42u64))
    }

    /// Summary of a region with no free page.
    pub fn empty() -> (r: Self)
        ensures
            r@ == (0int, 0int, 0int),
            r.spec_raw() == 0,
    {
        proof {
            lemma_raw_fields_bounded(0);
        }
        PallocSum(0)
    }

    /// Summary of `pages` fully-free pages.
    pub fn full(pages: usize) -> (r: Self)
        ensures
            r@ == pack_view(pages as int, pages as int, pages as int),
    {
        Self::pack(pages, pages, pages)
    }

    /// Summary of `MAX_PACKED_VALUE` fully-free pages: the sentinel.
    pub fn full_max() -> (r: Self)
        ensures
            r@ == (MAX_PACKED_VALUE as int, MAX_PACKED_VALUE as int, MAX_PACKED_VALUE as int),
            r.spec_raw() == FULL_BIT,
    {
        proof {
            lemma_raw_fields_bounded(0);
        }
        PallocSum(FULL_BIT)
    }

    /// The raw packed word; 0 exactly for the summary with no free page.
    pub fn raw(self) -> (r: u64)
        ensures
            r == self.spec_raw(),
            r == 0 <==> self@ == (0int, 0int, 0int),
    {
        proof {
            use_type_invariant(&self);
            lemma_raw_fields_bounded(self.0);
            if self.0 != FULL_BIT {
                lemma_below_full(self.0);
                if self@ == (0int, 0int, 0int) {
                    lemma_canonical_zero(self.0);
                }
            }
        }
        self.0
    }

    /// Pages free at the start of the region.
    pub fn start(self) -> (r: usize)
        ensures
            r == self@.0,
    {
        proof {
            lemma_raw_fields_bounded(self.0);
        }
        if self.0 & FULL_BIT != 0 {
            return MAX_PACKED_VALUE;
        }
        (self.0 & FIELD_MASK) as usize
    }

    /// Longest run of free pages anywhere in the region.
    pub fn max(self) -> (r: usize)
        ensures
            r == self@.1,
    {
        proof {
            lemma_raw_fields_bounded(self.0);
        }
        if self.0 & FULL_BIT != 0 {
            return MAX_PACKED_VALUE;
        }
        ((self.0 >> LOG_MAX_PACKED_VALUE as u64) & FIELD_MASK) as usize
    }

    /// Pages free at the end of the region.
    pub fn end(self) -> (r: usize)
        ensures
            r == self@.2,
    {
        proof {
            lemma_raw_fields_bounded(self.0);
        }
        if self.0 & FULL_BIT != 0 {
            return MAX_PACKED_VALUE;
        }
        ((self.0 >> 42u64) & FIELD_MASK) as usize
    }

    /// All three counts at once.
    pub fn unpack(self) -> (r: (usize, usize, usize))
        ensures
            (r.0 as int, r.1 as int, r.2 as int) == self@,
    {
        proof {
            lemma_raw_fields_bounded(self.0);
        }
        if self.0 & FULL_BIT != 0 {
            return (MAX_PACKED_VALUE, MAX_PACKED_VALUE, MAX_PACKED_VALUE);
        }
        let s = (self.0 & FIELD_MASK) as usize;
        let m = ((self.0 >> LOG_MAX_PACKED_VALUE as u64) & FIELD_MASK) as usize;
        let e = ((self.0 >> 42u64) & FIELD_MASK) as usize;
        (s, m, e)
    }
}

/// Unpacking what was packed gives the counts back, for any counts that
/// can describe a region of at most `MAX_PACKED_VALUE` pages.
pub proof fn lemma_pack_unpack(start: int, max: int, end: int)
    requires
        0 <= start <= max <= MAX_PACKED_VALUE,
        0 <= end <= max,
        max == MAX_PACKED_VALUE ==> start == max && end == max,
    ensures
        pack_view(start, max, end) == (start, max, end),
{
}


// ─── Merging adjacent summaries ──────────────────────────────────────

/// One step of `mergeSummaries`: fold the summary `x` of the `i`-th
/// region (each region holding `block` pages) into the running summary
/// `acc` of regions `0..i`.
pub open spec fn merge_step(acc: (int, int, int), x: (int, int, int), i: int, block: int) -> (int, int, int) {
    let start = if acc.0 == i * block { acc.0 + x.0 } else { acc.0 };
    let m = if acc.1 >= x.1 { acc.1 } else { x.1 };
    let most = if acc.2 + x.0 > m { acc.2 + x.0 } else { m };
    let end = if x.2 == block { acc.2 + block } else { x.2 };
    (start, most, end)
}

/// The running summary after folding in every summary of `sums`.
pub open spec fn merge_fold(sums: Seq<(int, int, int)>, block: int) -> (int, int, int)
    decreases sums.len(),
{
    if sums.len() <= 1 {
        sums[0]
    } else {
        merge_step(merge_fold(sums.drop_last(), block), sums.last(), sums.len() - 1, block)
    }
}

/// The summaries' views.
pub open spec fn sum_views(sums: Seq<PallocSum>) -> Seq<(int, int, int)> {
    sums.map_values(|s: PallocSum| s@)
}

/// `mergeSummaries(sums, logMaxPagesPerSum)` — collapse the summaries of
/// adjacent regions of `2^log_max_pages_per_sum` pages each into one.
pub fn merge_summaries(sums: &[PallocSum], log_max_pages_per_sum: u32) -> (r: PallocSum)
    requires
        sums@.len() >= 1,
        log_max_pages_per_sum < usize::BITS,
        sums@.len() * vstd::arithmetic::power2::pow2(log_max_pages_per_sum as nat) + 2
            * MAX_PACKED_VALUE <= usize::MAX,
    ensures
        ({
            let f = merge_fold(sum_views(sums@), vstd::arithmetic::power2::pow2(log_max_pages_per_sum as nat) as int);
            r@ == pack_view(f.0, f.1, f.2)
        }),
{
    let ghost views = sum_views(sums@);
    let ghost blk = vstd::arithmetic::power2::pow2(log_max_pages_per_sum as nat) as int;
    let first = sums[0];
    proof {
        first.lemma_bounds();
        vstd::bits::lemma_usize_pow2_no_overflow(log_max_pages_per_sum as nat);
        vstd::bits::lemma_usize_shl_is_mul(1, log_max_pages_per_sum as usize);
        vstd::arithmetic::power2::lemma_pow2_pos(log_max_pages_per_sum as nat);
    }
    let (mut start, mut most, mut end) = first.unpack();
    let block: usize = 1usize << (log_max_pages_per_sum as usize);
    assert(block == blk);
    assert(views.take(1) =~= seq![views[0]]);
    let mut i: usize = 1;
    while i < sums.len()
        invariant
            1 <= i <= sums@.len(),
            views == sum_views(sums@),
            block == blk,
            blk >= 1,
            sums@.len() * blk + 2 * MAX_PACKED_VALUE <= usize::MAX,
            (start as int, most as int, end as int) == merge_fold(views.take(i as int), blk),
            start <= (i - 1) * blk + MAX_PACKED_VALUE,
            end <= (i - 1) * blk + MAX_PACKED_VALUE,
            most <= (i - 1) * blk + 2 * MAX_PACKED_VALUE,
        decreases sums@.len() - i,
    {
        let cur = sums[i];
        proof {
            cur.lemma_bounds();
            assert(i * blk <= sums@.len() * blk) by (nonlinear_arith)
                requires i <= sums@.len(), blk >= 1;
            assert((i - 1) * blk + blk == i * blk) by (nonlinear_arith);
            assert(views.take(i + 1).drop_last() =~= views.take(i as int));
            assert(views.take(i + 1).last() == cur@);
        }
        let (si, mi, ei) = cur.unpack();
        if start == i * block {
            start += si;
        }
        let candidate = end + si;
        let mut m = if most >= mi { most } else { mi };
        if candidate > m {
            m = candidate;
        }
        most = m;
        if ei == block {
            end += block;
        } else {
            end = ei;
        }
        i += 1;
    }
    assert(views.take(sums@.len() as int) =~= views);
    PallocSum::pack(start, most, end)
}

/// Merging the summaries of adjacent regions of `block` pages each gives
/// the summary of their concatenation.
pub proof fn lemma_merge_fold_concat(parts: Seq<Seq<bool>>, block: int)
    requires
        parts.len() >= 1,
        block >= 0,
        forall|k: int| 0 <= k < parts.len() ==> #[trigger] parts[k].len() == block,
    ensures
        merge_fold(parts.map_values(|p: Seq<bool>| run_summary(p)), block) == run_summary(
            parts.flatten(),
        ),
        parts.flatten().len() == parts.len() * block,
    decreases parts.len(),
{
    let sv = parts.map_values(|p: Seq<bool>| run_summary(p));
    if parts.len() == 1 {
        assert(parts.flatten() =~= parts[0]) by {
            assert(parts.drop_first().flatten() =~= Seq::<bool>::empty());
            assert(parts.flatten() == parts[0] + parts.drop_first().flatten());
        }
        assert(parts.len() * block == block);
    } else {
        let init = parts.drop_last();
        lemma_merge_fold_concat(init, block);
        assert(sv.drop_last() =~= init.map_values(|p: Seq<bool>| run_summary(p)));
        vstd::seq_lib::lemma_flatten_concat(init, seq![parts.last()]);
        assert(init + seq![parts.last()] =~= parts);
        assert(seq![parts.last()].flatten() =~= parts.last()) by {
            let one = seq![parts.last()];
            assert(one.drop_first().flatten() =~= Seq::<bool>::empty());
            assert(one.flatten() == one[0] + one.drop_first().flatten());
        }
        let a = init.flatten();
        let b = parts.last();
        lemma_run_summary_concat(a, b);
        lemma_run_bounds(a);
        lemma_run_bounds(b);
        assert(init.len() * block + block == parts.len() * block) by (nonlinear_arith)
            requires init.len() + 1 == parts.len();
    }
}

} // verus!
