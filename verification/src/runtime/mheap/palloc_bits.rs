//! Per-chunk page bitmap: one bit per page of a 512-page chunk, 1 meaning
//! allocated and 0 free, with range updates, folding into a summary, and
//! searches for runs of free pages.
use vstd::prelude::*;
use super::consts::PALLOC_CHUNK_PAGES;
use super::palloc_sum::{PallocSum, run_summary, lead_free, trail_free, max_free, all_free, free_run_at, lemma_run_bounds, lemma_run_summary_concat, pack_view};

verus! {

/// Words backing one chunk's bitmap.
pub const PAGE_BITS_WORDS: usize = 8;

/// Sentinel returned by the searches when no run is available.
pub const NO_INDEX: usize = usize::MAX;

/// Bit `j` of word `w` is set.
pub open spec fn wbit(w: u64, j: u64) -> bool {
    (w >> j) & 1u64 == 1u64
}

/// The 512 page bits of a chunk, `true` for an allocated page.
pub open spec fn bits_view(ws: [u64; 8]) -> Seq<bool> {
    Seq::new(512, |i: int| wbit(ws[i / 64], (i % 64) as u64))
}

/// The 64 bits of one word, lowest first.
pub open spec fn word_view(w: u64) -> Seq<bool> {
    Seq::new(64, |j: int| wbit(w, j as u64))
}

/// `v` with every index in `[i, i + n)` set to `val`.
pub open spec fn range_set(v: Seq<bool>, i: int, n: int, val: bool) -> Seq<bool> {
    Seq::new(v.len(), |k: int| if i <= k < i + n { val } else { v[k] })
}

/// Number of allocated pages in `v`.
pub open spec fn count_alloc(v: Seq<bool>) -> int
    decreases v.len(),
{
    if v.len() == 0 {
        0
    } else {
        count_alloc(v.drop_last()) + if v.last() { 1int } else { 0int }
    }
}

/// `(1 << n) - 1`, with `n == 64` giving all ones.
pub open spec fn low_mask(n: u64) -> u64 {
    if n >= 64 { 0xffff_ffff_ffff_ffffu64 } else { ((1u64 << n) - 1u64) as u64 }
}

proof fn lemma_low_mask_shifted(n: u64, s: u64, j: u64)
    by (bit_vector)
    requires
        1 <= n,
        s + n <= 64,
        j < 64,
    ensures
        ((((if n >= 64 { 0xffff_ffff_ffff_ffffu64 } else { ((1u64 << n) - 1u64) as u64 }) << s)
            >> j) & 1u64 == 1u64) == (s <= j && j < s + n),
{
}

pub proof fn lemma_high_mask(s: u64, j: u64)
    by (bit_vector)
    requires
        s < 64,
        j < 64,
    ensures
        (((0xffff_ffff_ffff_ffffu64 << s) >> j) & 1u64 == 1u64) == (s <= j),
{
}

pub proof fn lemma_or_bit(w: u64, m: u64, j: u64)
    by (bit_vector)
    requires
        j < 64,
    ensures
        (((w | m) >> j) & 1u64 == 1u64) == (((w >> j) & 1u64 == 1u64) || ((m >> j) & 1u64
            == 1u64)),
        (((w & !m) >> j) & 1u64 == 1u64) == (((w >> j) & 1u64 == 1u64) && !((m >> j) & 1u64
            == 1u64)),
        (((w & m) >> j) & 1u64 == 1u64) == (((w >> j) & 1u64 == 1u64) && ((m >> j) & 1u64
            == 1u64)),
        (((!w) >> j) & 1u64 == 1u64) == !((w >> j) & 1u64 == 1u64),
{
}

pub proof fn lemma_const_words(j: u64)
    by (bit_vector)
    requires
        j < 64,
    ensures
        (0u64 >> j) & 1u64 == 0u64,
        (0xffff_ffff_ffff_ffffu64 >> j) & 1u64 == 1u64,
        ((1u64 << j) >> j) & 1u64 == 1u64,
{
}

pub proof fn lemma_one_bit(k: u64, j: u64)
    by (bit_vector)
    requires
        k < 64,
        j < 64,
    ensures
        (((1u64 << k) >> j) & 1u64 == 1u64) == (j == k),
{
}

pub proof fn lemma_bit_is_01(w: u64, j: u64)
    by (bit_vector)
    ensures
        (w >> j) & 1u64 == 0u64 || (w >> j) & 1u64 == 1u64,
{
}

/// Replacing word `wi` changes exactly the bits of that word.
proof fn lemma_word_update(a: [u64; 8], b: [u64; 8], wi: int, w: u64)
    requires
        0 <= wi < 8,
        b@ == a@.update(wi, w),
    ensures
        forall|i: int|
            0 <= i < 512 ==> #[trigger] bits_view(b)[i] == if i / 64 == wi {
                wbit(w, (i % 64) as u64)
            } else {
                bits_view(a)[i]
            },
{
    assert forall|i: int| 0 <= i < 512 implies #[trigger] bits_view(b)[i] == if i / 64 == wi {
        wbit(w, (i % 64) as u64)
    } else {
        bits_view(a)[i]
    } by {
        assert(b[i / 64] == if i / 64 == wi { w } else { a[i / 64] });
    }
}

/// The bits of word `wi` are the view's bits `[64 wi, 64 wi + 64)`.
pub proof fn lemma_word_slice(ws: [u64; 8], wi: int)
    requires
        0 <= wi < 8,
    ensures
        bits_view(ws).subrange(wi * 64, wi * 64 + 64) =~= word_view(ws[wi]),
{
    assert forall|j: int| 0 <= j < 64 implies bits_view(ws).subrange(wi * 64, wi * 64 + 64)[j]
        == word_view(ws[wi])[j] by {
        assert((wi * 64 + j) / 64 == wi);
        assert((wi * 64 + j) % 64 == j);
    }
}

/// `mask_low_bits(n)`: `(1 << n) - 1`, all ones for `n >= 64`.
fn mask_low_bits(n: usize) -> (r: u64)
    ensures
        r == low_mask(n as u64),
{
    if n >= 64 {
        u64::MAX
    } else {
        assert((1u64 << (n as u64)) >= 1u64) by (bit_vector)
            requires
                n < 64,
        ;
        (1u64 << (n as u64)) - 1
    }
}

/// `pageBits` — one bit per page in a chunk.
#[derive(Clone, Copy)]
pub struct PageBits(pub [u64; PAGE_BITS_WORDS]);

impl View for PageBits {
    type V = Seq<bool>;

    open spec fn view(&self) -> Seq<bool> {
        bits_view(self.0)
    }
}

impl PageBits {
    /// All pages free.
    pub fn zero() -> (r: Self)
        ensures
            r@ == Seq::new(512, |i: int| false),
    {
        let r = PageBits([0u64; PAGE_BITS_WORDS]);
        assert forall|i: int| 0 <= i < 512 implies r@[i] == false by {
            lemma_const_words((i % 64) as u64);
        }
        assert(r@ =~= Seq::new(512, |i: int| false));
        r
    }

    /// Bit `i`: 1 if page `i` is allocated.
    pub fn get(&self, i: usize) -> (r: u64)
        requires
            i < 512,
        ensures
            r == if self@[i as int] { 1u64 } else { 0u64 },
    {
        let r = (self.0[i / 64] >> ((i % 64) as u64)) & 1;
        proof {
            lemma_bit_is_01(self.0[(i / 64) as int], (i % 64) as u64);
        }
        r
    }

    /// The 64-bit word holding bit `i`.
    pub fn block64(&self, i: usize) -> (r: u64)
        requires
            i < 512,
        ensures
            r == self.0[(i / 64) as int],
            word_view(r) =~= self@.subrange((i / 64) * 64, (i / 64) * 64 + 64),
    {
        proof {
            lemma_word_slice(self.0, (i / 64) as int);
        }
        self.0[i / 64]
    }

    /// Mark page `i` allocated.
    pub fn set(&mut self, i: usize)
        requires
            i < 512,
        ensures
            final(self)@ == old(self)@.update(i as int, true),
    {
        let ghost a = self.0;
        let wi = i / 64;
        let w = self.0[wi] | (1u64 << ((i % 64) as u64));
        self.0[wi] = w;
        proof {
            lemma_word_update(a, self.0, wi as int, w);
            assert forall|k: int| 0 <= k < 512 implies self@[k] == old(self)@.update(
                i as int,
                true,
            )[k] by {
                if k / 64 == wi {
                    lemma_or_bit(a[wi as int], 1u64 << ((i % 64) as u64), (k % 64) as u64);
                    lemma_one_bit((i % 64) as u64, (k % 64) as u64);
                }
            }
            assert(self@ =~= old(self)@.update(i as int, true));
        }
    }

    /// Mark page `i` free.
    pub fn clear(&mut self, i: usize)
        requires
            i < 512,
        ensures
            final(self)@ == old(self)@.update(i as int, false),
    {
        let ghost a = self.0;
        let wi = i / 64;
        let w = self.0[wi] & !(1u64 << ((i % 64) as u64));
        self.0[wi] = w;
        proof {
            lemma_word_update(a, self.0, wi as int, w);
            assert forall|k: int| 0 <= k < 512 implies self@[k] == old(self)@.update(
                i as int,
                false,
            )[k] by {
                if k / 64 == wi {
                    lemma_or_bit(a[wi as int], 1u64 << ((i % 64) as u64), (k % 64) as u64);
                    lemma_one_bit((i % 64) as u64, (k % 64) as u64);
                }
            }
            assert(self@ =~= old(self)@.update(i as int, false));
        }
    }

    /// OR `m` into word `wi`; `val` says whether the mask's bits become
    /// allocated (`|`) or free (`& !`).
    fn apply_mask(&mut self, wi: usize, m: u64, val: bool)
        requires
            wi < 8,
        ensures
            forall|k: int|
                0 <= k < 512 ==> #[trigger] final(self)@[k] == if k / 64 == wi && wbit(
                    m,
                    (k % 64) as u64,
                ) {
                    val
                } else {
                    old(self)@[k]
                },
    {
        let ghost a = self.0;
        let w = if val { self.0[wi] | m } else { self.0[wi] & !m };
        self.0[wi] = w;
        proof {
            lemma_word_update(a, self.0, wi as int, w);
            assert forall|k: int| 0 <= k < 512 implies #[trigger] self@[k] == if k / 64 == wi
                && wbit(m, (k % 64) as u64) {
                val
            } else {
                old(self)@[k]
            } by {
                if k / 64 == wi {
                    lemma_or_bit(a[wi as int], m, (k % 64) as u64);
                }
            }
        }
    }

    /// Set (`val`) or clear every bit in `[i, i + n)`.
    fn write_range(&mut self, i: usize, n: usize, val: bool)
        requires
            1 <= n,
            i + n <= 512,
        ensures
            final(self)@ == range_set(old(self)@, i as int, n as int, val),
    {
        let ghost old_v = self@;
        let j = i + n - 1;
        let iw = i / 64;
        let jw = j / 64;
        if iw == jw {
            let m = mask_low_bits(n) << ((i % 64) as u64);
            self.apply_mask(iw, m, val);
            proof {
                assert forall|k: int| 0 <= k < 512 implies self@[k] == range_set(
                    old_v,
                    i as int,
                    n as int,
                    val,
                )[k] by {
                    if k / 64 == iw {
                        lemma_low_mask_shifted(n as u64, (i % 64) as u64, (k % 64) as u64);
                    }
                }
                assert(self@ =~= range_set(old_v, i as int, n as int, val));
            }
            return;
        }
        // Leading partial word.
        let lead = u64::MAX << ((i % 64) as u64);
        self.apply_mask(iw, lead, val);
        proof {
            assert forall|k: int| 0 <= k < 512 implies #[trigger] self@[k] == if i <= k < (iw
                + 1) * 64 {
                val
            } else {
                old_v[k]
            } by {
                if k / 64 == iw {
                    lemma_high_mask((i % 64) as u64, (k % 64) as u64);
                }
            }
        }
        // Whole interior words.
        let mut kw = iw + 1;
        while kw < jw
            invariant
                iw < kw <= jw,
                jw < 8,
                i + n <= 512,
                j == i + n - 1,
                iw == i / 64,
                jw == j / 64,
                forall|k: int|
                    0 <= k < 512 ==> #[trigger] self@[k] == if i <= k < kw * 64 {
                        val
                    } else {
                        old_v[k]
                    },
            decreases jw - kw,
        {
            self.apply_mask(kw, u64::MAX, val);
            proof {
                assert forall|k: int| 0 <= k < 512 implies #[trigger] self@[k] == if i <= k < (kw
                    + 1) * 64 {
                    val
                } else {
                    old_v[k]
                } by {
                    if k / 64 == kw {
                        lemma_const_words((k % 64) as u64);
                    }
                }
            }
            kw += 1;
        }
        // Trailing partial word.
        let tail = mask_low_bits((j % 64) + 1);
        self.apply_mask(jw, tail, val);
        proof {
            assert forall|k: int| 0 <= k < 512 implies self@[k] == range_set(
                old_v,
                i as int,
                n as int,
                val,
            )[k] by {
                if k / 64 == jw {
                    lemma_low_mask_shifted(((j % 64) + 1) as u64, 0, (k % 64) as u64);
                    assert(tail << 0u64 == tail) by (bit_vector);
                }
            }
            assert(self@ =~= range_set(old_v, i as int, n as int, val));
        }
    }

    /// `setRange(i, n)` — mark pages `[i, i + n)` allocated.
    pub fn set_range(&mut self, i: usize, n: usize)
        requires
            1 <= n,
            i + n <= 512,
        ensures
            final(self)@ == range_set(old(self)@, i as int, n as int, true),
    {
        if n == 1 {
            self.set(i);
            assert(self@ =~= range_set(old(self)@, i as int, n as int, true));
            return;
        }
        self.write_range(i, n, true);
    }

    /// `clearRange(i, n)` — mark pages `[i, i + n)` free.
    pub fn clear_range(&mut self, i: usize, n: usize)
        requires
            1 <= n,
            i + n <= 512,
        ensures
            final(self)@ == range_set(old(self)@, i as int, n as int, false),
    {
        if n == 1 {
            self.clear(i);
            assert(self@ =~= range_set(old(self)@, i as int, n as int, false));
            return;
        }
        self.write_range(i, n, false);
    }

    /// `setAll()` — every page allocated.
    pub fn set_all(&mut self)
        ensures
            final(self)@ == Seq::new(512, |i: int| true),
    {
        let mut k: usize = 0;
        while k < PAGE_BITS_WORDS
            invariant
                k <= 8,
                forall|i: int| 0 <= i < 512 ==> #[trigger] self@[i] == if i < k * 64 {
                    true
                } else {
                    old(self)@[i]
                },
            decreases 8 - k,
        {
            self.apply_mask(k, u64::MAX, true);
            proof {
                assert forall|i: int| 0 <= i < 512 implies #[trigger] self@[i] == if i < (k + 1)
                    * 64 {
                    true
                } else {
                    old(self)@[i]
                } by {
                    lemma_const_words((i % 64) as u64);
                }
            }
            k += 1;
        }
        assert(self@ =~= Seq::new(512, |i: int| true));
    }

    /// `clearAll()` — every page free.
    pub fn clear_all(&mut self)
        ensures
            final(self)@ == Seq::new(512, |i: int| false),
    {
        let mut k: usize = 0;
        while k < PAGE_BITS_WORDS
            invariant
                k <= 8,
                forall|i: int| 0 <= i < 512 ==> #[trigger] self@[i] == if i < k * 64 {
                    false
                } else {
                    old(self)@[i]
                },
            decreases 8 - k,
        {
            self.apply_mask(k, u64::MAX, false);
            proof {
                assert forall|i: int| 0 <= i < 512 implies #[trigger] self@[i] == if i < (k + 1)
                    * 64 {
                    false
                } else {
                    old(self)@[i]
                } by {
                    lemma_const_words((i % 64) as u64);
                }
            }
            k += 1;
        }
        assert(self@ =~= Seq::new(512, |i: int| false));
    }

    /// `setBlock64(i, v)` — OR `v` into the word holding bit `i`.
    pub fn set_block64(&mut self, i: usize, v: u64)
        requires
            i < 512,
        ensures
            forall|k: int|
                0 <= k < 512 ==> #[trigger] final(self)@[k] == (old(self)@[k] || (k / 64 == i
                    / 64 && wbit(v, (k % 64) as u64))),
    {
        self.apply_mask(i / 64, v, true);
    }

    /// `popcntRange(i, n)` — allocated pages in `[i, i + n)`.
    pub fn popcnt_range(&self, i: usize, n: usize) -> (r: usize)
        requires
            1 <= n,
            i + n <= 512,
        ensures
            r == count_alloc(self@.subrange(i as int, i + n)),
    {
        let mut s: usize = 0;
        let mut k: usize = i;
        while k < i + n
            invariant
                i <= k <= i + n,
                i + n <= 512,
                s == count_alloc(self@.subrange(i as int, k as int)),
                s <= k - i,
            decreases i + n - k,
        {
            let b = self.get(k);
            proof {
                assert(self@.subrange(i as int, k + 1).drop_last() =~= self@.subrange(
                    i as int,
                    k as int,
                ));
            }
            if b == 1 {
                s += 1;
            }
            k += 1;
        }
        s
    }
}


/// A page sequence in which every page is allocated has no free run.
pub proof fn lemma_all_alloc(b: Seq<bool>)
    requires
        forall|i: int| 0 <= i < b.len() ==> b[i],
    ensures
        lead_free(b) == 0,
        trail_free(b) == 0,
        max_free(b) == 0,
    decreases b.len(),
{
    if b.len() > 0 {
        lemma_all_alloc(b.drop_last());
    }
}

/// Appending one page to a sequence.
proof fn lemma_push_one(p: Seq<bool>, x: bool)
    ensures
        p.push(x).drop_last() =~= p,
        lead_free(p.push(x)) == if lead_free(p) == p.len() && !x { p.len() + 1int } else {
            lead_free(p)
        },
        trail_free(p.push(x)) == if x { 0 } else { trail_free(p) + 1 },
        max_free(p.push(x)) == if max_free(p) >= trail_free(p.push(x)) { max_free(p) } else {
            trail_free(p.push(x))
        },
{
    assert(p.push(x).drop_last() =~= p);
    assert(p.push(x).last() == x);
}

proof fn lemma_word_zero_free(j: u64)
    by (bit_vector)
    requires
        j < 64,
    ensures
        !((0u64 >> j) & 1u64 == 1u64),
        (0xffff_ffff_ffff_ffffu64 >> j) & 1u64 == 1u64,
{
}

/// The word views of the all-free and all-allocated words.
proof fn lemma_const_word_views()
    ensures
        forall|j: int| 0 <= j < 64 ==> !#[trigger] word_view(0)[j],
        forall|j: int| 0 <= j < 64 ==> #[trigger] word_view(0xffff_ffff_ffff_ffffu64)[j],
{
    assert forall|j: int| 0 <= j < 64 implies !#[trigger] word_view(0)[j] by {
        lemma_word_zero_free(j as u64);
    }
    assert forall|j: int| 0 <= j < 64 implies #[trigger] word_view(0xffff_ffff_ffff_ffffu64)[j] by {
        lemma_word_zero_free(j as u64);
    }
}


/// The search's start: the first page of the word holding `search_idx`.
pub open spec fn search_base(search_idx: usize) -> int {
    (search_idx / 64) as int * 64
}

/// Page `64 i + j` of the chunk is bit `j` of word `i`.
proof fn lemma_word_bits(ws: [u64; 8], i: int)
    requires
        0 <= i < 8,
    ensures
        forall|j: int| 0 <= j < 64 ==> #[trigger] bits_view(ws)[i * 64 + j] == wbit(ws[i], j as u64),
{
    assert forall|j: int| 0 <= j < 64 implies #[trigger] bits_view(ws)[i * 64 + j] == wbit(
        ws[i],
        j as u64,
    ) by {
        assert((i * 64 + j) / 64 == i);
        assert((i * 64 + j) % 64 == j);
    }
}

/// Free and allocated bits around the trailing and leading zeros of a word.
pub proof fn lemma_zeros_bits(x: u64)
    ensures
        forall|j: int| 0 <= j < x.trailing_zeros() ==> !#[trigger] wbit(x, j as u64),
        x.trailing_zeros() < 64 ==> wbit(x, x.trailing_zeros() as u64),
        forall|j: int| 0 <= j < (!x).trailing_zeros() ==> #[trigger] wbit(x, j as u64),
        (!x).trailing_zeros() < 64 ==> !wbit(x, (!x).trailing_zeros() as u64),
        x.trailing_zeros() <= 64,
        (!x).trailing_zeros() <= 64,
        x == 0 <==> x.trailing_zeros() == 64,
        x == 0xffff_ffff_ffff_ffffu64 <==> (!x).trailing_zeros() == 64,
        0 <= vstd::std_specs::bits::u64_leading_zeros(x) <= 64,
        x == 0 <==> vstd::std_specs::bits::u64_leading_zeros(x) == 64,
        forall|j: int|
            64 - vstd::std_specs::bits::u64_leading_zeros(x) <= j < 64 ==> !#[trigger] wbit(
                x,
                j as u64,
            ),
        vstd::std_specs::bits::u64_leading_zeros(x) < 64 ==> wbit(
            x,
            (63 - vstd::std_specs::bits::u64_leading_zeros(x)) as u64,
        ),
{
    vstd::std_specs::bits::axiom_u64_trailing_zeros(x);
    vstd::std_specs::bits::axiom_u64_trailing_zeros(!x);
    vstd::std_specs::bits::axiom_u64_leading_zeros(x);
    assert(!0xffff_ffff_ffff_ffffu64 == 0u64) by (bit_vector);
    assert(forall|y: u64| !y == 0u64 ==> y == 0xffff_ffff_ffff_ffffu64) by (bit_vector);
    assert forall|j: int| 0 <= j < (!x).trailing_zeros() implies #[trigger] wbit(x, j as u64) by {
        lemma_or_bit(x, 0, j as u64);
        lemma_bit_is_01(!x, j as u64);
    }
    if (!x).trailing_zeros() < 64 {
        lemma_or_bit(x, 0, (!x).trailing_zeros() as u64);
    }
    assert forall|j: int| 0 <= j < x.trailing_zeros() implies !#[trigger] wbit(x, j as u64) by {
    }
    let lz = vstd::std_specs::bits::u64_leading_zeros(x);
    if lz < 64 {
        let q = (63 - lz) as u64;
        assert((63u64 - (lz as u64)) as u64 == q);
        lemma_bit_is_01(x, q);
    }
}

/// A search of `w` from `base` finds what a search of `v` from `s` does
/// when the runs of `w` from `base` on are those of `v` from `s` on.
proof fn lemma_fit_from(v: Seq<bool>, w: Seq<bool>, n: int, base: int, s: int, r: usize)
    requires
        n >= 1,
        base <= s,
        forall|m: int, p: int| m >= 1 && base <= p ==> (#[trigger] free_run_at(w, p, m) <==> (s <= p
            && free_run_at(v, p, m))),
        is_first_fit(w, n, base, r),
    ensures
        is_first_fit(v, n, s, r),
{
    if r == NO_INDEX {
        assert forall|p: int| s <= p implies !#[trigger] free_run_at(v, p, n) by {
            assert(!free_run_at(w, p, n));
        }
    } else {
        assert(free_run_at(w, r as int, n));
        assert forall|p: int| s <= p < r implies !#[trigger] free_run_at(v, p, n) by {
            assert(!free_run_at(w, p, n));
        }
    }
}

/// `pallocBits` — page bitmap with allocation semantics.
#[derive(Clone, Copy)]
pub struct PallocBits(pub PageBits);

impl View for PallocBits {
    type V = Seq<bool>;

    open spec fn view(&self) -> Seq<bool> {
        self.0@
    }
}

/// `r` is the first index `>= base` at which `n` free pages start, or
/// `NO_INDEX` when there is none.
pub open spec fn is_first_fit(v: Seq<bool>, n: int, base: int, r: usize) -> bool {
    if r == NO_INDEX {
        forall|p: int| base <= p ==> !#[trigger] free_run_at(v, p, n)
    } else {
        base <= r && free_run_at(v, r as int, n) && forall|p: int|
            base <= p < r ==> !#[trigger] free_run_at(v, p, n)
    }
}

/// `n` one-bits start at bit `p` of `c`.
pub open spec fn ones_run(c: u64, p: int, n: int) -> bool {
    0 <= p && p + n <= 64 && forall|k: int| p <= k < p + n ==> #[trigger] wbit(c, k as u64)
}

/// Bit `j` of `c` holds the AND of bits `[j, j + k)` of `c0`, bits past 63
/// counting as zero.
spec fn covers(c: u64, c0: u64, k: int) -> bool {
    forall|j: int|
        0 <= j < 64 ==> #[trigger] wbit(c, j as u64) == (j + k <= 64 && forall|t: int|
            j <= t < j + k ==> #[trigger] wbit(c0, t as u64))
}

proof fn lemma_shr_bit(c: u64, k: u64, j: u64)
    by (bit_vector)
    requires
        k < 64,
        j < 64,
    ensures
        (((c >> k) >> j) & 1u64 == 1u64) == (j + k < 64 && (c >> ((j + k) as u64)) & 1u64
            == 1u64),
{
}

proof fn lemma_covers_step(c: u64, c0: u64, k: int, s: int)
    requires
        covers(c, c0, k),
        1 <= s <= k,
        k < 64,
    ensures
        covers(c & (c >> (s as u64)), c0, k + s),
{
    let c2 = c & (c >> (s as u64));
    assert forall|j: int| 0 <= j < 64 implies #[trigger] wbit(c2, j as u64) == (j + k + s <= 64
        && forall|t: int| j <= t < j + k + s ==> #[trigger] wbit(c0, t as u64)) by {
        lemma_or_bit(c, c >> (s as u64), j as u64);
        lemma_shr_bit(c, s as u64, j as u64);
        let a = wbit(c, j as u64);
        assert(a == (j + k <= 64 && forall|t: int| j <= t < j + k ==> #[trigger] wbit(c0, t as u64)));
        let bb = j + s < 64 && wbit(c, (j + s) as u64);
        assert(wbit(c >> (s as u64), j as u64) == bb);
        assert(wbit(c2, j as u64) == (a && bb));
        if j + s < 64 {
            assert(wbit(c, (j + s) as u64) == (j + s + k <= 64 && forall|t: int|
                j + s <= t < j + s + k ==> #[trigger] wbit(c0, t as u64)));
        }
        if a && bb {
            assert forall|t: int| j <= t < j + k + s implies #[trigger] wbit(c0, t as u64) by {
                if t < j + k {
                    assert(j <= t < j + k);
                } else {
                    assert(j + s <= t < j + s + k);
                }
            }
        }
        if j + k + s <= 64 && forall|t: int| j <= t < j + k + s ==> #[trigger] wbit(c0, t as u64) {
            assert forall|t: int| j <= t < j + k implies #[trigger] wbit(c0, t as u64) by {
                assert(j <= t < j + k + s);
            }
            assert forall|t: int| j + s <= t < j + s + k implies #[trigger] wbit(c0, t as u64) by {
                assert(j <= t < j + k + s);
            }
            assert(a);
            assert(bb);
        }
    }
}

proof fn lemma_covers_implies(c: u64, c0: u64, k: int, q: int, n: int)
    requires
        covers(c, c0, k),
        1 <= k <= n,
        ones_run(c0, q, n),
    ensures
        wbit(c, q as u64),
{
    assert forall|t: int| q <= t < q + k implies #[trigger] wbit(c0, t as u64) by {
        assert(q <= t < q + n);
    }
    assert(q + k <= 64);
}

/// `findBitRange64(c, n)` — the bit index of the first run of `n`
/// consecutive one-bits in `c`, or 64 when there is none.
pub fn find_bit_range64(c: u64, n: usize) -> (r: usize)
    requires
        1 <= n <= 64,
    ensures
        r <= 64,
        r < 64 ==> ones_run(c, r as int, n as int),
        forall|p: int| 0 <= p < r ==> !#[trigger] ones_run(c, p, n as int),
{
    let ghost c0 = c;
    let mut x = c;
    let mut p = n - 1;
    let mut k: usize = 1;
    proof {
        assert forall|j: int| 0 <= j < 64 implies #[trigger] wbit(x, j as u64) == (j + 1 <= 64
            && forall|t: int| j <= t < j + 1 ==> #[trigger] wbit(c0, t as u64)) by {
            assert(j <= j < j + 1);
        }
    }
    while p > 0
        invariant_except_break
            p + k == n,
            1 <= k,
            n <= 64,
            covers(x, c0, k as int),
        invariant
            c0 == c,
        ensures
            covers(x, c0, n as int),
        decreases p,
    {
        if p <= k {
            proof {
                lemma_covers_step(x, c0, k as int, p as int);
            }
            assert((p as u64) & 63 == p as u64) by (bit_vector)
                requires
                    p < 64,
            ;
            x = x & (x >> ((p as u64) & 63));
            break;
        }
        proof {
            lemma_covers_step(x, c0, k as int, k as int);
        }
        assert((k as u64) & 63 == k as u64) by (bit_vector)
            requires
                k < 64,
        ;
        x = x & (x >> ((k as u64) & 63));
        if x == 0 {
            proof {
                assert(covers(x, c0, (k + k) as int));
                assert forall|q: int| 0 <= q < 64 implies !#[trigger] ones_run(c0, q, n as int) by {
                    lemma_word_zero_free(q as u64);
                    if ones_run(c0, q, n as int) {
                        lemma_covers_implies(x, c0, (k + k) as int, q, n as int);
                    }
                }
            }
            return 64;
        }
        p -= k;
        k *= 2;
    }
    proof {
        vstd::std_specs::bits::axiom_u64_trailing_zeros(x);
    }
    if x == 0 {
        proof {
            assert forall|q: int| 0 <= q < 64 implies !#[trigger] ones_run(c0, q, n as int) by {
                lemma_word_zero_free(q as u64);
                if ones_run(c0, q, n as int) {
                    lemma_covers_implies(x, c0, n as int, q, n as int);
                }
            }
        }
        return 64;
    }
    let r = x.trailing_zeros() as usize;
    proof {
        assert(wbit(x, r as u64));
        assert forall|q: int| 0 <= q < r implies !#[trigger] ones_run(c0, q, n as int) by {
            assert((x >> (q as u64)) & 1u64 == 0u64);
            if ones_run(c0, q, n as int) {
                lemma_covers_implies(x, c0, n as int, q, n as int);
            }
        }
    }
    r
}

/// Running state of `summarize`: `start` is `NO_INDEX` while every page
/// seen so far is free, `most` the longest free run seen, `cur` the free
/// run at the end of what was seen.
struct RunState {
    start: usize,
    most: usize,
    cur: usize,
}

impl RunState {
    spec fn describes(self, p: Seq<bool>) -> bool {
        &&& p.len() <= 512
        &&& self.cur as int == trail_free(p)
        &&& self.most as int == max_free(p)
        &&& (self.start == NO_INDEX <==> lead_free(p) == p.len())
        &&& (self.start != NO_INDEX ==> self.start as int == lead_free(p))
    }
}

/// Fold one 64-page word into the running state.
fn summarize_word(st: RunState, x: u64, Ghost(pre): Ghost<Seq<bool>>) -> (r: RunState)
    requires
        st.describes(pre),
        pre.len() + 64 <= 512,
    ensures
        r.describes(pre + word_view(x)),
{
    proof {
        lemma_run_bounds(pre);
        lemma_run_summary_concat(pre, word_view(x));
        lemma_const_word_views();
    }
    let mut st = st;
    if x == 0 {
        proof {
            lemma_run_bounds(word_view(x));
        }
        st.cur = st.cur + 64;
        if st.cur > st.most {
            st.most = st.cur;
        }
        return st;
    }
    if x == u64::MAX {
        proof {
            lemma_all_alloc(word_view(x));
        }
        if st.start == NO_INDEX {
            st.start = st.cur;
        }
        st.cur = 0;
        return st;
    }
    let mut b: u64 = 0;
    assert(pre + word_view(x).take(0) =~= pre);
    while b < 64
        invariant
            b <= 64,
            pre.len() + 64 <= 512,
            st.describes(pre + word_view(x).take(b as int)),
            st.most <= pre.len() + b,
        decreases 64 - b,
    {
        let bit = (x >> b) & 1;
        proof {
            lemma_bit_is_01(x, b);
            let q = pre + word_view(x).take(b as int);
            assert(pre + word_view(x).take(b + 1) =~= q.push(word_view(x)[b as int]));
            lemma_push_one(q, word_view(x)[b as int]);
            lemma_run_bounds(q);
        }
        if bit == 0 {
            st.cur = st.cur + 1;
            if st.cur > st.most {
                st.most = st.cur;
            }
        } else {
            if st.start == NO_INDEX {
                st.start = st.cur;
            }
            st.cur = 0;
        }
        b += 1;
    }
    assert(word_view(x).take(64) =~= word_view(x));
    st
}

impl PallocBits {
    /// All pages free.
    pub fn zero() -> (r: Self)
        ensures
            r@ == Seq::new(512, |i: int| false),
    {
        PallocBits(PageBits::zero())
    }

    /// Mark pages `[i, i + n)` allocated.
    pub fn alloc_range(&mut self, i: usize, n: usize)
        requires
            1 <= n,
            i + n <= 512,
        ensures
            final(self)@ == range_set(old(self)@, i as int, n as int, true),
    {
        self.0.set_range(i, n);
    }

    /// Mark pages `[i, i + n)` free.
    pub fn free(&mut self, i: usize, n: usize)
        requires
            1 <= n,
            i + n <= 512,
        ensures
            final(self)@ == range_set(old(self)@, i as int, n as int, false),
    {
        self.0.clear_range(i, n);
    }

    /// The 64-bit word of page bits holding page `i`.
    pub fn pages64(&self, i: usize) -> (r: u64)
        requires
            i < 512,
        ensures
            r == self.0.0[(i / 64) as int],
            word_view(r) =~= self@.subrange((i / 64) * 64, (i / 64) * 64 + 64),
    {
        self.0.block64(i)
    }

    /// Mark allocated the pages of the word holding page `i` that `alloc`
    /// has set.
    pub fn alloc_pages64(&mut self, i: usize, alloc: u64)
        requires
            i < 512,
        ensures
            forall|k: int|
                0 <= k < 512 ==> #[trigger] final(self)@[k] == (old(self)@[k] || (k / 64 == i
                    / 64 && wbit(alloc, (k % 64) as u64))),
    {
        self.0.set_block64(i, alloc);
    }

    /// `summarize()` — fold the bitmap into its `(start, max, end)` summary.
    pub fn summarize(&self) -> (r: PallocSum)
        ensures
            r@ == run_summary(self@),
    {
        let ghost v = self@;
        let mut st = RunState { start: NO_INDEX, most: 0, cur: 0 };
        let mut w: usize = 0;
        assert(v.take(0) =~= Seq::<bool>::empty());
        while w < PAGE_BITS_WORDS
            invariant
                w <= 8,
                v == self@,
                v.len() == 512,
                st.describes(v.take(w * 64)),
            decreases 8 - w,
        {
            let x = self.0.0[w];
            proof {
                lemma_word_slice(self.0.0, w as int);
                assert(v.take((w + 1) * 64) =~= v.take(w * 64) + word_view(x));
            }
            st = summarize_word(st, x, Ghost(v.take(w * 64)));
            w += 1;
        }
        assert(v.take(512) =~= v);
        proof {
            lemma_run_bounds(v);
        }
        if st.start == NO_INDEX {
            return PallocSum::pack(PALLOC_CHUNK_PAGES, PALLOC_CHUNK_PAGES, PALLOC_CHUNK_PAGES);
        }
        PallocSum::pack(st.start, st.most, st.cur)
    }

    /// `find(npages, search_idx)` — the first run of `npages` free pages
    /// starting at or after page `search_idx`, and the first free page
    /// at or after it (the next search's start); `NO_INDEX` for either
    /// when there is none.
    pub fn find(&self, npages: usize, search_idx: usize) -> (r: (usize, usize))
        requires
            npages >= 1,
        ensures
            is_first_fit(self@, npages as int, search_idx as int, r.0),
            is_first_fit(self@, 1, search_idx as int, r.1),
    {
        // The scans below start at the word holding `search_idx`; the
        // pages of that word before it are taken out of the search by
        // marking them allocated in a copy.
        let mut m = *self;
        if search_idx < 512 && search_idx % 64 != 0 {
            let lo = search_idx - search_idx % 64;
            m.alloc_range(lo, search_idx - lo);
        }
        let ghost base = search_base(search_idx);
        proof {
            assert forall|n: int, p: int| n >= 1 && base <= p implies (#[trigger] free_run_at(m@, p, n) <==> (
            search_idx <= p && free_run_at(self@, p, n))) by {
                if p < search_idx && p < 512 {
                    assert(m@[p]);
                } else if p >= search_idx {
                    assert forall|k: int| p <= k < 512 implies m@[k] == self@[k] by {}
                }
            }
        }
        let r = if npages == 1 {
            let addr = m.find1(search_idx);
            (addr, addr)
        } else if npages <= 64 {
            m.find_small_n(npages, search_idx)
        } else {
            m.find_large_n(npages, search_idx)
        };
        proof {
            lemma_fit_from(self@, m@, npages as int, base, search_idx as int, r.0);
            lemma_fit_from(self@, m@, 1, base, search_idx as int, r.1);
        }
        r
    }

    fn find1(&self, search_idx: usize) -> (r: usize)
        ensures
            is_first_fit(self@, 1, search_base(search_idx), r),
    {
        let ghost v = self@;
        let ghost base = search_base(search_idx);
        let mut i = search_idx / 64;
        while i < PAGE_BITS_WORDS
            invariant
                v == self@,
                base == search_base(search_idx),
                base <= i * 64,
                forall|p: int| base <= p < i * 64 ==> !#[trigger] free_run_at(v, p, 1),
            decreases 8 - i,
        {
            let x = self.0.0[i];
            proof {
                lemma_word_bits(self.0.0, i as int);
                lemma_zeros_bits(x);
            }
            if !x == 0 {
                proof {
                    assert(!0u64 == 0xffff_ffff_ffff_ffffu64) by (bit_vector);
                    assert(forall|y: u64| !y == 0u64 ==> y == 0xffff_ffff_ffff_ffffu64) by (bit_vector);
                    assert forall|p: int| base <= p < (i + 1) * 64 implies !#[trigger] free_run_at(v, p, 1) by {
                        if p >= i * 64 {
                            lemma_word_zero_free((p - i * 64) as u64);
                            assert(v[i * 64 + (p - i * 64)] == wbit(x, (p - i * 64) as u64));
                        }
                    }
                }
                i += 1;
                continue;
            }
            let r = i * 64 + (!x).trailing_zeros() as usize;
            proof {
                assert(!x != 0);
                assert(x != 0xffff_ffff_ffff_ffffu64);
                let t = (!x).trailing_zeros() as int;
                assert(v[i * 64 + t] == wbit(x, t as u64));
                assert(free_run_at(v, r as int, 1));
                assert forall|p: int| base <= p < r implies !#[trigger] free_run_at(v, p, 1) by {
                    if p >= i * 64 {
                        assert(v[i * 64 + (p - i * 64)] == wbit(x, (p - i * 64) as u64));
                    }
                }
            }
            return r;
        }
        NO_INDEX
    }

    fn find_small_n(&self, npages: usize, search_idx: usize) -> (r: (usize, usize))
        requires
            1 <= npages <= 64,
        ensures
            is_first_fit(self@, npages as int, search_base(search_idx), r.0),
            is_first_fit(self@, 1, search_base(search_idx), r.1),
    {
        let ghost v = self@;
        let ghost base = search_base(search_idx);
        let ghost n = npages as int;
        let mut end: usize = 0;
        let mut new_search_idx: usize = NO_INDEX;
        let mut i = search_idx / 64;
        while i < PAGE_BITS_WORDS
            invariant
                v == self@,
                v.len() == 512,
                n == npages,
                1 <= npages <= 64,
                base == search_base(search_idx),
                base <= i * 64,
                end < npages,
                base <= i * 64 - end,
                forall|k: int| i * 64 - end <= k < i * 64 ==> !#[trigger] v[k],
                forall|p: int| base <= p < i * 64 - end ==> !#[trigger] free_run_at(v, p, n),
                new_search_idx == NO_INDEX ==> forall|p: int|
                    base <= p < i * 64 ==> !#[trigger] free_run_at(v, p, 1),
                new_search_idx != NO_INDEX ==> is_first_fit(v, 1, base, new_search_idx),
            decreases 8 - i,
        {
            let bi = self.0.0[i];
            proof {
                lemma_word_bits(self.0.0, i as int);
                lemma_zeros_bits(bi);
                assert(forall|y: u64| !y == 0u64 ==> y == 0xffff_ffff_ffff_ffffu64) by (bit_vector);
            }
            if !bi == 0 {
                proof {
                    assert(bi == 0xffff_ffff_ffff_ffffu64);
                    assert forall|k: int| i * 64 <= k < (i + 1) * 64 implies #[trigger] v[k] by {
                        lemma_word_zero_free((k - i * 64) as u64);
                        assert(v[i * 64 + (k - i * 64)] == wbit(bi, (k - i * 64) as u64));
                    }
                    assert forall|p: int| base <= p < (i + 1) * 64 implies !#[trigger] free_run_at(v, p, n) by {
                        if p >= i * 64 - end && free_run_at(v, p, n) {
                            if p < i * 64 {
                                assert(p <= i * 64 < p + n);
                                assert(v[i * 64]);
                            } else {
                                assert(v[p]);
                            }
                        }
                    }
                    if new_search_idx == NO_INDEX {
                        assert forall|p: int| base <= p < (i + 1) * 64 implies !#[trigger] free_run_at(v, p, 1) by {
                            if p >= i * 64 {
                                assert(v[p]);
                            }
                        }
                    }
                }
                end = 0;
                i += 1;
                continue;
            }
            if new_search_idx == NO_INDEX {
                new_search_idx = i * 64 + (!bi).trailing_zeros() as usize;
                proof {
                    let t = (!bi).trailing_zeros() as int;
                    assert(t < 64);
                    assert(v[i * 64 + t] == wbit(bi, t as u64));
                    assert forall|p: int| base <= p < new_search_idx implies !#[trigger] free_run_at(v, p, 1) by {
                        if p >= i * 64 {
                            assert(v[i * 64 + (p - i * 64)] == wbit(bi, (p - i * 64) as u64));
                        }
                    }
                }
            }
            let start = bi.trailing_zeros() as usize;
            if end + start >= npages {
                let r = i * 64 - end;
                proof {
                    assert forall|k: int| r <= k < r + n implies !#[trigger] v[k] by {
                        if k >= i * 64 {
                            assert(v[i * 64 + (k - i * 64)] == wbit(bi, (k - i * 64) as u64));
                        }
                    }
                    assert(free_run_at(v, r as int, n));
                }
                return (r, new_search_idx);
            }
            // A run of `npages` free pages inside this word.
            let j = find_bit_range64(!bi, npages);
            proof {
                assert(start < 64);
                assert(v[i * 64 + start] == wbit(bi, start as u64));
                // Runs straddling into this word from below stop at `start`.
                assert forall|p: int| i * 64 - end <= p < i * 64 implies !#[trigger] free_run_at(v, p, n) by {
                    if free_run_at(v, p, n) {
                        assert(p <= i * 64 + start < p + n);
                    }
                }
            }
            if j < 64 {
                let r = i * 64 + j;
                proof {
                    assert forall|k: int| r <= k < r + n implies !#[trigger] v[k] by {
                        let t = k - i * 64;
                        assert(j <= t < j + n);
                        assert(wbit(!bi, t as u64));
                        lemma_or_bit(bi, 0, t as u64);
                        assert(v[i * 64 + t] == wbit(bi, t as u64));
                    }
                    assert forall|p: int| base <= p < r implies !#[trigger] free_run_at(v, p, n) by {
                        if p >= i * 64 && free_run_at(v, p, n) {
                            let q = p - i * 64;
                            assert(q + n <= 64);
                            assert forall|t: int| q <= t < q + n implies #[trigger] wbit(!bi, t as u64) by {
                                lemma_or_bit(bi, 0, t as u64);
                                assert(v[i * 64 + t] == wbit(bi, t as u64));
                                assert(!v[i * 64 + t]);
                            }
                            assert(ones_run(!bi, q, n));
                        }
                    }
                }
                return (r, new_search_idx);
            }
            let lz = bi.leading_zeros() as usize;
            proof {
                let l = lz as int;
                assert(l < 64);
                assert(l < n) by {
                    if l >= n {
                        let q = 64 - l;
                        assert forall|t: int| q <= t < q + n implies #[trigger] wbit(!bi, t as u64) by {
                            lemma_or_bit(bi, 0, t as u64);
                        }
                        assert(ones_run(!bi, q, n));
                    }
                }
                assert(v[i * 64 + (63 - l)] == wbit(bi, (63 - l) as u64));
                assert forall|k: int| (i + 1) * 64 - l <= k < (i + 1) * 64 implies !#[trigger] v[k] by {
                    assert(v[i * 64 + (k - i * 64)] == wbit(bi, (k - i * 64) as u64));
                }
                assert forall|p: int| base <= p < (i + 1) * 64 - l implies !#[trigger] free_run_at(v, p, n) by {
                    if p >= i * 64 && free_run_at(v, p, n) {
                        let q = p - i * 64;
                        if q + n <= 64 {
                            assert forall|t: int| q <= t < q + n implies #[trigger] wbit(!bi, t as u64) by {
                                lemma_or_bit(bi, 0, t as u64);
                                assert(v[i * 64 + t] == wbit(bi, t as u64));
                                assert(!v[i * 64 + t]);
                            }
                            assert(ones_run(!bi, q, n));
                        } else {
                            assert(p <= i * 64 + (63 - l) < p + n);
                        }
                    }
                }
            }
            end = lz;
            i += 1;
        }
        proof {
            assert forall|p: int| base <= p implies !#[trigger] free_run_at(v, p, n) by {
                if p >= 512 - end && free_run_at(v, p, n) {
                    assert(p + n > 512);
                }
            }
        }
        (NO_INDEX, new_search_idx)
    }

    fn find_large_n(&self, npages: usize, search_idx: usize) -> (r: (usize, usize))
        requires
            npages > 64,
        ensures
            is_first_fit(self@, npages as int, search_base(search_idx), r.0),
            is_first_fit(self@, 1, search_base(search_idx), r.1),
    {
        let ghost v = self@;
        let ghost base = search_base(search_idx);
        let ghost n = npages as int;
        let mut start: usize = NO_INDEX;
        let mut size: usize = 0;
        let mut new_search_idx: usize = NO_INDEX;
        let mut i = search_idx / 64;
        while i < PAGE_BITS_WORDS
            invariant
                v == self@,
                v.len() == 512,
                n == npages,
                npages > 64,
                base == search_base(search_idx),
                base <= i * 64,
                size < npages,
                base <= i * 64 - size,
                size > 0 ==> start == i * 64 - size,
                forall|k: int| i * 64 - size <= k < i * 64 ==> !#[trigger] v[k],
                forall|p: int| base <= p < i * 64 - size ==> !#[trigger] free_run_at(v, p, n),
                new_search_idx == NO_INDEX ==> forall|p: int|
                    base <= p < i * 64 ==> !#[trigger] free_run_at(v, p, 1),
                new_search_idx != NO_INDEX ==> is_first_fit(v, 1, base, new_search_idx),
            decreases 8 - i,
        {
            let x = self.0.0[i];
            proof {
                lemma_word_bits(self.0.0, i as int);
                lemma_zeros_bits(x);
            }
            if x == u64::MAX {
                proof {
                    assert forall|k: int| i * 64 <= k < (i + 1) * 64 implies #[trigger] v[k] by {
                        lemma_word_zero_free((k - i * 64) as u64);
                        assert(v[i * 64 + (k - i * 64)] == wbit(x, (k - i * 64) as u64));
                    }
                    assert forall|p: int| base <= p < (i + 1) * 64 implies !#[trigger] free_run_at(v, p, n) by {
                        if p >= i * 64 - size && free_run_at(v, p, n) {
                            if p < i * 64 {
                                assert(p <= i * 64 < p + n);
                                assert(v[i * 64]);
                            } else {
                                assert(v[p]);
                            }
                        }
                    }
                    if new_search_idx == NO_INDEX {
                        assert forall|p: int| base <= p < (i + 1) * 64 implies !#[trigger] free_run_at(v, p, 1) by {
                            if p >= i * 64 {
                                assert(v[p]);
                            }
                        }
                    }
                }
                size = 0;
                i += 1;
                continue;
            }
            if new_search_idx == NO_INDEX {
                new_search_idx = i * 64 + (!x).trailing_zeros() as usize;
                proof {
                    let t = (!x).trailing_zeros() as int;
                    assert(t < 64);
                    assert(v[i * 64 + t] == wbit(x, t as u64));
                    assert forall|p: int| base <= p < new_search_idx implies !#[trigger] free_run_at(v, p, 1) by {
                        if p >= i * 64 {
                            assert(v[i * 64 + (p - i * 64)] == wbit(x, (p - i * 64) as u64));
                        }
                    }
                }
            }
            if size == 0 {
                size = x.leading_zeros() as usize;
                start = i * 64 + 64 - size;
                proof {
                    let l = size as int;
                    assert forall|k: int| (i + 1) * 64 - l <= k < (i + 1) * 64 implies !#[trigger] v[k] by {
                        assert(v[i * 64 + (k - i * 64)] == wbit(x, (k - i * 64) as u64));
                    }
                    if l < 64 {
                        assert(v[i * 64 + (63 - l)] == wbit(x, (63 - l) as u64));
                    }
                    assert forall|p: int| base <= p < (i + 1) * 64 - l implies !#[trigger] free_run_at(v, p, n) by {
                        if p >= i * 64 && free_run_at(v, p, n) {
                            assert(p <= i * 64 + (63 - l) < p + n);
                        }
                    }
                }
                i += 1;
                continue;
            }
            let s = x.trailing_zeros() as usize;
            if s + size >= npages {
                proof {
                    assert forall|k: int| start <= k < start + n implies !#[trigger] v[k] by {
                        if k >= i * 64 {
                            assert(v[i * 64 + (k - i * 64)] == wbit(x, (k - i * 64) as u64));
                        }
                    }
                    assert(free_run_at(v, start as int, n));
                }
                return (start, new_search_idx);
            }
            if s < 64 {
                proof {
                    assert(v[i * 64 + s] == wbit(x, s as u64));
                    let l = vstd::std_specs::bits::u64_leading_zeros(x);
                    assert(l < 64);
                    assert(v[i * 64 + (63 - l)] == wbit(x, (63 - l) as u64));
                    assert forall|k: int| (i + 1) * 64 - l <= k < (i + 1) * 64 implies !#[trigger] v[k] by {
                        assert(v[i * 64 + (k - i * 64)] == wbit(x, (k - i * 64) as u64));
                    }
                    assert forall|p: int| base <= p < (i + 1) * 64 - l implies !#[trigger] free_run_at(v, p, n) by {
                        if p >= i * 64 - size && free_run_at(v, p, n) {
                            if p < i * 64 {
                                assert(p <= i * 64 + s < p + n);
                            } else {
                                assert(p <= i * 64 + (63 - l) < p + n);
                            }
                        }
                    }
                }
                size = x.leading_zeros() as usize;
                start = i * 64 + 64 - size;
                i += 1;
                continue;
            }
            proof {
                assert forall|k: int| i * 64 - size <= k < (i + 1) * 64 implies !#[trigger] v[k] by {
                    if k >= i * 64 {
                        assert(v[i * 64 + (k - i * 64)] == wbit(x, (k - i * 64) as u64));
                    }
                }
            }
            size += 64;
            i += 1;
        }
        if size < npages {
            proof {
                assert forall|p: int| base <= p implies !#[trigger] free_run_at(v, p, n) by {
                    if p >= 512 - size && free_run_at(v, p, n) {
                        assert(p + n > 512);
                    }
                }
            }
            return (NO_INDEX, new_search_idx);
        }
        (start, new_search_idx)
    }

}

} // verus!
