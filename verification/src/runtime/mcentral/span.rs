//! A span: a run of pages cut into `nelems` slots of `elemsize` bytes,
//! with a 1024-bit allocation bitmap (1 = allocated), a count of
//! allocated slots, and the owner's cache of reserved slots.
use vstd::prelude::*;
use crate::runtime::mheap::palloc_bits::{
    wbit, word_view, count_alloc, lemma_or_bit, lemma_bit_is_01, lemma_one_bit, lemma_const_words,
    lemma_high_mask, lemma_zeros_bits,
};
use crate::runtime::mheap::page_alloc::lemma_count_concat;

verus! {

/// "No span".
pub const NIL_SPAN: u16 = 0;
/// Bits of a span's allocation bitmap.
pub const MAX_OBJS_PER_SPAN: usize = 1024;
/// Words of a span's allocation bitmap.
pub const ALLOC_BITS_WORDS: usize = 16;

/// One run of pages serving one size class.
pub struct Span {
    /// Address of the span's first page.
    pub base: usize,
    /// Span size in pages.
    pub npages: u16,
    /// Bytes per slot.
    pub elemsize: u32,
    /// Number of slots.
    pub nelems: u16,
    /// Size class; 0 when unused.
    pub sizeclass: u8,
    /// Allocated slots, reserved-but-unsold ones included.
    pub alloc_count: u16,
    /// Where the next scan for a free slot starts.
    pub freeindex: u16,
    /// Slot bitmap: bit `i % 64` of word `i / 64` is slot `i`.
    pub alloc_bits: [u64; 16],
    /// The owner's reserved slots, shifted so that bit 0 is `freeindex`.
    pub alloc_cache: u64,
    /// List links.
    pub next: u16,
    pub prev: u16,
    /// Held by an owner's cache.
    pub cached: bool,
}

/// Slot `i` is allocated in the bitmap `ws`.
pub open spec fn slot_bit(ws: [u64; 16], i: int) -> bool {
    wbit(ws[i / 64], (i % 64) as u64)
}

/// Allocated bits of a word.
pub open spec fn word_count(w: u64) -> int {
    count_alloc(word_view(w))
}

/// Allocated bits of the first `n` words.
pub open spec fn words_total(ws: [u64; 16], n: int) -> int
    decreases n,
{
    if n <= 0 {
        0
    } else {
        words_total(ws, n - 1) + word_count(ws[n - 1])
    }
}

impl Span {
    /// The 1024 slot bits, `true` for allocated.
    pub open spec fn slots(self) -> Seq<bool> {
        Seq::new(1024, |i: int| slot_bit(self.alloc_bits, i))
    }

    /// Number of allocated bits in the bitmap.
    pub open spec fn popcount(self) -> int {
        words_total(self.alloc_bits, 16)
    }

    /// The count agrees with the bitmap.
    pub open spec fn counted(self) -> bool {
        self.alloc_count == self.popcount()
    }

    /// Everything but the bitmap, the count, the scan start and the
    /// cache is the same in `a` and `b`.
    pub open spec fn same_layout(a: Span, b: Span) -> bool {
        &&& a.base == b.base
        &&& a.npages == b.npages
        &&& a.elemsize == b.elemsize
        &&& a.nelems == b.nelems
        &&& a.sizeclass == b.sizeclass
        &&& a.next == b.next
        &&& a.prev == b.prev
        &&& a.cached == b.cached
    }
}

proof fn lemma_words_total_bounds(ws: [u64; 16], n: int)
    requires
        0 <= n <= 16,
    ensures
        0 <= words_total(ws, n) <= 64 * n,
    decreases n,
{
    if n > 0 {
        lemma_words_total_bounds(ws, n - 1);
        lemma_count_concat(Seq::<bool>::empty(), word_view(ws[n - 1]));
        assert(Seq::<bool>::empty() + word_view(ws[n - 1]) =~= word_view(ws[n - 1]));
    }
}

/// Replacing word `wi` changes the total by the difference of its counts.
proof fn lemma_words_total_update(a: [u64; 16], b: [u64; 16], wi: int, n: int)
    requires
        0 <= wi < 16,
        0 <= n <= 16,
        forall|k: int| 0 <= k < 16 && k != wi ==> a[k] == b[k],
    ensures
        words_total(b, n) == words_total(a, n) + if wi < n { word_count(b[wi]) - word_count(a[wi]) } else { 0 },
    decreases n,
{
    if n > 0 {
        lemma_words_total_update(a, b, wi, n - 1);
    }
}

/// Allocated entries of `s` with entry `k` set to `v`.
proof fn lemma_count_update(s: Seq<bool>, k: int, v: bool)
    requires
        0 <= k < s.len(),
    ensures
        count_alloc(s.update(k, v)) == count_alloc(s) - (if s[k] { 1int } else { 0int }) + (if v { 1int } else { 0int }),
{
    let a = s.subrange(0, k);
    let c = s.subrange(k + 1, s.len() as int);
    assert(s =~= a + seq![s[k]] + c);
    assert(s.update(k, v) =~= a + seq![v] + c);
    lemma_count_concat(a, seq![s[k]]);
    lemma_count_concat(a + seq![s[k]], c);
    lemma_count_concat(a, seq![v]);
    lemma_count_concat(a + seq![v], c);
    assert(seq![s[k]].drop_last() =~= Seq::<bool>::empty());
    assert(seq![v].drop_last() =~= Seq::<bool>::empty());
}

/// Setting or clearing bit `b` of `w`.
proof fn lemma_word_bit_update(w: u64, b: u64)
    requires
        b < 64,
    ensures
        word_view(w | (1u64 << b)) == word_view(w).update(b as int, true),
        word_view(w & !(1u64 << b)) == word_view(w).update(b as int, false),
        wbit(w, b) ==> w | (1u64 << b) == w,
        !wbit(w, b) ==> w & !(1u64 << b) == w,
{
    assert forall|j: int| 0 <= j < 64 implies #[trigger] word_view(w | (1u64 << b))[j] == word_view(w).update(b as int, true)[j] by {
        lemma_or_bit(w, 1u64 << b, j as u64);
        lemma_one_bit(b, j as u64);
    }
    assert forall|j: int| 0 <= j < 64 implies #[trigger] word_view(w & !(1u64 << b))[j] == word_view(w).update(b as int, false)[j] by {
        lemma_or_bit(w, 1u64 << b, j as u64);
        lemma_one_bit(b, j as u64);
    }
    assert(word_view(w | (1u64 << b)) =~= word_view(w).update(b as int, true));
    assert(word_view(w & !(1u64 << b)) =~= word_view(w).update(b as int, false));
    assert(wbit(w, b) ==> w | (1u64 << b) == w) by (bit_vector);
    assert(!wbit(w, b) ==> w & !(1u64 << b) == w) by (bit_vector);
}

/// The slots of `b` are those of `a` with word `wi` replaced.
proof fn lemma_slots_word(a: Span, b: Span, wi: int)
    requires
        0 <= wi < 16,
        forall|k: int| 0 <= k < 16 && k != wi ==> a.alloc_bits[k] == b.alloc_bits[k],
    ensures
        forall|i: int|
            0 <= i < 1024 && i / 64 != wi ==> #[trigger] b.slots()[i] == a.slots()[i],
        forall|j: int| 0 <= j < 64 ==> #[trigger] b.slots()[wi * 64 + j] == wbit(b.alloc_bits[wi], j as u64),
{
    assert forall|j: int| 0 <= j < 64 implies #[trigger] b.slots()[wi * 64 + j] == wbit(b.alloc_bits[wi], j as u64) by {
        assert((wi * 64 + j) / 64 == wi);
        assert((wi * 64 + j) % 64 == j);
    }
}

/// Set bits of a word, counted one by one.
fn popcount64(w: u64) -> (r: u32)
    ensures
        r == word_count(w),
        r <= 64,
{
    let mut n: u32 = 0;
    let mut j: u64 = 0;
    proof {
        assert(word_view(w).take(0) =~= Seq::<bool>::empty());
    }
    while j < 64
        invariant
            j <= 64,
            n == count_alloc(word_view(w).take(j as int)),
            n <= j,
        decreases 64 - j,
    {
        proof {
            assert(word_view(w).take(j + 1).drop_last() =~= word_view(w).take(j as int));
            lemma_bit_is_01(w, j);
        }
        if (w >> j) & 1 == 1 {
            n += 1;
        }
        j += 1;
    }
    proof {
        assert(word_view(w).take(64) =~= word_view(w));
    }
    n
}

impl Span {
    /// `new` — an unused span: no slots, nothing allocated.
    pub fn new() -> (r: Span)
        ensures
            r.base == 0 && r.npages == 0 && r.elemsize == 0 && r.nelems == 0 && r.sizeclass == 0,
            r.alloc_count == 0 && r.freeindex == 0 && r.alloc_cache == 0,
            r.next == NIL_SPAN && r.prev == NIL_SPAN && !r.cached,
            forall|i: int| 0 <= i < 1024 ==> !#[trigger] r.slots()[i],
            r.counted(),
    {
        let r = Span {
            base: 0,
            npages: 0,
            elemsize: 0,
            nelems: 0,
            sizeclass: 0,
            alloc_count: 0,
            freeindex: 0,
            alloc_bits: [0u64; 16],
            alloc_cache: 0,
            next: NIL_SPAN,
            prev: NIL_SPAN,
            cached: false,
        };
        proof {
            assert forall|i: int| 0 <= i < 1024 implies !#[trigger] r.slots()[i] by {
                lemma_const_words((i % 64) as u64);
            }
            lemma_zero_total(r.alloc_bits, 16);
        }
        r
    }

    /// `reset` — back to the unused state.
    pub fn reset(&mut self)
        ensures
            final(self).base == 0 && final(self).npages == 0 && final(self).elemsize == 0,
            final(self).nelems == 0 && final(self).sizeclass == 0,
            final(self).alloc_count == 0 && final(self).freeindex == 0 && final(self).alloc_cache == 0,
            final(self).next == NIL_SPAN && final(self).prev == NIL_SPAN && !final(self).cached,
            forall|i: int| 0 <= i < 1024 ==> !#[trigger] final(self).slots()[i],
            final(self).counted(),
    {
        *self = Span::new();
    }

    /// `is_full` — every slot allocated.
    pub fn is_full(&self) -> (r: bool)
        ensures
            r == (self.alloc_count == self.nelems),
    {
        self.alloc_count == self.nelems
    }

    /// `is_empty` — no slot allocated.
    pub fn is_empty(&self) -> (r: bool)
        ensures
            r == (self.alloc_count == 0),
    {
        self.alloc_count == 0
    }

    /// `slot_addr` — address of slot `idx`.
    pub fn slot_addr(&self, idx: u16) -> (r: usize)
        requires
            self.base + idx * self.elemsize <= usize::MAX,
        ensures
            r == self.base + idx * self.elemsize,
    {
        proof {
            assert(0 <= idx * self.elemsize) by (nonlinear_arith);
        }
        self.base + (idx as usize) * (self.elemsize as usize)
    }

    /// `slot_of` — the slot holding `addr`, which lies inside the span,
    /// cut to 16 bits.
    pub fn slot_of(&self, addr: usize) -> (r: u16)
        requires
            self.base <= addr,
            self.elemsize > 0,
        ensures
            r == ((addr - self.base) / (self.elemsize as int)) as u16,
    {
        let off = addr - self.base;
        (off / (self.elemsize as usize)) as u16
    }

    /// `debug_audit` — the count of allocated slots agrees with the
    /// bitmap.
    pub fn debug_audit(&self) -> (r: bool)
        ensures
            r == self.counted(),
    {
        let mut total: u32 = 0;
        let mut k: usize = 0;
        while k < ALLOC_BITS_WORDS
            invariant
                k <= 16,
                total == words_total(self.alloc_bits, k as int),
                total <= 64 * k,
            decreases 16 - k,
        {
            let c = popcount64(self.alloc_bits[k]);
            total += c;
            k += 1;
        }
        total == self.alloc_count as u32
    }

    /// Clear slot `idx`; report whether it was allocated.
    fn clear_bit(&mut self, idx: u16) -> (was: bool)
        requires
            idx < 1024,
        ensures
            was == old(self).slots()[idx as int],
            final(self).slots() == old(self).slots().update(idx as int, false),
            final(self).popcount() == old(self).popcount() - (if was { 1int } else { 0int }),
            final(self).alloc_count == old(self).alloc_count,
            final(self).freeindex == old(self).freeindex,
            final(self).alloc_cache == old(self).alloc_cache,
            Span::same_layout(*old(self), *final(self)),
            !was ==> final(self).alloc_bits@ == old(self).alloc_bits@,
    {
        let i = idx as usize;
        let wi = i / 64;
        let b = (i % 64) as u64;
        let ghost a = *self;
        let prev = self.alloc_bits[wi];
        let mask = 1u64 << b;
        self.alloc_bits[wi] = prev & !mask;
        proof {
            lemma_word_bit_update(prev, b);
            lemma_slots_word(a, *self, wi as int);
            lemma_words_total_update(a.alloc_bits, self.alloc_bits, wi as int, 16);
            lemma_count_update(word_view(prev), b as int, false);
            assert(a.slots()[idx as int] == wbit(prev, b));
            assert forall|j: int| 0 <= j < 1024 implies #[trigger] self.slots()[j] == a.slots().update(idx as int, false)[j] by {
                if j / 64 == wi {
                    let jj = j % 64;
                    assert(j == wi * 64 + jj);
                    assert(self.slots()[wi * 64 + jj] == wbit(self.alloc_bits[wi as int], jj as u64));
                    assert(a.slots()[wi * 64 + jj] == wbit(prev, jj as u64)) by {
                        lemma_slots_word(a, a, wi as int);
                    }
                    assert(word_view(prev & !mask)[jj] == word_view(prev).update(b as int, false)[jj]);
                }
            }
            assert(self.slots() =~= a.slots().update(idx as int, false));
            if !wbit(prev, b) {
                assert(self.alloc_bits@ =~= a.alloc_bits@);
            }
            assert((prev & mask != 0) == wbit(prev, b)) by (bit_vector)
                requires mask == 1u64 << b, b < 64;
        }
        prev & mask != 0
    }

    /// `free_slot_atomic` — free slot `idx` if allocated, decrementing the
    /// count; a slot outside the bitmap or already free is left alone.
    pub fn free_slot_atomic(&mut self, idx: u16)
        ensures
            idx < 1024 && old(self).slots()[idx as int] ==> final(self).slots() == old(self).slots().update(idx as int, false)
                && final(self).alloc_count == (if old(self).alloc_count == 0 { u16::MAX } else { (old(self).alloc_count - 1) as u16 }),
            !(idx < 1024 && old(self).slots()[idx as int]) ==> *final(self) == *old(self),
            final(self).freeindex == old(self).freeindex,
            final(self).alloc_cache == old(self).alloc_cache,
            Span::same_layout(*old(self), *final(self)),
            old(self).counted() ==> final(self).counted(),
    {
        if (idx as usize) / 64 >= ALLOC_BITS_WORDS {
            return;
        }
        let ghost a = *self;
        let was = self.clear_bit(idx);
        proof {
            lemma_words_total_bounds(self.alloc_bits, 16);
        }
        if was {
            self.alloc_count = self.alloc_count.wrapping_sub(1);
        } else {
            proof {
                assert(self.alloc_bits@ =~= a.alloc_bits@);
                assert(self.alloc_bits =~= a.alloc_bits);
            }
        }
    }

    /// `free_slot_locked` — as `free_slot_atomic`, and moves the scan
    /// start back to `idx` when it was past it.
    pub fn free_slot_locked(&mut self, idx: u16)
        ensures
            idx < 1024 && old(self).slots()[idx as int] ==> final(self).slots() == old(self).slots().update(idx as int, false)
                && final(self).alloc_count == (if old(self).alloc_count == 0 { u16::MAX } else { (old(self).alloc_count - 1) as u16 })
                && final(self).freeindex == (if idx < old(self).freeindex { idx } else { old(self).freeindex }),
            !(idx < 1024 && old(self).slots()[idx as int]) ==> *final(self) == *old(self),
            final(self).alloc_cache == old(self).alloc_cache,
            Span::same_layout(*old(self), *final(self)),
            old(self).counted() ==> final(self).counted(),
    {
        if (idx as usize) / 64 >= ALLOC_BITS_WORDS {
            return;
        }
        let ghost a = *self;
        let was = self.clear_bit(idx);
        proof {
            lemma_words_total_bounds(self.alloc_bits, 16);
        }
        if was {
            self.alloc_count = self.alloc_count.wrapping_sub(1);
            if idx < self.freeindex {
                self.freeindex = idx;
            }
        } else {
            proof {
                assert(self.alloc_bits@ =~= a.alloc_bits@);
                assert(self.alloc_bits =~= a.alloc_bits);
            }
        }
    }
}

/// Slot `p` is the first free slot at or after `fi`.
pub open spec fn first_free_from(slots: Seq<bool>, fi: int, p: int) -> bool {
    &&& fi <= p < 1024
    &&& !slots[p]
    &&& forall|q: int| fi <= q < p ==> #[trigger] slots[q]
}

/// Free bits of `w` at or after bit `s`.
proof fn lemma_free_above(w: u64, s: u64, j: u64)
    requires
        s < 64,
        j < 64,
    ensures
        wbit(!w & (if s == 0 { 0xffff_ffff_ffff_ffffu64 } else { 0xffff_ffff_ffff_ffffu64 << s }), j)
            == (!wbit(w, j) && s <= j),
{
    let m = if s == 0 { 0xffff_ffff_ffff_ffffu64 } else { 0xffff_ffff_ffff_ffffu64 << s };
    lemma_or_bit(!w, m, j);
    lemma_or_bit(w, 0, j);
    lemma_const_words(j);
    lemma_high_mask(s, j);
}

impl Span {
    /// Set slot `idx`; report whether it was already allocated.
    fn set_bit(&mut self, idx: u16) -> (was: bool)
        requires
            idx < 1024,
        ensures
            was == old(self).slots()[idx as int],
            final(self).slots() == old(self).slots().update(idx as int, true),
            final(self).popcount() == old(self).popcount() + (if was { 0int } else { 1int }),
            final(self).alloc_count == old(self).alloc_count,
            final(self).freeindex == old(self).freeindex,
            final(self).alloc_cache == old(self).alloc_cache,
            Span::same_layout(*old(self), *final(self)),
    {
        let i = idx as usize;
        let wi = i / 64;
        let b = (i % 64) as u64;
        let ghost a = *self;
        let prev = self.alloc_bits[wi];
        let mask = 1u64 << b;
        self.alloc_bits[wi] = prev | mask;
        proof {
            lemma_word_bit_update(prev, b);
            lemma_slots_word(a, *self, wi as int);
            lemma_words_total_update(a.alloc_bits, self.alloc_bits, wi as int, 16);
            lemma_count_update(word_view(prev), b as int, true);
            assert(a.slots()[idx as int] == wbit(prev, b)) by {
                lemma_slots_word(a, a, wi as int);
            }
            assert forall|j: int| 0 <= j < 1024 implies #[trigger] self.slots()[j] == a.slots().update(idx as int, true)[j] by {
                if j / 64 == wi {
                    let jj = j % 64;
                    assert(j == wi * 64 + jj);
                    assert(self.slots()[wi * 64 + jj] == wbit(self.alloc_bits[wi as int], jj as u64));
                    assert(a.slots()[wi * 64 + jj] == wbit(prev, jj as u64)) by {
                        lemma_slots_word(a, a, wi as int);
                    }
                    assert(word_view(prev | mask)[jj] == word_view(prev).update(b as int, true)[jj]);
                }
            }
            assert(self.slots() =~= a.slots().update(idx as int, true));
        }
        proof {
            assert((prev & mask != 0) == wbit(prev, b)) by (bit_vector)
                requires mask == 1u64 << b, b < 64;
        }
        prev & mask != 0
    }

    /// `alloc_slot_locked` — allocate the first free slot at or after
    /// `freeindex`. `None` when the scan start is past the slots, when
    /// every bit from there on is set, or when the first free bit lies
    /// past the slots (the scan start then moves to `nelems`).
    pub fn alloc_slot_locked(&mut self) -> (r: Option<u16>)
        ensures
            Span::same_layout(*old(self), *final(self)),
            final(self).alloc_cache == old(self).alloc_cache,
            old(self).counted() ==> final(self).counted(),
            match r {
                Some(slot) => {
                    &&& first_free_from(old(self).slots(), old(self).freeindex as int, slot as int)
                    &&& slot < old(self).nelems
                    &&& final(self).slots() == old(self).slots().update(slot as int, true)
                    &&& final(self).alloc_count == (if old(self).alloc_count == u16::MAX { 0 } else { (old(self).alloc_count + 1) as u16 })
                    &&& final(self).freeindex == slot + 1
                },
                None => {
                    &&& final(self).alloc_bits == old(self).alloc_bits
                    &&& final(self).alloc_count == old(self).alloc_count
                    &&& {
                        ||| old(self).freeindex >= old(self).nelems && final(self).freeindex == old(self).freeindex
                        ||| (forall|q: int| old(self).freeindex <= q < 1024 ==> #[trigger] old(self).slots()[q])
                            && final(self).freeindex == old(self).freeindex
                        ||| exists|p: int|
                            #[trigger] first_free_from(old(self).slots(), old(self).freeindex as int, p) && p >= old(self).nelems
                                && final(self).freeindex == old(self).nelems
                    }
                },
            },
    {
        let nelems = self.nelems;
        let sfreeindex = self.freeindex;
        if sfreeindex >= nelems {
            return None;
        }
        let ghost a = *self;
        let mut wi = (sfreeindex / 64) as usize;
        while wi < ALLOC_BITS_WORDS
            invariant
                *self == a,
                a == *old(self),
                sfreeindex == a.freeindex,
                nelems == a.nelems,
                sfreeindex < nelems,
                sfreeindex / 64 <= wi,
                wi <= 16 || sfreeindex >= 1024,
                forall|q: int| sfreeindex <= q < wi * 64 && q < 1024 ==> #[trigger] a.slots()[q],
            decreases 16 - wi,
        {
            let word = self.alloc_bits[wi];
            let inv = !word;
            let word_base = (wi * 64) as u16;
            let start_bit: u64 = if word_base < sfreeindex { (sfreeindex - word_base) as u64 } else { 0 };
            let mask = if start_bit == 0 { 0xffff_ffff_ffff_ffffu64 } else { 0xffff_ffff_ffff_ffffu64 << start_bit };
            let candidate = inv & mask;
            proof {
                assert(start_bit < 64);
                lemma_slots_word(a, a, wi as int);
                assert forall|j: u64| j < 64 implies #[trigger] wbit(candidate, j) == (!wbit(word, j) && start_bit <= j) by {
                    lemma_free_above(word, start_bit, j);
                }
                lemma_zeros_bits(candidate);
            }
            if candidate == 0 {
                proof {
                    assert forall|q: int| sfreeindex <= q < (wi + 1) * 64 && q < 1024 implies #[trigger] a.slots()[q] by {
                        if q >= wi * 64 {
                            let j = q - wi * 64;
                            assert(a.slots()[wi * 64 + j] == wbit(word, j as u64));
                            assert(!wbit(candidate, j as u64));
                        }
                    }
                }
                wi += 1;
                continue;
            }
            let bit = candidate.trailing_zeros();
            let slot = word_base + (bit as u16);
            proof {
                assert(wbit(candidate, bit as u64));
                assert(a.slots()[wi * 64 + bit] == wbit(word, bit as u64));
                assert forall|q: int| sfreeindex <= q < slot implies #[trigger] a.slots()[q] by {
                    if q >= wi * 64 {
                        let j = q - wi * 64;
                        assert(a.slots()[wi * 64 + j] == wbit(word, j as u64));
                        assert(!wbit(candidate, j as u64));
                    }
                }
                assert(first_free_from(a.slots(), sfreeindex as int, slot as int));
            }
            if slot >= nelems {
                self.freeindex = nelems;
                return None;
            }
            let was = self.set_bit(slot);
            proof {
                lemma_words_total_bounds(self.alloc_bits, 16);
            }
            self.alloc_count = self.alloc_count.wrapping_add(1);
            self.freeindex = slot + 1;
            return Some(slot);
        }
        None
    }

    /// `refill_alloc_cache` — reserve every free slot of word `wi`: the
    /// word becomes all ones, the cache holds the bits that were free,
    /// and their number is returned (the caller adds it to the count).
    pub fn refill_alloc_cache(&mut self, wi: usize) -> (r: u32)
        requires
            wi < 16,
        ensures
            final(self).alloc_bits[wi as int] == 0xffff_ffff_ffff_ffffu64,
            forall|k: int| 0 <= k < 16 && k != wi ==> final(self).alloc_bits[k] == old(self).alloc_bits[k],
            final(self).alloc_cache == !old(self).alloc_bits[wi as int],
            r == 64 - word_count(old(self).alloc_bits[wi as int]),
            r <= 64,
            r == 0 <==> old(self).alloc_bits[wi as int] == 0xffff_ffff_ffff_ffffu64,
            final(self).popcount() == old(self).popcount() + r,
            final(self).alloc_count == old(self).alloc_count,
            final(self).freeindex == old(self).freeindex,
            Span::same_layout(*old(self), *final(self)),
    {
        let ghost a = *self;
        let load = self.alloc_bits[wi];
        let claim_mask = !load;
        if claim_mask != 0 {
            self.alloc_bits[wi] = load | claim_mask;
        }
        self.alloc_cache = claim_mask;
        let n = popcount64(claim_mask);
        proof {
            assert(load | !load == 0xffff_ffff_ffff_ffffu64) by (bit_vector);
            assert(!load == 0u64 ==> load == 0xffff_ffff_ffff_ffffu64) by (bit_vector);
            lemma_words_total_update(a.alloc_bits, self.alloc_bits, wi as int, 16);
            lemma_complement_count(load);
            assert forall|j: int| 0 <= j < 64 implies #[trigger] word_view(0xffff_ffff_ffff_ffffu64)[j] by {
                lemma_const_words(j as u64);
            }
            lemma_count_uniform_true(word_view(0xffff_ffff_ffff_ffffu64));
            lemma_count_concat(Seq::<bool>::empty(), word_view(load));
            assert(Seq::<bool>::empty() + word_view(load) =~= word_view(load));
            assert(load == 0xffff_ffff_ffff_ffffu64 <==> !load == 0u64) by (bit_vector);
            if load != 0xffff_ffff_ffff_ffffu64 {
                lemma_zeros_bits(!load);
                let k = (!load).trailing_zeros();
                lemma_or_bit(load, 0, k as u64);
                assert(!word_view(load)[k as int]);
                lemma_count_update(word_view(load), k as int, true);
                lemma_count_concat(Seq::<bool>::empty(), word_view(load).update(k as int, true));
                assert(Seq::<bool>::empty() + word_view(load).update(k as int, true) =~= word_view(load).update(k as int, true));
            }
        }
        n
    }
}

/// `b` is `a` after reserving word `wi`: the word is all ones, the count
/// grows by the bits that were free (wrapping at 16 bits), and the cache
/// holds those bits.
pub open spec fn refilled(a: Span, b: Span, wi: int) -> bool {
    &&& 0 <= wi < 16
    &&& b.alloc_bits[wi] == 0xffff_ffff_ffff_ffffu64
    &&& forall|k: int| 0 <= k < 16 && k != wi ==> b.alloc_bits[k] == a.alloc_bits[k]
    &&& b.alloc_count == ((a.alloc_count + 64 - word_count(a.alloc_bits[wi])) % 0x1_0000) as u16
    &&& b.alloc_cache == !a.alloc_bits[wi]
    &&& Span::same_layout(a, b)
}

/// `c` shifted right by `k`, zero when `k` is 64.
pub open spec fn shr64(c: u64, k: int) -> u64 {
    if k >= 64 {
        0
    } else {
        c >> (k as u64)
    }
}

/// Word `w` is the first word at or after `lo` that starts below `n`
/// and has a free bit; every word in between is full.
pub open spec fn first_open_word(ws: [u64; 16], lo: int, n: int, w: int) -> bool {
    &&& lo <= w < 16
    &&& w * 64 < n
    &&& ws[w] != 0xffff_ffff_ffff_ffffu64
    &&& forall|k: int| lo <= k < w ==> #[trigger] ws[k] == 0xffff_ffff_ffff_ffffu64
}

/// `f` and `r` are what selling slot `sfi + bit` from `a`'s cache gives:
/// the cache is shifted past the slot and the scan start moved after
/// it, and at a word boundary the next word is reserved; a slot past
/// the span's slots gives `None` and moves the scan start to `nelems`.
pub open spec fn sold(a: Span, sfi: int, bit: int, f: Span, r: Option<u16>) -> bool {
    let slot = sfi + bit;
    if slot >= a.nelems {
        r is None && f == (Span { freeindex: a.nelems, ..a })
    } else {
        let mid = (Span { alloc_cache: shr64(a.alloc_cache, bit + 1), freeindex: (slot + 1) as u16, ..a });
        &&& r == Some(slot as u16)
        &&& if (slot + 1) % 64 == 0 && slot + 1 < a.nelems {
            refilled(mid, f, (slot + 1) / 64) && f.freeindex == slot + 1
        } else {
            f == mid
        }
    }
}

impl Span {
    /// Hand out slot `fi + bit` from the cache `acache` (bit `bit` set),
    /// shift the cache past it and, at a word boundary, reserve the next
    /// word.
    fn sell_from_cache(&mut self, acache: u64, sfreeindex: u16, bit_index: u32) -> (r: Option<u16>)
        requires
            old(self).nelems <= 1024,
            bit_index < 64,
            sfreeindex as int + bit_index < 0x1_0000,
            acache == old(self).alloc_cache,
        ensures
            sold(*old(self), sfreeindex as int, bit_index as int, *final(self), r),
    {
        let nelems = self.nelems;
        let slot = sfreeindex + (bit_index as u16);
        if slot >= nelems {
            self.freeindex = nelems;
            return None;
        }
        self.alloc_cache = if bit_index + 1 >= 64 { 0 } else { acache >> ((bit_index + 1) as u64) };
        let new_freeindex = slot + 1;
        self.freeindex = new_freeindex;
        if new_freeindex % 64 == 0 && new_freeindex < nelems {
            let ghost mid = *self;
            let claimed = self.refill_alloc_cache((new_freeindex / 64) as usize);
            self.alloc_count = self.alloc_count.wrapping_add(claimed as u16);
        }
        Some(slot)
    }

    /// `next_free_owner` — the owner's next slot: the first reserved slot
    /// in the cache or, when the cache is empty, the first free slot of
    /// the following words, which are reserved as they are reached.
    /// `None` once the slots run out; the scan start then moves to
    /// `nelems`.
    pub fn next_free_owner(&mut self) -> (r: Option<u16>)
        requires
            old(self).nelems <= 1024,
            old(self).freeindex <= old(self).nelems,
        ensures
            ({
                let a = *old(self);
                let fi = a.freeindex as int;
                let c = a.alloc_cache;
                let base = (Span { alloc_cache: 0, ..a });
                if fi >= a.nelems {
                    r is None && *final(self) == a
                } else if c != 0 {
                    sold(a, fi, c.trailing_zeros() as int, *final(self), r)
                } else if exists|w: int| #[trigger] first_open_word(a.alloc_bits, fi / 64 + 1, a.nelems as int, w) {
                    forall|w: int| #[trigger] first_open_word(a.alloc_bits, fi / 64 + 1, a.nelems as int, w) ==> exists|x: Span|
                        #[trigger] refilled(base, x, w) && sold(x, w * 64, (!a.alloc_bits[w]).trailing_zeros() as int, *final(self), r)
                } else {
                    r is None && *final(self) == (Span { freeindex: a.nelems, ..a })
                }
            }),
    {
        let nelems = self.nelems;
        let mut sfreeindex = self.freeindex;
        if sfreeindex >= nelems {
            return None;
        }
        let ghost a = *self;
        let mut acache = self.alloc_cache;
        let mut bit_index = acache.trailing_zeros();
        proof {
            lemma_zeros_bits(acache);
        }
        if bit_index < 64 {
            return self.sell_from_cache(acache, sfreeindex, bit_index);
        }
        let ghost w0 = sfreeindex / 64 + 1;
        let ghost base = (Span { alloc_cache: 0, ..a });
        assert(base == a);
        while bit_index == 64
            invariant
                nelems == a.nelems,
                nelems <= 1024,
                a == *old(self),
                a.alloc_cache == 0,
                base == (Span { alloc_cache: 0, ..a }),
                w0 == a.freeindex / 64 + 1,
                bit_index <= 64,
                sfreeindex < nelems,
                bit_index == 64 ==> {
                    &&& acache == 0
                    &&& sfreeindex == a.freeindex || (sfreeindex % 64 == 0 && sfreeindex as int / 64 >= w0)
                    &&& forall|k: int| w0 <= k <= sfreeindex as int / 64 ==> #[trigger] a.alloc_bits[k] == 0xffff_ffff_ffff_ffffu64
                    &&& *self == base
                },
                bit_index < 64 ==> {
                    &&& sfreeindex % 64 == 0
                    &&& sfreeindex as int / 64 >= w0
                    &&& first_open_word(a.alloc_bits, w0, nelems as int, sfreeindex as int / 64)
                    &&& refilled(base, *self, sfreeindex as int / 64)
                    &&& acache == !a.alloc_bits[sfreeindex as int / 64]
                    &&& bit_index == acache.trailing_zeros()
                },
            decreases 1024 - sfreeindex,
        {
            let ghost old_sfi = sfreeindex;
            assert((((sfreeindex + 64) as u16) & !63u16) == (sfreeindex / 64 + 1) * 64) by (bit_vector)
                requires sfreeindex < 1024;
            sfreeindex = (sfreeindex + 64) & !63u16;
            if sfreeindex >= nelems {
                self.freeindex = nelems;
                proof {
                    assert forall|w: int| !#[trigger] first_open_word(a.alloc_bits, w0, nelems as int, w) by {
                        if first_open_word(a.alloc_bits, w0, nelems as int, w) {
                            assert(w * 64 < sfreeindex);
                            assert(w <= old_sfi / 64);
                        }
                    }
                }
                return None;
            }
            let claimed = self.refill_alloc_cache((sfreeindex / 64) as usize);
            self.alloc_count = self.alloc_count.wrapping_add(claimed as u16);
            acache = self.alloc_cache;
            bit_index = acache.trailing_zeros();
            proof {
                lemma_zeros_bits(acache);
                let w = sfreeindex as int / 64;
                assert(w * 64 == sfreeindex);
                if bit_index == 64 {
                    assert(acache == 0);
                    assert(!a.alloc_bits[w] == 0u64);
                    let x = a.alloc_bits[w];
                    assert(!x == 0u64 ==> x == 0xffff_ffff_ffff_ffffu64) by (bit_vector);
                    assert(claimed == 0);
                    assert(self.alloc_bits =~= a.alloc_bits);
                    assert(self.alloc_count == a.alloc_count);
                    assert(*self == base);
                    assert forall|k: int| w0 <= k <= sfreeindex as int / 64 implies #[trigger] a.alloc_bits[k] == 0xffff_ffff_ffff_ffffu64 by {
                        if k < w {
                            assert(k <= old_sfi / 64);
                        }
                    }
                } else {
                    assert(a.alloc_bits[w] != 0xffff_ffff_ffff_ffffu64) by {
                        assert(!0xffff_ffff_ffff_ffffu64 == 0u64) by (bit_vector);
                    }
                    assert forall|k: int| w0 <= k < w implies #[trigger] a.alloc_bits[k] == 0xffff_ffff_ffff_ffffu64 by {
                        assert(k <= old_sfi / 64);
                    }
                }
            }
        }
        proof {
            assert forall|w1: int, w2: int|
                #[trigger] first_open_word(a.alloc_bits, w0, nelems as int, w1) && #[trigger] first_open_word(a.alloc_bits, w0, nelems as int, w2)
                    implies w1 == w2 by {
                if w1 < w2 {
                    assert(a.alloc_bits[w1] == 0xffff_ffff_ffff_ffffu64);
                } else if w2 < w1 {
                    assert(a.alloc_bits[w2] == 0xffff_ffff_ffff_ffffu64);
                }
            }
        }
        let ghost x = *self;
        let r = self.sell_from_cache(acache, sfreeindex, bit_index);
        proof {
            let w = sfreeindex as int / 64;
            assert(w * 64 == sfreeindex);
            assert(refilled(base, x, w) && sold(x, w * 64, (!a.alloc_bits[w]).trailing_zeros() as int, *self, r));
        }
        r
    }
}

impl Span {
    /// `release_unsold` — give back the slots reserved in the cache but
    /// never handed out: clear them in their word and take them off the
    /// count (wrapping at 16 bits); the cache is emptied.
    pub fn release_unsold(&mut self)
        ensures
            final(self).alloc_cache == 0,
            final(self).freeindex == old(self).freeindex,
            Span::same_layout(*old(self), *final(self)),
            ({
                let c = old(self).alloc_cache;
                let wi = old(self).freeindex / 64;
                let m = c << ((old(self).freeindex % 64) as u64);
                if c != 0 && wi < 16 {
                    &&& final(self).alloc_bits[wi as int] == old(self).alloc_bits[wi as int] & !m
                    &&& forall|k: int| 0 <= k < 16 && k != wi ==> final(self).alloc_bits[k] == old(self).alloc_bits[k]
                    &&& final(self).alloc_count == ((old(self).alloc_count - word_count(m)) % 0x1_0000) as u16
                    &&& old(self).counted() && old(self).alloc_bits[wi as int] & m == m ==> final(self).counted()
                } else {
                    final(self).alloc_bits == old(self).alloc_bits && final(self).alloc_count == old(self).alloc_count
                }
            }),
    {
        let acache = self.alloc_cache;
        if acache == 0 {
            return;
        }
        let ghost a = *self;
        let sfreeindex = self.freeindex as usize;
        let wi = sfreeindex / 64;
        let bit_offset = (sfreeindex % 64) as u64;
        if wi < ALLOC_BITS_WORDS {
            let release_mask = acache << bit_offset;
            if release_mask != 0 {
                let cleared = popcount64(release_mask);
                let w = self.alloc_bits[wi];
                self.alloc_bits[wi] = w & !release_mask;
                self.alloc_count = self.alloc_count.wrapping_sub(cleared as u16);
                proof {
                    lemma_words_total_update(a.alloc_bits, self.alloc_bits, wi as int, 16);
                    if w & release_mask == release_mask {
                        lemma_clear_subset_count(w, release_mask);
                        lemma_words_total_bounds(a.alloc_bits, 16);
                        lemma_words_total_bounds(self.alloc_bits, 16);
                    }
                }
            } else {
                proof {
                    lemma_and_not_zero(self.alloc_bits[wi as int]);
                    assert(word_count(0) == 0) by {
                        assert forall|j: int| 0 <= j < 64 implies !#[trigger] word_view(0)[j] by {
                            lemma_const_words(j as u64);
                        }
                        lemma_count_uniform_false(word_view(0));
                    }
                }
            }
        }
        self.alloc_cache = 0;
    }
}

/// `w & !0 == w`.
proof fn lemma_and_not_zero(w: u64)
    ensures
        w & !0u64 == w,
{
    assert(w & !0u64 == w) by (bit_vector);
}

/// Clearing bits that are all set removes exactly their number.
proof fn lemma_clear_subset_count(w: u64, m: u64)
    requires
        w & m == m,
    ensures
        word_count(w & !m) == word_count(w) - word_count(m),
{
    lemma_clear_subset_prefix(w, m, 64);
    assert(word_view(w).take(64) =~= word_view(w));
    assert(word_view(m).take(64) =~= word_view(m));
    assert(word_view(w & !m).take(64) =~= word_view(w & !m));
}

proof fn lemma_clear_subset_prefix(w: u64, m: u64, n: int)
    requires
        w & m == m,
        0 <= n <= 64,
    ensures
        count_alloc(word_view(w & !m).take(n)) == count_alloc(word_view(w).take(n)) - count_alloc(word_view(m).take(n)),
    decreases n,
{
    if n > 0 {
        lemma_clear_subset_prefix(w, m, n - 1);
        assert(word_view(w).take(n).drop_last() =~= word_view(w).take(n - 1));
        assert(word_view(m).take(n).drop_last() =~= word_view(m).take(n - 1));
        assert(word_view(w & !m).take(n).drop_last() =~= word_view(w & !m).take(n - 1));
        let j = (n - 1) as u64;
        lemma_or_bit(w, m, j);
        assert(wbit(m, j) ==> wbit(w, j)) by {
            assert((w & m == m) ==> (((m >> j) & 1u64 == 1u64) ==> ((w >> j) & 1u64 == 1u64))) by (bit_vector);
        }
    }
}

/// A word and its complement split the 64 bits between them.
proof fn lemma_complement_count(w: u64)
    ensures
        word_count(w) + word_count(!w) == 64,
{
    lemma_complement_prefix(w, 64);
    assert(word_view(w).take(64) =~= word_view(w));
    assert(word_view(!w).take(64) =~= word_view(!w));
}

proof fn lemma_complement_prefix(w: u64, n: int)
    requires
        0 <= n <= 64,
    ensures
        count_alloc(word_view(w).take(n)) + count_alloc(word_view(!w).take(n)) == n,
    decreases n,
{
    if n > 0 {
        lemma_complement_prefix(w, n - 1);
        assert(word_view(w).take(n).drop_last() =~= word_view(w).take(n - 1));
        assert(word_view(!w).take(n).drop_last() =~= word_view(!w).take(n - 1));
        lemma_or_bit(w, 0, (n - 1) as u64);
    }
}

proof fn lemma_count_uniform_true(s: Seq<bool>)
    requires
        forall|j: int| 0 <= j < s.len() ==> #[trigger] s[j],
    ensures
        count_alloc(s) == s.len(),
    decreases s.len(),
{
    if s.len() > 0 {
        lemma_count_uniform_true(s.drop_last());
    }
}

proof fn lemma_zero_total(ws: [u64; 16], n: int)
    requires
        0 <= n <= 16,
        forall|k: int| 0 <= k < 16 ==> ws[k] == 0,
    ensures
        words_total(ws, n) == 0,
    decreases n,
{
    if n > 0 {
        lemma_zero_total(ws, n - 1);
        assert forall|j: int| 0 <= j < 64 implies !#[trigger] word_view(ws[n - 1])[j] by {
            lemma_const_words(j as u64);
        }
        lemma_count_uniform_false(word_view(ws[n - 1]));
    }
}

proof fn lemma_count_uniform_false(s: Seq<bool>)
    requires
        forall|j: int| 0 <= j < s.len() ==> !#[trigger] s[j],
    ensures
        count_alloc(s) == 0,
    decreases s.len(),
{
    if s.len() > 0 {
        lemma_count_uniform_false(s.drop_last());
    }
}

/// The `k` lowest decimal digits of `n` as ASCII, lowest first.
pub open spec fn low_digits(n: nat, k: nat) -> Seq<u8>
    decreases k,
{
    if k == 0 {
        Seq::empty()
    } else {
        seq![(0x30 + n % 10) as u8] + low_digits(n / 10, (k - 1) as nat)
    }
}

/// How many decimal digits `n` has, counting at most `cap` of them
/// (0 for `n == 0`).
pub open spec fn digit_count(n: nat, cap: nat) -> nat
    decreases cap,
{
    if n == 0 || cap == 0 {
        0
    } else {
        1 + digit_count(n / 10, (cap - 1) as nat)
    }
}

/// What `u32_to_dec` writes: `0` for zero, else the decimal digits of
/// `n`, most significant first, at most the lowest eight of them.
pub open spec fn dec_text(n: nat) -> Seq<u8> {
    if n == 0 {
        seq![0x30u8]
    } else {
        low_digits(n, digit_count(n, 8)).reverse()
    }
}

/// `n` with its `a` lowest decimal digits dropped.
pub open spec fn drop_digits(n: nat, a: nat) -> nat
    decreases a,
{
    if a == 0 {
        n
    } else {
        drop_digits(n / 10, (a - 1) as nat)
    }
}

proof fn lemma_low_digits_push(n: nat, a: nat)
    ensures
        low_digits(n, a + 1) == low_digits(n, a).push((0x30 + drop_digits(n, a) % 10) as u8),
        drop_digits(n, a + 1) == drop_digits(n, a) / 10,
    decreases a,
{
    if a > 0 {
        lemma_low_digits_push(n / 10, (a - 1) as nat);
        assert(low_digits(n, a + 1) =~= low_digits(n, a).push((0x30 + drop_digits(n, a) % 10) as u8));
    } else {
        reveal_with_fuel(low_digits, 2);
        reveal_with_fuel(drop_digits, 2);
        assert(low_digits(n, 1) =~= low_digits(n, 0).push((0x30 + n % 10) as u8));
    }
}

/// Renders `n` in decimal into `buf` and returns the length; a number
/// of more than eight digits keeps its lowest eight.
pub fn u32_to_dec(n: u32, buf: &mut [u8; 8]) -> (len: usize)
    ensures
        len == dec_text(n as nat).len(),
        final(buf)@.subrange(0, len as int) == dec_text(n as nat),
        final(buf)@.subrange(len as int, 8) == old(buf)@.subrange(len as int, 8),
{
    broadcast use vstd::array::group_array_axioms;
    if n == 0 {
        buf[0] = 0x30u8;
        assert(buf@.subrange(0, 1) =~= dec_text(0));
        assert(buf@.subrange(1, 8) =~= old(buf)@.subrange(1, 8));
        return 1;
    }
    let mut tmp = [0u8; 8];
    let mut m = n;
    let mut i: usize = 0;
    while m > 0 && i < 8
        invariant
            i <= 8,
            m == drop_digits(n as nat, i as nat),
            digit_count(n as nat, 8) == i + digit_count(m as nat, (8 - i) as nat),
            tmp@.subrange(0, i as int) == low_digits(n as nat, i as nat),
        decreases 8 - i,
    {
        proof {
            lemma_low_digits_push(n as nat, i as nat);
        }
        tmp[i] = 0x30u8 + (m % 10) as u8;
        assert(tmp@.subrange(0, i + 1) =~= low_digits(n as nat, i as nat).push((0x30 + m % 10) as u8));
        m = m / 10;
        i = i + 1;
    }
    let len = i;
    assert(len == digit_count(n as nat, 8));
    assert(len >= 1);
    let ghost digits = low_digits(n as nat, len as nat);
    let mut j: usize = 0;
    while j < len
        invariant
            1 <= len <= 8,
            j <= len,
            tmp@.subrange(0, len as int) == digits,
            forall|k: int| 0 <= k < j ==> buf@[k] == digits[len - 1 - k],
            forall|k: int| j <= k < 8 ==> buf@[k] == old(buf)@[k],
        decreases len - j,
    {
        assert(tmp@[len - 1 - j] == digits[len - 1 - j]);
        buf[j] = tmp[len - 1 - j];
        j = j + 1;
    }
    assert(buf@.subrange(0, len as int) =~= digits.reverse());
    assert(buf@.subrange(len as int, 8) =~= old(buf)@.subrange(len as int, 8));
    len
}

} // verus!
