//! Byte readers and LEB128 decoders over a `&[u8]` with a cursor: each
//! takes an offset, returns the value and moves the offset past what it
//! read. None of them panics; running off the end gives `None`.
use vstd::prelude::*;
use vstd::slice::slice_subrange;

verus! {

/// The little-endian value of `s`.
pub open spec fn le(s: Seq<u8>) -> nat
    decreases s.len(),
{
    if s.len() == 0 {
        0
    } else {
        (s[0] + 256 * le(s.drop_first())) as nat
    }
}

/// `256` to the power `n`.
pub open spec fn p256(n: nat) -> nat
    decreases n,
{
    if n == 0 {
        1
    } else {
        256 * p256((n - 1) as nat)
    }
}

pub proof fn lemma_p256_values()
    ensures
        p256(2) == 0x1_0000,
        p256(4) == 0x1_0000_0000,
        p256(8) == 0x1_0000_0000_0000_0000,
{
    reveal_with_fuel(p256, 9);
}

proof fn lemma_p256_mono(a: nat, b: nat)
    requires
        a <= b,
    ensures
        p256(a) <= p256(b),
    decreases b,
{
    if a < b {
        lemma_p256_mono(a, (b - 1) as nat);
    }
}

pub proof fn lemma_le_bound(s: Seq<u8>)
    ensures
        le(s) < p256(s.len()),
    decreases s.len(),
{
    if s.len() > 0 {
        lemma_le_bound(s.drop_first());
    }
}

/// `n` bytes from `o`, little-endian.
pub(crate) fn read_le(buf: &[u8], o: usize, n: usize) -> (r: u64)
    requires
        n <= 8,
        o + n <= buf@.len(),
    ensures
        r == le(buf@.subrange(o as int, o + n)),
{
    let mut v: u64 = 0;
    let mut k: usize = n;
    let len = buf.len();
    proof {
        assert(buf@.subrange(o + n, o + n).len() == 0);
        lemma_p256_values();
    }
    while k > 0
        invariant
            k <= n <= 8,
            o + n <= buf@.len(),
            buf@.len() == len,
            v == le(buf@.subrange(o + k, o + n)),
            p256(8) == 0x1_0000_0000_0000_0000,
        decreases k,
    {
        k -= 1;
        let ghost t = buf@.subrange(o + k, o + n);
        proof {
            assert(t.drop_first() =~= buf@.subrange(o + k + 1, o + n));
            lemma_le_bound(t.drop_first());
            lemma_p256_mono((t.len() - 1) as nat, 7);
            assert(p256(8) == 256 * p256(7));
            assert(v * 256 + 255 < 0x1_0000_0000_0000_0000) by (nonlinear_arith)
                requires
                    v < p256(7),
                    0x1_0000_0000_0000_0000 == 256 * p256(7),
            ;
        }
        v = v * 256 + buf[o + k] as u64;
    }
    v
}

/// `read_u8` — one byte.
pub fn read_u8(buf: &[u8], off: &mut usize) -> (r: Option<u8>)
    ensures
        *old(off) < buf@.len() ==> r == Some(buf@[*old(off) as int]) && *final(off) == *old(off) + 1,
        *old(off) >= buf@.len() ==> r is None && *final(off) == *old(off),
{
    if *off >= buf.len() {
        return None;
    }
    let v = buf[*off];
    *off += 1;
    Some(v)
}

/// `read_u16` — two bytes, little-endian.
pub fn read_u16(buf: &[u8], off: &mut usize) -> (r: Option<u16>)
    ensures
        *old(off) + 2 <= buf@.len() ==> r == Some(le(buf@.subrange(*old(off) as int, *old(off) + 2)) as u16)
            && *final(off) == *old(off) + 2,
        *old(off) + 2 > buf@.len() ==> r is None && *final(off) == *old(off),
{
    if *off > buf.len() || buf.len() - *off < 2 {
        return None;
    }
    let o = *off;
    let v = read_le(buf, o, 2);
    proof {
        lemma_le_bound(buf@.subrange(o as int, o + 2));
        lemma_p256_values();
    }
    *off = o + 2;
    Some(v as u16)
}

/// `read_u32` — four bytes, little-endian.
pub fn read_u32(buf: &[u8], off: &mut usize) -> (r: Option<u32>)
    ensures
        *old(off) + 4 <= buf@.len() ==> r == Some(le(buf@.subrange(*old(off) as int, *old(off) + 4)) as u32)
            && *final(off) == *old(off) + 4,
        *old(off) + 4 > buf@.len() ==> r is None && *final(off) == *old(off),
{
    if *off > buf.len() || buf.len() - *off < 4 {
        return None;
    }
    let o = *off;
    let v = read_le(buf, o, 4);
    proof {
        lemma_le_bound(buf@.subrange(o as int, o + 4));
        lemma_p256_values();
    }
    *off = o + 4;
    Some(v as u32)
}

/// `read_u64` — eight bytes, little-endian.
pub fn read_u64(buf: &[u8], off: &mut usize) -> (r: Option<u64>)
    ensures
        *old(off) + 8 <= buf@.len() ==> r == Some(le(buf@.subrange(*old(off) as int, *old(off) + 8)) as u64)
            && *final(off) == *old(off) + 8,
        *old(off) + 8 > buf@.len() ==> r is None && *final(off) == *old(off),
{
    if *off > buf.len() || buf.len() - *off < 8 {
        return None;
    }
    let o = *off;
    let v = read_le(buf, o, 8);
    *off = o + 8;
    Some(v)
}

/// Bytes a LEB128 number at `o` takes, counting from `o + k`: the
/// terminating byte is the first without the continuation bit; 0 when
/// the input ends first or ten bytes pass without one.
pub open spec fn leb_size_from(buf: Seq<u8>, o: int, k: int) -> int
    decreases 10 - k,
{
    if k >= 10 || k < 0 || o + k >= buf.len() {
        0
    } else if buf[o + k] & 0x80 == 0 {
        k + 1
    } else {
        leb_size_from(buf, o, k + 1)
    }
}

/// Bytes the LEB128 number at `o` takes, or 0 when it is cut off.
pub open spec fn leb_size(buf: Seq<u8>, o: int) -> int {
    leb_size_from(buf, o, 0)
}

/// Where the cursor stands after a LEB128 read at `o` failed.
pub open spec fn leb_fail_end(buf: Seq<u8>, o: int) -> int {
    if o + 10 <= buf.len() {
        o + 10
    } else if o < buf.len() {
        buf.len() as int
    } else {
        o
    }
}

/// The 7-bit groups of `bs` shifted into place and or-ed together, in
/// 64 bits.
pub open spec fn leb_bits(bs: Seq<u8>) -> u64
    decreases bs.len(),
{
    if bs.len() == 0 {
        0
    } else {
        leb_bits(bs.drop_last()) | (((bs.last() & 0x7f) as u64) << ((7 * (bs.len() - 1)) as u64))
    }
}

pub proof fn lemma_leb_size_range(buf: Seq<u8>, o: int, k: int)
    requires
        0 <= k,
    ensures
        leb_size_from(buf, o, k) == 0 || (k < leb_size_from(buf, o, k) <= 10 && o + leb_size_from(buf, o, k)
            <= buf.len() && buf[o + leb_size_from(buf, o, k) - 1] & 0x80 == 0),
    decreases 10 - k,
{
    if k < 10 && o + k < buf.len() && buf[o + k] & 0x80 != 0 {
        lemma_leb_size_range(buf, o, k + 1);
    }
}

/// `read_uleb` — an unsigned LEB128 number of at most ten bytes.
pub fn read_uleb(buf: &[u8], off: &mut usize) -> (r: Option<u64>)
    ensures
        ({
            let o = *old(off) as int;
            let n = leb_size(buf@, o);
            if n > 0 {
                r == Some(leb_bits(buf@.subrange(o, o + n))) && *final(off) == o + n
            } else {
                r is None && *final(off) == leb_fail_end(buf@, o)
            }
        }),
{
    let ghost o = *off as int;
    let mut result: u64 = 0;
    let mut shift: u32 = 0;
    proof {
        lemma_leb_size_range(buf@, o, 0);
    }
    loop
        invariant
            0 <= shift <= 63,
            shift % 7 == 0,
            *off == o + shift / 7,
            shift > 0 ==> result == leb_bits(buf@.subrange(o, o + shift / 7)),
            shift == 0 ==> result == 0,
            o + shift / 7 <= buf@.len() || shift == 0,
            leb_size(buf@, o) == leb_size_from(buf@, o, (shift / 7) as int),
            o >= 0,
            o == *old(off),
        decreases 64 - shift,
    {
        let ghost k = shift / 7;
        if *off >= buf.len() {
            proof {
                assert(leb_size_from(buf@, o, k as int) == 0);
                assert(*off == leb_fail_end(buf@, o));
            }
            return None;
        }
        let b = buf[*off];
        *off += 1;
        let ghost t = buf@.subrange(o, o + k + 1);
        proof {
            assert(t.drop_last() =~= buf@.subrange(o, o + k));
            assert(t.last() == b);
            if k == 0 {
                assert(leb_bits(t.drop_last()) == 0);
            }
        }
        result = result | (((b & 0x7f) as u64) << (shift as u64));
        if (b & 0x80) == 0 {
            proof {
                assert(leb_size_from(buf@, o, k as int) == k + 1);
            }
            return Some(result);
        }
        shift += 7;
        if shift >= 64 {
            proof {
                assert(leb_size_from(buf@, o, k as int) == leb_size_from(buf@, o, k + 1));
                assert(leb_size_from(buf@, o, 10) == 0);
            }
            return None;
        }
        proof {
            assert(leb_size_from(buf@, o, k as int) == leb_size_from(buf@, o, k + 1));
        }
    }
}

/// The value of a signed LEB128 number whose bytes are `bs`: the groups
/// of `leb_bits`, sign-extended from the top bit of the last group when
/// it does not fill all 64 bits.
pub open spec fn sleb_value(bs: Seq<u8>) -> i64 {
    let shift = 7 * bs.len();
    let v = leb_bits(bs);
    if shift < 64 && bs.last() & 0x40 != 0 {
        (v | (0xffff_ffff_ffff_ffffu64 << (shift as u64))) as i64
    } else {
        v as i64
    }
}

/// `read_sleb` — a signed LEB128 number of at most ten bytes.
pub fn read_sleb(buf: &[u8], off: &mut usize) -> (r: Option<i64>)
    ensures
        ({
            let o = *old(off) as int;
            let n = leb_size(buf@, o);
            if n > 0 {
                r == Some(sleb_value(buf@.subrange(o, o + n))) && *final(off) == o + n
            } else {
                r is None && *final(off) == leb_fail_end(buf@, o)
            }
        }),
{
    let ghost o = *off as int;
    let mut result: u64 = 0;
    let mut shift: u32 = 0;
    let mut last: u8;
    proof {
        lemma_leb_size_range(buf@, o, 0);
    }
    loop
        invariant
            0 <= shift <= 63,
            shift % 7 == 0,
            *off == o + shift / 7,
            shift > 0 ==> result == leb_bits(buf@.subrange(o, o + shift / 7)),
            shift == 0 ==> result == 0,
            o + shift / 7 <= buf@.len() || shift == 0,
            leb_size(buf@, o) == leb_size_from(buf@, o, (shift / 7) as int),
            o >= 0,
            o == *old(off),
        decreases 64 - shift,
    {
        let ghost k = shift / 7;
        if *off >= buf.len() {
            proof {
                assert(leb_size_from(buf@, o, k as int) == 0);
                assert(*off == leb_fail_end(buf@, o));
            }
            return None;
        }
        let b = buf[*off];
        *off += 1;
        let ghost t = buf@.subrange(o, o + k + 1);
        proof {
            assert(t.drop_last() =~= buf@.subrange(o, o + k));
            assert(t.last() == b);
            if k == 0 {
                assert(leb_bits(t.drop_last()) == 0);
            }
        }
        result = result | (((b & 0x7f) as u64) << (shift as u64));
        shift += 7;
        last = b;
        if (b & 0x80) == 0 {
            proof {
                assert(leb_size_from(buf@, o, k as int) == k + 1);
                assert(t.len() == k + 1);
            }
            if shift < 64 && (last & 0x40) != 0 {
                result = result | (0xffff_ffff_ffff_ffffu64 << (shift as u64));
            }
            return Some(result as i64);
        }
        if shift >= 64 {
            proof {
                assert(leb_size_from(buf@, o, k as int) == leb_size_from(buf@, o, k + 1));
                assert(leb_size_from(buf@, o, 10) == 0);
            }
            return None;
        }
        proof {
            assert(leb_size_from(buf@, o, k as int) == leb_size_from(buf@, o, k + 1));
        }
    }
}

/// Index of the first NUL byte of `buf` at or after `o`, or -1.
pub open spec fn nul_from(buf: Seq<u8>, o: int) -> int
    decreases buf.len() - o,
{
    if o < 0 || o >= buf.len() {
        -1
    } else if buf[o] == 0 {
        o
    } else {
        nul_from(buf, o + 1)
    }
}

pub proof fn lemma_nul_from(buf: Seq<u8>, o: int, k: int)
    requires
        0 <= o <= k <= buf.len(),
        forall|j: int| o <= j < k ==> buf[j] != 0u8,
    ensures
        nul_from(buf, o) == nul_from(buf, k),
    decreases k - o,
{
    if o < k {
        assert(buf[o] != 0u8);
        lemma_nul_from(buf, o + 1, k);
    }
}

/// `read_cstr` — the bytes from `off` up to the next NUL, which is
/// skipped; `None` when there is none.
pub fn read_cstr<'a>(buf: &'a [u8], off: &mut usize) -> (r: Option<&'a [u8]>)
    ensures
        ({
            let o = *old(off) as int;
            let z = nul_from(buf@, o);
            if z >= 0 {
                r is Some && r->0@ == buf@.subrange(o, z) && *final(off) == z + 1
            } else {
                r is None && *final(off) == (if o < buf@.len() { buf@.len() as int } else { o })
            }
        }),
{
    let start = *off;
    while *off < buf.len()
        invariant
            start == *old(off),
            start <= *off,
            *off <= buf@.len() || *off == start,
            forall|j: int| start <= j < *off ==> buf@[j] != 0u8,
        decreases buf@.len() - *off,
    {
        if buf[*off] == 0 {
            let s = slice_subrange(buf, start, *off);
            proof {
                lemma_nul_from(buf@, start as int, *off as int);
            }
            *off += 1;
            return Some(s);
        }
        *off += 1;
    }
    proof {
        if start <= buf@.len() {
            lemma_nul_from(buf@, start as int, *off as int);
        }
    }
    None
}

/// `read_initial_length` — a DWARF unit length: four bytes, or the
/// sentinel `0xffffffff` and eight more (64-bit DWARF). Returns the
/// length and whether the unit is 64-bit; the reserved values
/// `0xfffffff0..0xfffffffe` give `None`.
pub fn read_initial_length(buf: &[u8], off: &mut usize) -> (r: Option<(u64, bool)>)
    ensures
        ({
            let o = *old(off) as int;
            let first = le(buf@.subrange(o, o + 4));
            if o + 4 > buf@.len() {
                r is None && *final(off) == o
            } else if first == 0xffff_ffff {
                if o + 12 <= buf@.len() {
                    r == Some((le(buf@.subrange(o + 4, o + 12)) as u64, true)) && *final(off) == o + 12
                } else {
                    r is None && *final(off) == o + 4
                }
            } else if first >= 0xffff_fff0 {
                r is None && *final(off) == o + 4
            } else {
                r == Some((first as u64, false)) && *final(off) == o + 4
            }
        }),
{
    let first = match read_u32(buf, off) {
        Some(v) => v,
        None => {
            return None;
        },
    };
    proof {
        lemma_le_bound(buf@.subrange(*old(off) as int, *old(off) + 4));
        lemma_p256_values();
    }
    if first == 0xffffffff {
        let len = match read_u64(buf, off) {
            Some(v) => v,
            None => {
                return None;
            },
        };
        Some((len, true))
    } else if first >= 0xfffffff0 {
        None
    } else {
        Some((first as u64, false))
    }
}

} // verus!
