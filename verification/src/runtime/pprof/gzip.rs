//! The gzip framing of an encoded profile: a gzip member whose deflate
//! stream is made of stored blocks, with the CRC-32 (IEEE) and length
//! of the data in its trailer.
use vstd::prelude::*;
use crate::runtime::pprof::proto::{profile_bytes, Profile};

verus! {

/// The reflected CRC-32 polynomial.
pub const CRC32_POLY: u32 = 0xedb8_8320;

/// Most bytes a stored deflate block holds.
pub const STORED_BLOCK_MAX: usize = 0xffff;

/// One bit of CRC-32 division: shift right, xor in the polynomial when
/// a one fell out.
pub open spec fn crc_bit(c: u32) -> u32 {
    if c & 1 != 0 {
        CRC32_POLY ^ (c >> 1)
    } else {
        c >> 1
    }
}

/// `k` bits of CRC-32 division on `c`.
pub open spec fn crc_bits(c: u32, k: nat) -> u32
    decreases k,
{
    if k == 0 {
        c
    } else {
        crc_bit(crc_bits(c, (k - 1) as nat))
    }
}

/// The CRC register after the first `i` bytes of `d`, from all ones.
pub open spec fn crc_reg(d: Seq<u8>, i: nat) -> u32
    decreases i,
{
    if i == 0 || i > d.len() {
        0xffff_ffffu32
    } else {
        crc_bits(crc_reg(d, (i - 1) as nat) ^ (d[i - 1] as u32), 8)
    }
}

/// The CRC-32 (IEEE) of `d`: the register after all of `d`, inverted.
pub open spec fn crc32_of(d: Seq<u8>) -> u32 {
    !crc_reg(d, d.len())
}

/// `x` as two little-endian bytes.
pub open spec fn le16(x: int) -> Seq<u8> {
    seq![(x % 256) as u8, ((x / 256) % 256) as u8]
}

/// `x` as four little-endian bytes.
pub open spec fn le32(x: int) -> Seq<u8> {
    seq![(x % 256) as u8, ((x / 256) % 256) as u8, ((x / 65536) % 256) as u8, ((x / 16777216) % 256) as u8]
}

/// The gzip header: deflate, no flags, no time, unknown OS.
pub open spec fn gzip_header() -> Seq<u8> {
    seq![0x1fu8, 0x8bu8, 8u8, 0u8, 0u8, 0u8, 0u8, 0u8, 0u8, 0xffu8]
}

/// A stored block holding `d[i..j]`, final or not.
pub open spec fn stored_block(d: Seq<u8>, i: int, j: int, last: bool) -> Seq<u8> {
    seq![if last { 1u8 } else { 0u8 }] + le16(j - i) + le16(0xffff - (j - i)) + d.subrange(i, j)
}

/// The stored blocks carrying `d` from `i` on: full blocks while more
/// than one block's worth is left, then a final block with the rest
/// (empty when nothing is left).
pub open spec fn stored_blocks(d: Seq<u8>, i: int) -> Seq<u8>
    decreases d.len() - i,
{
    if d.len() - i <= STORED_BLOCK_MAX || i < 0 {
        stored_block(d, i, d.len() as int, true)
    } else {
        stored_block(d, i, i + STORED_BLOCK_MAX, false) + stored_blocks(d, i + STORED_BLOCK_MAX)
    }
}

/// `d` as a gzip member: header, stored blocks, CRC-32 and the length
/// modulo 2^32.
pub open spec fn gzip_stored_of(d: Seq<u8>) -> Seq<u8> {
    gzip_header() + stored_blocks(d, 0) + le32(crc32_of(d) as int) + le32((d.len() % 0x1_0000_0000) as int)
}

/// `crc32` — the CRC-32 (IEEE) of `data`.
pub fn crc32(data: &[u8]) -> (r: u32)
    ensures
        r == crc32_of(data@),
{
    let mut c: u32 = 0xffff_ffff;
    let mut i: usize = 0;
    while i < data.len()
        invariant
            i <= data@.len(),
            c == crc_reg(data@, i as nat),
        decreases data@.len() - i,
    {
        let c0 = c ^ (data[i] as u32);
        c = c0;
        let mut k: usize = 0;
        while k < 8
            invariant
                k <= 8,
                c == crc_bits(c0, k as nat),
            decreases 8 - k,
        {
            c = if c & 1 != 0 {
                CRC32_POLY ^ (c >> 1)
            } else {
                c >> 1
            };
            k += 1;
        }
        i += 1;
    }
    !c
}

/// Appends `x` as two little-endian bytes.
fn push_le16(out: &mut Vec<u8>, x: usize)
    requires
        x <= 0xffff,
    ensures
        final(out)@ == old(out)@ + le16(x as int),
{
    out.push((x % 256) as u8);
    out.push(((x / 256) % 256) as u8);
    assert(final(out)@ =~= old(out)@ + le16(x as int));
}

/// Appends `x` as four little-endian bytes.
fn push_le32(out: &mut Vec<u8>, x: u64)
    requires
        x < 0x1_0000_0000,
    ensures
        final(out)@ == old(out)@ + le32(x as int),
{
    out.push((x % 256) as u8);
    out.push(((x / 256) % 256) as u8);
    out.push(((x / 65536) % 256) as u8);
    out.push(((x / 16777216) % 256) as u8);
    assert(final(out)@ =~= old(out)@ + le32(x as int));
}

/// Appends a stored block holding `data[i..j]`.
fn push_block(out: &mut Vec<u8>, data: &[u8], i: usize, j: usize, last: bool)
    requires
        i <= j <= data@.len(),
        j - i <= STORED_BLOCK_MAX,
    ensures
        final(out)@ == old(out)@ + stored_block(data@, i as int, j as int, last),
{
    out.push(if last { 1u8 } else { 0u8 });
    push_le16(out, j - i);
    push_le16(out, 0xffff - (j - i));
    let ghost mid = out@;
    let mut k: usize = i;
    while k < j
        invariant
            i <= k <= j,
            j <= data@.len(),
            out@ == mid + data@.subrange(i as int, k as int),
        decreases j - k,
    {
        out.push(data[k]);
        proof {
            assert(data@.subrange(i as int, k + 1) =~= data@.subrange(i as int, k as int).push(data@[k as int]));
        }
        k += 1;
    }
    assert(out@ =~= old(out)@ + stored_block(data@, i as int, j as int, last));
}

/// `gzip_stored` — `data` as a gzip member whose deflate stream is made
/// of stored blocks, as `gzip_stored_of` says.
pub fn gzip_stored(data: &[u8]) -> (r: Vec<u8>)
    ensures
        r@ == gzip_stored_of(data@),
{
    let mut out: Vec<u8> = Vec::new();
    out.push(0x1f);
    out.push(0x8b);
    out.push(8);
    out.push(0);
    out.push(0);
    out.push(0);
    out.push(0);
    out.push(0);
    out.push(0);
    out.push(0xff);
    assert(out@ =~= gzip_header());
    let mut i: usize = 0;
    loop
        invariant_except_break
            i <= data@.len(),
            out@ + stored_blocks(data@, i as int) == gzip_header() + stored_blocks(data@, 0),
        ensures
            out@ == gzip_header() + stored_blocks(data@, 0),
        decreases data@.len() - i,
    {
        let n = data.len();
        if n - i <= STORED_BLOCK_MAX {
            let ghost before = out@;
            push_block(&mut out, data, i, n, true);
            assert(out@ == before + stored_blocks(data@, i as int));
            break;
        }
        let ghost before = out@;
        push_block(&mut out, data, i, i + STORED_BLOCK_MAX, false);
        proof {
            assert(out@ + stored_blocks(data@, (i + STORED_BLOCK_MAX) as int) =~= before + stored_blocks(
                data@,
                i as int,
            ));
        }
        i = i + STORED_BLOCK_MAX;
    }
    let crc = crc32(data);
    push_le32(&mut out, crc as u64);
    let len = (data.len() as u64) % 0x1_0000_0000u64;
    push_le32(&mut out, len);
    assert(out@ =~= gzip_stored_of(data@));
    out
}

/// `marshal_gzip` — the profile's protobuf bytes, gzip-framed as
/// `gzip_stored` frames them.
pub fn marshal_gzip(p: &Profile) -> (r: Vec<u8>)
    ensures
        r@ == gzip_stored_of(profile_bytes(*p)),
{
    let raw = p.marshal();
    gzip_stored(&raw)
}

} // verus!
