//! `.debug_aranges`: units that each map address ranges to the offset
//! of a compilation unit in `.debug_info`, flattened into a table sorted
//! by start address and searched by program counter.
use vstd::prelude::*;
use super::dwarf_util::{read_initial_length, read_u16, read_u32, read_u64, read_u8};
use super::elf::le_at;
use super::keyed::{Keyed, sort_by_key, stable_sorted, sorted_by_key, split_at_key, upper_bound};

verus! {

/// Addresses `[pc_lo, pc_hi)` belong to the compilation unit at
/// `cu_offset` in `.debug_info`.
#[derive(Clone, Copy)]
pub struct ArangeEntry {
    pub pc_lo: u64,
    pub pc_hi: u64,
    pub cu_offset: u64,
}

impl Keyed for ArangeEntry {
    open spec fn spec_key(&self) -> u64 {
        self.pc_lo
    }

    fn key(&self) -> (r: u64) {
        self.pc_lo
    }
}

/// `a + b` wrapped to 64 bits.
pub open spec fn wrap_add(a: u64, b: u64) -> u64 {
    if a + b > u64::MAX {
        (a + b - 0x1_0000_0000_0000_0000) as u64
    } else {
        (a + b) as u64
    }
}

/// The parsed header of the unit at `off`: where it ends, its
/// compilation unit offset, its address size, and where its tuples
/// start; `None` when the header is cut off or malformed.
pub open spec fn unit_header(b: Seq<u8>, off: int) -> Option<(int, u64, int, int)> {
    if off + 4 > b.len() {
        None
    } else {
        let first = le_at(b, off, 4);
        let (length, is64, h) = if first == 0xffff_ffff {
            (le_at(b, off + 4, 8), true, off + 12)
        } else {
            (first, false, off + 4)
        };
        if first == 0xffff_ffff && off + 12 > b.len() {
            None
        } else if first != 0xffff_ffff && first >= 0xffff_fff0 {
            None
        } else if h + length > b.len() {
            None
        } else {
            let cu_size = if is64 { 8int } else { 4int };
            let q = h + 2 + cu_size;
            if h + 2 > b.len() || q > b.len() || q + 2 > b.len() {
                None
            } else {
                let cu = le_at(b, h + 2, cu_size) as u64;
                let asz = b[q] as int;
                let align = if 2 * asz > 1 { 2 * asz } else { 1 };
                let pad = (align - ((q + 2 - off) % align)) % align;
                Some((h + length, cu, asz, q + 2 + pad))
            }
        }
    }
}

/// The entries of the address tuples from `p` up to `unit_end`: pairs
/// of 8-byte address and length, ending at `(0, 0)`; empty ranges are
/// skipped.
pub open spec fn tuples(b: Seq<u8>, p: int, unit_end: int, cu: u64) -> Seq<ArangeEntry>
    decreases unit_end - p,
{
    if p + 16 > unit_end || p < 0 {
        Seq::empty()
    } else {
        let addr = le_at(b, p, 8) as u64;
        let len = le_at(b, p + 8, 8) as u64;
        if addr == 0 && len == 0 {
            Seq::empty()
        } else if len == 0 {
            tuples(b, p + 16, unit_end, cu)
        } else {
            seq![ArangeEntry { pc_lo: addr, pc_hi: wrap_add(addr, len), cu_offset: cu }] + tuples(
                b,
                p + 16,
                unit_end,
                cu,
            )
        }
    }
}

/// The entries of the units from `off` on, in file order, up to the
/// first malformed unit. Units with an address size other than 8 give
/// none.
pub open spec fn units(b: Seq<u8>, off: int) -> Seq<ArangeEntry>
    decreases b.len() - off,
{
    if off < 0 || off >= b.len() {
        Seq::empty()
    } else {
        match unit_header(b, off) {
            None => Seq::empty(),
            Some((unit_end, cu, asz, p)) => {
                if unit_end <= off {
                    Seq::empty()
                } else if asz != 8 {
                    units(b, unit_end)
                } else {
                    tuples(b, p, unit_end, cu) + units(b, unit_end)
                }
            },
        }
    }
}

/// Parse the unit header at `off`, as `unit_header` says.
fn parse_header(b: &[u8], off: usize) -> (r: Option<(usize, u64, u8, usize)>)
    requires
        off < b@.len(),
        b@.len() + 0x200 <= usize::MAX,
    ensures
        match r {
            None => unit_header(b@, off as int) is None,
            Some((ue, cu, asz, p)) => unit_header(b@, off as int) == Some((ue as int, cu, asz as int, p as int)),
        },
{
    let len = b.len();
    let mut o = off;
    proof {
        super::dwarf_util::lemma_le_bound(b@.subrange(off as int, off + 4));
        super::dwarf_util::lemma_p256_values();
        if off + 12 <= len {
            super::dwarf_util::lemma_le_bound(b@.subrange(off + 4, off + 12));
        }
    }
    let (length, is64) = match read_initial_length(b, &mut o) {
        Some(v) => v,
        None => {
            return None;
        },
    };
    if length > (len - o) as u64 {
        return None;
    }
    let unit_end = o + length as usize;
    let _version = match read_u16(b, &mut o) {
        Some(v) => v,
        None => {
            return None;
        },
    };
    let cu = if is64 {
        match read_u64(b, &mut o) {
            Some(v) => v,
            None => {
                return None;
            },
        }
    } else {
        match read_u32(b, &mut o) {
            Some(v) => {
                proof {
                    super::dwarf_util::lemma_le_bound(b@.subrange(o - 4, o as int));
                }
                v as u64
            },
            None => {
                return None;
            },
        }
    };
    let asz = match read_u8(b, &mut o) {
        Some(v) => v,
        None => {
            return None;
        },
    };
    let _seg = match read_u8(b, &mut o) {
        Some(v) => v,
        None => {
            return None;
        },
    };
    let a2 = 2 * (asz as usize);
    let align = if a2 > 1 { a2 } else { 1 };
    let from_unit = o - off;
    let pad = (align - (from_unit % align)) % align;
    Some((unit_end, cu, asz, o + pad))
}

/// `build` — the entries of every unit of `.debug_aranges`, stably
/// sorted by start address. Parsing stops at the first malformed unit.
pub fn build(aranges: &[u8]) -> (r: Vec<ArangeEntry>)
    requires
        aranges@.len() + 0x200 <= usize::MAX,
    ensures
        stable_sorted(r@, units(aranges@, 0)),
{
    let mut out: Vec<ArangeEntry> = Vec::new();
    let mut off: usize = 0;
    let len = aranges.len();
    while off < len
        invariant
            len == aranges@.len(),
            len + 0x200 <= usize::MAX,
            off <= len,
            out@ + units(aranges@, off as int) == units(aranges@, 0),
        ensures
            out@ == units(aranges@, 0),
        decreases len - off,
    {
        let (unit_end, cu, asz, start) = match parse_header(aranges, off) {
            Some(h) => h,
            None => {
                assert(out@ + Seq::<ArangeEntry>::empty() =~= out@);
                break;
            },
        };
        if unit_end <= off {
            assert(out@ + Seq::<ArangeEntry>::empty() =~= out@);
            break;
        }
        if asz != 8 {
            off = unit_end;
            continue;
        }
        let mut p = start;
        proof {
            assert(units(aranges@, off as int) == tuples(aranges@, p as int, unit_end as int, cu) + units(aranges@, unit_end as int));
        }
        while p <= unit_end && unit_end - p >= 16
            invariant
                len == aranges@.len(),
                unit_end <= len,
                out@ + tuples(aranges@, p as int, unit_end as int, cu) + units(aranges@, unit_end as int) == units(aranges@, 0),
            ensures
                out@ + units(aranges@, unit_end as int) == units(aranges@, 0),
            decreases unit_end - p,
        {
            let mut q = p;
            let addr = read_u64(aranges, &mut q).unwrap();
            let n = read_u64(aranges, &mut q).unwrap();
            if addr == 0 && n == 0 {
                proof {
                    assert(tuples(aranges@, p as int, unit_end as int, cu) =~= Seq::<ArangeEntry>::empty());
                    assert(out@ + Seq::<ArangeEntry>::empty() =~= out@);
                }
                break;
            }
            let ghost before = out@;
            let ghost rest = tuples(aranges@, p + 16, unit_end as int, cu);
            if n != 0 {
                let e = ArangeEntry { pc_lo: addr, pc_hi: addr.wrapping_add(n), cu_offset: cu };
                out.push(e);
                proof {
                    assert(tuples(aranges@, p as int, unit_end as int, cu) == seq![e] + rest);
                    assert(before + (seq![e] + rest) =~= out@ + rest);
                }
            }
            p = p + 16;
        }
        off = unit_end;
    }
    proof {
        if off >= len {
            assert(out@ + Seq::<ArangeEntry>::empty() =~= out@);
        }
    }
    sort_by_key(&out)
}

/// `lookup` — the compilation unit whose range holds `pc`: that of the
/// last entry starting at or before `pc`, if `pc` lies before its end.
pub fn lookup(table: &[ArangeEntry], pc: u64) -> (r: Option<u64>)
    ensures
        sorted_by_key(table@) ==> exists|idx: int|
            #[trigger] split_at_key(table@, pc, idx) && r == (if idx > 0 && pc < table@[idx - 1].pc_hi {
                Some(table@[idx - 1].cu_offset)
            } else {
                None
            }),
        r is Some ==> exists|k: int|
            0 <= k < table@.len() && table@[k].pc_lo <= pc < table@[k].pc_hi && r == Some(#[trigger] table@[k].cu_offset),
{
    let lo = upper_bound(table, pc);
    proof {
        if sorted_by_key(table@) {
            assert(split_at_key(table@, pc, lo as int));
        }
    }
    if lo == 0 {
        return None;
    }
    let e = table[lo - 1];
    if pc < e.pc_hi {
        Some(e.cu_offset)
    } else {
        None
    }
}

} // verus!
