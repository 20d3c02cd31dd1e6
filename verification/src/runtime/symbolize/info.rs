//! The compilation units of `.debug_info`, read only as far as the
//! first DIE of each, for the line table offset (`DW_AT_stmt_list`) and
//! the compilation directory (`DW_AT_comp_dir`) that resolve relative
//! file names. The DIE's shape comes from its entry in `.debug_abbrev`.
//!
//! Every read is bounds-checked: a cut-off unit ends the walk, a unit
//! whose DIE cannot be read is skipped, and a cursor that would pass
//! `usize::MAX` stops there.
use vstd::prelude::*;
use vstd::slice::slice_subrange;
use crate::runtime::pprof::cpu::bytes_vec;
use crate::runtime::symbolize::dwarf_util::{
    le, leb_bits, leb_fail_end, leb_size, nul_from, read_initial_length, read_sleb, read_u16, read_u32,
    read_u64, read_u8, read_uleb, lemma_le_bound, lemma_p256_values, lemma_leb_size_range,
    lemma_nul_from,
};

verus! {

pub const DW_AT_STMT_LIST: u64 = 0x10;
pub const DW_AT_COMP_DIR: u64 = 0x1b;

pub const DW_FORM_ADDR: u64 = 0x01;
pub const DW_FORM_BLOCK2: u64 = 0x03;
pub const DW_FORM_BLOCK4: u64 = 0x04;
pub const DW_FORM_DATA2: u64 = 0x05;
pub const DW_FORM_DATA4: u64 = 0x06;
pub const DW_FORM_DATA8: u64 = 0x07;
pub const DW_FORM_STRING: u64 = 0x08;
pub const DW_FORM_BLOCK: u64 = 0x09;
pub const DW_FORM_BLOCK1: u64 = 0x0a;
pub const DW_FORM_DATA1: u64 = 0x0b;
pub const DW_FORM_FLAG: u64 = 0x0c;
pub const DW_FORM_SDATA: u64 = 0x0d;
pub const DW_FORM_STRP: u64 = 0x0e;
pub const DW_FORM_UDATA: u64 = 0x0f;
pub const DW_FORM_REF_ADDR: u64 = 0x10;
pub const DW_FORM_REF1: u64 = 0x11;
pub const DW_FORM_REF2: u64 = 0x12;
pub const DW_FORM_REF4: u64 = 0x13;
pub const DW_FORM_REF8: u64 = 0x14;
pub const DW_FORM_REF_UDATA: u64 = 0x15;
pub const DW_FORM_INDIRECT: u64 = 0x16;
pub const DW_FORM_SEC_OFFSET: u64 = 0x17;
pub const DW_FORM_EXPRLOC: u64 = 0x18;
pub const DW_FORM_FLAG_PRESENT: u64 = 0x19;
pub const DW_FORM_REF_SIG8: u64 = 0x20;

/// `x`, kept at or below `usize::MAX`.
pub open spec fn sat(x: int) -> int {
    if x > usize::MAX {
        usize::MAX as int
    } else {
        x
    }
}

/// `n` bytes at `o`, little-endian, and the offset after them.
pub open spec fn fixed_at(b: Seq<u8>, o: int, n: int) -> Option<(int, int)> {
    if 0 <= o && o + n <= b.len() {
        Some((le(b.subrange(o, o + n)) as int, o + n))
    } else {
        None
    }
}

/// The byte at `o`, and the offset after it.
pub open spec fn byte_at(b: Seq<u8>, o: int) -> Option<(int, int)> {
    if 0 <= o < b.len() {
        Some((b[o] as int, o + 1))
    } else {
        None
    }
}

/// The unsigned LEB128 number at `o`, and the offset after it.
pub open spec fn uleb_at(b: Seq<u8>, o: int) -> Option<(u64, int)> {
    let n = leb_size(b, o);
    if n > 0 {
        Some((leb_bits(b.subrange(o, o + n)), o + n))
    } else {
        None
    }
}

/// A LEB128 number that can be read ends past where it starts and
/// within the input.
pub proof fn lemma_uleb_at_advances(b: Seq<u8>, o: int)
    ensures
        uleb_at(b, o) matches Some((_, e)) ==> o < e <= b.len(),
{
    lemma_leb_size_range(b, o, 0);
}

/// Where the cursor stands after a LEB128 number at `o` is stepped
/// over, read or not.
pub open spec fn leb_end(b: Seq<u8>, o: int) -> int {
    let n = leb_size(b, o);
    if n > 0 {
        o + n
    } else {
        leb_fail_end(b, o)
    }
}

/// Where a NUL-terminated string starting at `o` stops: at its NUL, at
/// the end of the input, or at `o` when `o` is already past it.
pub open spec fn str_stop(b: Seq<u8>, o: int) -> int {
    if o >= b.len() {
        o
    } else if nul_from(b, o) >= 0 {
        nul_from(b, o)
    } else {
        b.len() as int
    }
}

/// Where skipping a value of `form` at `o` leaves the cursor, or `None`
/// when the form is unknown or the length of a block cannot be read.
pub open spec fn skip_form_spec(b: Seq<u8>, o: int, form: u64, is64: bool, asz: u8) -> Option<int>
    decreases b.len() - o,
{
    if form == DW_FORM_ADDR {
        Some(sat(o + asz))
    } else if form == DW_FORM_DATA1 || form == DW_FORM_REF1 || form == DW_FORM_FLAG {
        Some(sat(o + 1))
    } else if form == DW_FORM_DATA2 || form == DW_FORM_REF2 {
        Some(sat(o + 2))
    } else if form == DW_FORM_DATA4 || form == DW_FORM_REF4 {
        Some(sat(o + 4))
    } else if form == DW_FORM_DATA8 || form == DW_FORM_REF8 || form == DW_FORM_REF_SIG8 {
        Some(sat(o + 8))
    } else if form == DW_FORM_SDATA || form == DW_FORM_UDATA || form == DW_FORM_REF_UDATA {
        Some(leb_end(b, o))
    } else if form == DW_FORM_STRING {
        Some(sat(str_stop(b, o) + 1))
    } else if form == DW_FORM_STRP || form == DW_FORM_SEC_OFFSET || form == DW_FORM_REF_ADDR {
        Some(sat(o + if is64 { 8int } else { 4int }))
    } else if form == DW_FORM_BLOCK1 {
        match byte_at(b, o) {
            Some((n, o1)) => Some(sat(o1 + n)),
            None => None,
        }
    } else if form == DW_FORM_BLOCK2 {
        match fixed_at(b, o, 2) {
            Some((n, o1)) => Some(sat(o1 + n)),
            None => None,
        }
    } else if form == DW_FORM_BLOCK4 {
        match fixed_at(b, o, 4) {
            Some((n, o1)) => Some(sat(o1 + n)),
            None => None,
        }
    } else if form == DW_FORM_BLOCK || form == DW_FORM_EXPRLOC {
        match uleb_at(b, o) {
            Some((n, o1)) => Some(sat(o1 + n)),
            None => None,
        }
    } else if form == DW_FORM_FLAG_PRESENT {
        Some(o)
    } else if form == DW_FORM_INDIRECT {
        match uleb_at(b, o) {
            Some((inner, o1)) => {
                proof {
                    lemma_uleb_at_advances(b, o);
                }
                skip_form_spec(b, o1, inner, is64, asz)
            },
            None => None,
        }
    } else {
        None
    }
}

/// The attribute specifications `(name, form)` of an abbreviation,
/// read from `o` up to the `(0, 0)` that ends them, and the offset
/// after it; `None` when a number cannot be read.
pub open spec fn attrs_at(b: Seq<u8>, o: int) -> Option<(Seq<(u64, u64)>, int)>
    decreases b.len() - o,
{
    proof {
        lemma_uleb_at_advances(b, o);
    }
    match uleb_at(b, o) {
        None => None,
        Some((name, o1)) => {
            proof {
                lemma_uleb_at_advances(b, o1);
            }
            match uleb_at(b, o1) {
                None => None,
                Some((form, o2)) => if name == 0 && form == 0 {
                    Some((Seq::empty(), o2))
                } else {
                    match attrs_at(b, o2) {
                        None => None,
                        Some((rest, o3)) => Some((seq![(name, form)] + rest, o3)),
                    }
                },
            }
        },
    }
}

/// One abbreviation.
pub struct AbbrevView {
    pub code: u64,
    pub tag: u64,
    pub has_children: bool,
    pub attrs: Seq<(u64, u64)>,
}

/// Where `attrs_at` leaves the cursor: past where it started.
pub proof fn lemma_attrs_at_advances(b: Seq<u8>, o: int)
    ensures
        attrs_at(b, o) matches Some((_, e)) ==> o < e <= b.len(),
    decreases b.len() - o,
{
    lemma_uleb_at_advances(b, o);
    if let Some((name, o1)) = uleb_at(b, o) {
        lemma_uleb_at_advances(b, o1);
        if let Some((form, o2)) = uleb_at(b, o1) {
            if !(name == 0 && form == 0) {
                lemma_attrs_at_advances(b, o2);
            }
        }
    }
}

/// The abbreviations of the table at `o`, up to its 0 code or the
/// first entry that cannot be read.
pub open spec fn abbrevs_at(b: Seq<u8>, o: int) -> Seq<AbbrevView>
    decreases b.len() - o,
{
    proof {
        lemma_uleb_at_advances(b, o);
    }
    match uleb_at(b, o) {
        None => Seq::empty(),
        Some((code, o1)) => if code == 0 {
            Seq::empty()
        } else {
            proof {
                lemma_uleb_at_advances(b, o1);
            }
            match uleb_at(b, o1) {
                None => Seq::empty(),
                Some((tag, o2)) => match byte_at(b, o2) {
                    None => Seq::empty(),
                    Some((hc, o3)) => match attrs_at(b, o3) {
                        None => Seq::empty(),
                        Some((attrs, o4)) => {
                            proof {
                                lemma_attrs_at_advances(b, o3);
                            }
                            seq![AbbrevView { code, tag, has_children: hc != 0, attrs }] + abbrevs_at(b, o4)
                        },
                    },
                },
            }
        },
    }
}

/// The first abbreviation with `code`.
pub open spec fn find_abbrev(t: Seq<AbbrevView>, code: u64) -> Option<AbbrevView>
    decreases t.len(),
{
    if t.len() == 0 {
        None
    } else if t[0].code == code {
        Some(t[0])
    } else {
        find_abbrev(t.drop_first(), code)
    }
}

/// The string of `.debug_str` at `so`, up to its NUL or the end.
pub open spec fn str_at(s: Seq<u8>, so: int) -> Seq<u8> {
    s.subrange(so, str_stop(s, so))
}

/// A section offset (eight bytes in 64-bit DWARF, else four) at `o`.
pub open spec fn sec_offset_at(b: Seq<u8>, o: int, is64: bool) -> Option<(int, int)> {
    fixed_at(
        b,
        o,
        if is64 {
            8
        } else {
            4
        },
    )
}

/// The line table offset and compilation directory read from the
/// attributes `attrs[i..]` of a DIE whose values start at `off`, with
/// those found so far; a value that cannot be read ends the DIE.
pub open spec fn die_attrs(
    info: Seq<u8>,
    strs: Seq<u8>,
    attrs: Seq<(u64, u64)>,
    i: int,
    off: int,
    is64: bool,
    asz: u8,
    stmt: Option<u64>,
    dir: Option<Seq<u8>>,
) -> (Option<u64>, Option<Seq<u8>>)
    decreases attrs.len() - i,
{
    if i < 0 || i >= attrs.len() {
        (stmt, dir)
    } else {
        let name = attrs[i].0;
        let f = if attrs[i].1 == DW_FORM_INDIRECT {
            uleb_at(info, off)
        } else {
            Some((attrs[i].1, off))
        };
        match f {
            None => (stmt, dir),
            Some((form, o1)) => if name == DW_AT_STMT_LIST && (form == DW_FORM_SEC_OFFSET || form
                == DW_FORM_DATA4 || form == DW_FORM_DATA8) {
                let n = if form == DW_FORM_SEC_OFFSET {
                    if is64 {
                        8int
                    } else {
                        4int
                    }
                } else if form == DW_FORM_DATA4 {
                    4int
                } else {
                    8int
                };
                match fixed_at(info, o1, n) {
                    None => (stmt, dir),
                    Some((v, o2)) => die_attrs(info, strs, attrs, i + 1, o2, is64, asz, Some(v as u64), dir),
                }
            } else if name == DW_AT_COMP_DIR && form == DW_FORM_STRP {
                match sec_offset_at(info, o1, is64) {
                    None => (stmt, dir),
                    Some((so, o2)) => if so >= strs.len() {
                        (stmt, dir)
                    } else {
                        die_attrs(info, strs, attrs, i + 1, o2, is64, asz, stmt, Some(str_at(strs, so)))
                    },
                }
            } else if name == DW_AT_COMP_DIR && form == DW_FORM_STRING {
                let e = str_stop(info, o1);
                let s = if o1 >= info.len() {
                    Seq::empty()
                } else {
                    info.subrange(o1, e)
                };
                let o2 = if e < info.len() {
                    e + 1
                } else {
                    e
                };
                die_attrs(info, strs, attrs, i + 1, o2, is64, asz, stmt, Some(s))
            } else {
                match skip_form_spec(info, o1, form, is64, asz) {
                    None => (stmt, dir),
                    Some(o2) => die_attrs(info, strs, attrs, i + 1, o2, is64, asz, stmt, dir),
                }
            },
        }
    }
}

/// A unit length at `o` as `read_initial_length` reads it: the length,
/// whether the unit is 64-bit, and the offset after it.
pub open spec fn initial_length_at(b: Seq<u8>, o: int) -> Option<(int, bool, int)> {
    if o < 0 || o + 4 > b.len() {
        None
    } else {
        let first = le(b.subrange(o, o + 4));
        if first == 0xffff_ffff {
            if o + 12 <= b.len() {
                Some((le(b.subrange(o + 4, o + 12)) as int, true, o + 12))
            } else {
                None
            }
        } else if first >= 0xffff_fff0 {
            None
        } else {
            Some((first as int, false, o + 4))
        }
    }
}

/// The header of the unit at `off`: where the unit ends, where its
/// first DIE starts, whether it is 64-bit, its abbreviation table
/// offset and its address size; `None` when the header is cut off,
/// malformed, or the unit runs past the section.
pub open spec fn unit_header_at(info: Seq<u8>, off: int) -> Option<(int, int, bool, int, int)> {
    match initial_length_at(info, off) {
        None => None,
        Some((length, is64, o1)) => if length > info.len() - o1 {
            None
        } else {
            match fixed_at(info, o1, 2) {
                None => None,
                Some((_, o2)) => match sec_offset_at(info, o2, is64) {
                    None => None,
                    Some((aoff, o3)) => match byte_at(info, o3) {
                        None => None,
                        Some((asz, o4)) => Some((o1 + length, o4, is64, aoff, asz)),
                    },
                },
            }
        },
    }
}

/// What the first DIE of a unit gives: its `(stmt_list, comp_dir)`
/// when it has both, else nothing.
pub open spec fn unit_entry(
    info: Seq<u8>,
    abbrev: Seq<u8>,
    strs: Seq<u8>,
    o4: int,
    is64: bool,
    aoff: int,
    asz: int,
) -> Seq<(u64, Seq<u8>)> {
    match uleb_at(info, o4) {
        None => Seq::empty(),
        Some((code, o5)) => if code == 0 {
            Seq::empty()
        } else {
            match find_abbrev(abbrevs_at(abbrev, aoff as usize as int), code) {
                None => Seq::empty(),
                Some(a) => {
                    let d = die_attrs(info, strs, a.attrs, 0, o5, is64, asz as u8, None, None);
                    if d.0 is Some && d.1 is Some {
                        seq![(d.0->0, d.1->0)]
                    } else {
                        Seq::empty()
                    }
                },
            }
        },
    }
}

/// `(stmt_list, comp_dir)` of each unit from `off` on that has both.
pub open spec fn comp_dirs_from(info: Seq<u8>, abbrev: Seq<u8>, strs: Seq<u8>, off: int) -> Seq<(u64, Seq<u8>)>
    decreases info.len() - off,
{
    if off < 0 || off >= info.len() {
        Seq::empty()
    } else {
        match unit_header_at(info, off) {
            None => Seq::empty(),
            Some((unit_end, o4, is64, aoff, asz)) => unit_entry(info, abbrev, strs, o4, is64, aoff, asz)
                + comp_dirs_from(info, abbrev, strs, unit_end),
        }
    }
}

/// One abbreviation, as parsed.
pub struct Abbrev {
    pub code: u64,
    pub tag: u64,
    pub has_children: bool,
    pub attrs: Vec<(u64, u64)>,
}

impl View for Abbrev {
    type V = AbbrevView;

    open spec fn view(&self) -> AbbrevView {
        AbbrevView { code: self.code, tag: self.tag, has_children: self.has_children, attrs: self.attrs@ }
    }
}

/// The views of a list of abbreviations.
pub open spec fn abbrev_views(v: Seq<Abbrev>) -> Seq<AbbrevView> {
    v.map_values(|a: Abbrev| a@)
}

/// Parses the abbreviation table at `start` of `.debug_abbrev`.
pub fn parse_abbrev_table(buf: &[u8], start: usize) -> (out: Vec<Abbrev>)
    ensures
        abbrev_views(out@) == abbrevs_at(buf@, start as int),
{
    let mut out: Vec<Abbrev> = Vec::new();
    let mut off = start;
    loop
        invariant
            abbrevs_at(buf@, start as int) == abbrev_views(out@) + abbrevs_at(buf@, off as int),
        ensures
            abbrev_views(out@) == abbrevs_at(buf@, start as int),
        decreases buf.len() - off,
    {
        let mut p = off;
        proof {
            lemma_uleb_at_advances(buf@, off as int);
        }
        let code = match read_uleb(buf, &mut p) {
            Some(v) => v,
            None => {
                assert(abbrev_views(out@) + Seq::<AbbrevView>::empty() =~= abbrev_views(out@));
                break;
            },
        };
        if code == 0 {
            assert(abbrev_views(out@) + Seq::<AbbrevView>::empty() =~= abbrev_views(out@));
            break;
        }
        let ghost o1 = p as int;
        proof {
            lemma_uleb_at_advances(buf@, o1);
        }
        let tag = match read_uleb(buf, &mut p) {
            Some(v) => v,
            None => {
                assert(abbrev_views(out@) + Seq::<AbbrevView>::empty() =~= abbrev_views(out@));
                break;
            },
        };
        let hc = match read_u8(buf, &mut p) {
            Some(v) => v,
            None => {
                assert(abbrev_views(out@) + Seq::<AbbrevView>::empty() =~= abbrev_views(out@));
                break;
            },
        };
        let ghost o3 = p as int;
        let (attrs, ok) = read_attr_specs(buf, &mut p);
        if !ok {
            assert(abbrev_views(out@) + Seq::<AbbrevView>::empty() =~= abbrev_views(out@));
            break;
        }
        proof {
            lemma_attrs_at_advances(buf@, o3);
        }
        let ghost prev = abbrev_views(out@);
        let ab = Abbrev { code, tag, has_children: hc != 0, attrs };
        let ghost abv = ab@;
        out.push(ab);
        proof {
            assert(abbrev_views(out@) =~= prev.push(abv));
            assert(prev.push(abv) + abbrevs_at(buf@, p as int) =~= prev + (seq![abv] + abbrevs_at(buf@, p as int)));
        }
        off = p;
    }
    out
}

/// Reads attribute specifications at `*off` up to their `(0, 0)`, as
/// `attrs_at` says; `false` when a number cannot be read.
fn read_attr_specs(buf: &[u8], off: &mut usize) -> (r: (Vec<(u64, u64)>, bool))
    ensures
        r.1 ==> attrs_at(buf@, *old(off) as int) == Some((r.0@, *final(off) as int)),
        !r.1 ==> attrs_at(buf@, *old(off) as int) is None,
{
    let ghost o3 = *off as int;
    let mut attrs: Vec<(u64, u64)> = Vec::new();
    assert(attrs@ =~= Seq::<(u64, u64)>::empty());
    loop
        invariant
            o3 == *old(off) as int,
            attrs_at(buf@, o3) == (match attrs_at(buf@, *off as int) {
                Some((r, e)) => Some((attrs@ + r, e)),
                None => None,
            }),
        decreases buf.len() - *off,
    {
        let mut q = *off;
        proof {
            lemma_uleb_at_advances(buf@, q as int);
        }
        let name = match read_uleb(buf, &mut q) {
            Some(v) => v,
            None => {
                assert(uleb_at(buf@, *off as int) is None);
                assert(attrs_at(buf@, *off as int) is None);
                return (attrs, false);
            },
        };
        let ghost a1 = q as int;
        proof {
            lemma_uleb_at_advances(buf@, a1);
        }
        let form = match read_uleb(buf, &mut q) {
            Some(v) => v,
            None => {
                assert(uleb_at(buf@, a1) is None);
                assert(attrs_at(buf@, *off as int) is None);
                return (attrs, false);
            },
        };
        if name == 0 && form == 0 {
            assert(attrs@ + Seq::<(u64, u64)>::empty() =~= attrs@);
            *off = q;
            return (attrs, true);
        }
        proof {
            let rest = attrs_at(buf@, q as int);
            if let Some((r, e)) = rest {
                assert(attrs@.push((name, form)) + r =~= attrs@ + (seq![(name, form)] + r));
            }
        }
        attrs.push((name, form));
        *off = q;
    }
}

/// Steps `*off` over a value of `form`, as `skip_form_spec` says;
/// `false` when it cannot.
pub fn skip_form(info: &[u8], off: &mut usize, form: u64, is64: bool, asz: u8) -> (ok: bool)
    ensures
        match skip_form_spec(info@, *old(off) as int, form, is64, asz) {
            Some(e) => ok && *final(off) == e,
            None => !ok,
        },
    decreases info.len() - *old(off),
{
    if form == DW_FORM_ADDR {
        *off = off.saturating_add(asz as usize);
    } else if form == DW_FORM_DATA1 || form == DW_FORM_REF1 || form == DW_FORM_FLAG {
        *off = off.saturating_add(1);
    } else if form == DW_FORM_DATA2 || form == DW_FORM_REF2 {
        *off = off.saturating_add(2);
    } else if form == DW_FORM_DATA4 || form == DW_FORM_REF4 {
        *off = off.saturating_add(4);
    } else if form == DW_FORM_DATA8 || form == DW_FORM_REF8 || form == DW_FORM_REF_SIG8 {
        *off = off.saturating_add(8);
    } else if form == DW_FORM_SDATA {
        let _ = read_sleb(info, off);
    } else if form == DW_FORM_UDATA || form == DW_FORM_REF_UDATA {
        let _ = read_uleb(info, off);
    } else if form == DW_FORM_STRING {
        let o = *off;
        while *off < info.len() && info[*off] != 0
            invariant
                o <= *off,
                o < info.len() ==> *off <= info.len(),
                o >= info.len() ==> *off == o,
                forall|j: int| o <= j < *off ==> info@[j] != 0u8,
            decreases info.len() - *off,
        {
            *off = *off + 1;
        }
        proof {
            lemma_str_stop(info@, o as int, *off as int);
        }
        *off = off.saturating_add(1);
    } else if form == DW_FORM_STRP || form == DW_FORM_SEC_OFFSET || form == DW_FORM_REF_ADDR {
        *off = off.saturating_add(if is64 { 8 } else { 4 });
    } else if form == DW_FORM_BLOCK1 {
        let n = match read_u8(info, off) {
            Some(v) => v,
            None => {
                return false;
            },
        };
        *off = off.saturating_add(n as usize);
    } else if form == DW_FORM_BLOCK2 {
        let ghost o = *off as int;
        let n = match read_u16(info, off) {
            Some(v) => v,
            None => {
                return false;
            },
        };
        proof {
            lemma_le_bound(info@.subrange(o, o + 2));
            lemma_p256_values();
        }
        *off = off.saturating_add(n as usize);
    } else if form == DW_FORM_BLOCK4 {
        let ghost o = *off as int;
        let n = match read_u32(info, off) {
            Some(v) => v,
            None => {
                return false;
            },
        };
        proof {
            lemma_le_bound(info@.subrange(o, o + 4));
            lemma_p256_values();
        }
        *off = off.saturating_add(n as usize);
    } else if form == DW_FORM_BLOCK || form == DW_FORM_EXPRLOC {
        let n = match read_uleb(info, off) {
            Some(v) => v,
            None => {
                return false;
            },
        };
        let step: usize = if n > usize::MAX as u64 {
            usize::MAX
        } else {
            n as usize
        };
        *off = off.saturating_add(step);
    } else if form == DW_FORM_FLAG_PRESENT {
    } else if form == DW_FORM_INDIRECT {
        let ghost o = *off as int;
        proof {
            lemma_uleb_at_advances(info@, o);
        }
        let inner = match read_uleb(info, off) {
            Some(v) => v,
            None => {
                return false;
            },
        };
        return skip_form(info, off, inner, is64, asz);
    } else {
        return false;
    }
    true
}

proof fn lemma_str_stop(b: Seq<u8>, o: int, k: int)
    requires
        0 <= o <= k,
        o < b.len() ==> k <= b.len(),
        o >= b.len() ==> k == o,
        forall|j: int| o <= j < k ==> b[j] != 0u8,
        k < b.len() ==> b[k] == 0u8,
    ensures
        str_stop(b, o) == k,
{
    if o < b.len() {
        lemma_nul_from(b, o, k);
    }
}

/// A section offset, as `sec_offset_at` says.
fn read_sec_offset(info: &[u8], off: &mut usize, is64: bool) -> (r: Option<u64>)
    ensures
        match sec_offset_at(info@, *old(off) as int, is64) {
            Some((v, e)) => r == Some(v as u64) && *final(off) == e && v <= u64::MAX,
            None => r is None,
        },
{
    let ghost o = *old(off) as int;
    proof {
        lemma_p256_values();
    }
    if is64 {
        let r = read_u64(info, off);
        proof {
            if o + 8 <= info@.len() {
                lemma_le_bound(info@.subrange(o, o + 8));
            }
        }
        r
    } else {
        match read_u32(info, off) {
            Some(v) => {
                proof {
                    lemma_le_bound(info@.subrange(o, o + 4));
                }
                Some(v as u64)
            },
            None => None,
        }
    }
}

/// The string of `.debug_str` a `DW_FORM_strp` value at `*off` points
/// at; `None` when the offset cannot be read or lies past the section.
fn read_strp_value<'a>(info: &[u8], off: &mut usize, is64: bool, debug_str: &'a [u8]) -> (r: Option<&'a [u8]>)
    ensures
        match sec_offset_at(info@, *old(off) as int, is64) {
            Some((so, e)) => *final(off) == e && if so >= debug_str@.len() {
                r is None
            } else {
                r matches Some(s) && s@ == str_at(debug_str@, so)
            },
            None => r is None,
        },
{
    let so = match read_sec_offset(info, off, is64) {
        Some(v) => v,
        None => {
            return None;
        },
    };
    if so >= debug_str.len() as u64 {
        return None;
    }
    let start = so as usize;
    let mut end = start;
    while end < debug_str.len() && debug_str[end] != 0
        invariant
            start <= end <= debug_str.len(),
            start < debug_str.len(),
            forall|j: int| start <= j < end ==> debug_str@[j] != 0u8,
        decreases debug_str.len() - end,
    {
        end = end + 1;
    }
    proof {
        lemma_str_stop(debug_str@, start as int, end as int);
    }
    Some(slice_subrange(debug_str, start, end))
}

/// A NUL-terminated string in place at `*off`; the cursor moves past
/// its NUL. At or past the end of the input the string is empty.
fn read_inline_str<'a>(info: &'a [u8], off: &mut usize) -> (s: &'a [u8])
    ensures
        *final(off) == (if str_stop(info@, *old(off) as int) < info@.len() {
            str_stop(info@, *old(off) as int) + 1
        } else {
            str_stop(info@, *old(off) as int)
        }),
        s@ == (if *old(off) >= info@.len() {
            Seq::empty()
        } else {
            info@.subrange(*old(off) as int, str_stop(info@, *old(off) as int))
        }),
{
    let start = *off;
    if start >= info.len() {
        proof {
            lemma_str_stop(info@, start as int, start as int);
        }
        return slice_subrange(info, 0, 0);
    }
    while *off < info.len() && info[*off] != 0
        invariant
            start <= *off <= info.len(),
            start < info.len(),
            forall|j: int| start <= j < *off ==> info@[j] != 0u8,
        decreases info.len() - *off,
    {
        *off = *off + 1;
    }
    proof {
        lemma_str_stop(info@, start as int, *off as int);
    }
    let s = slice_subrange(info, start, *off);
    if *off < info.len() {
        *off = *off + 1;
    }
    s
}

/// An optional byte string by its contents.
pub open spec fn opt_bytes(d: Option<Vec<u8>>) -> Option<Seq<u8>> {
    match d {
        Some(v) => Some(v@),
        None => None,
    }
}

/// Reads the attributes of a DIE at `off`, as `die_attrs` says.
fn read_die_attrs(
    info: &[u8],
    debug_str: &[u8],
    attrs: &Vec<(u64, u64)>,
    start: usize,
    is64: bool,
    asz: u8,
) -> (r: (Option<u64>, Option<Vec<u8>>))
    ensures
        (r.0, opt_bytes(r.1)) == die_attrs(info@, debug_str@, attrs@, 0, start as int, is64, asz, None, None),
{
    let mut off = start;
    let mut stmt: Option<u64> = None;
    let mut dir: Option<Vec<u8>> = None;
    let ghost target = die_attrs(info@, debug_str@, attrs@, 0, off as int, is64, asz, None, None);
    let mut i: usize = 0;
    while i < attrs.len()
        invariant
            i <= attrs.len(),
            target == die_attrs(info@, debug_str@, attrs@, 0, start as int, is64, asz, None, None),
            target == die_attrs(info@, debug_str@, attrs@, i as int, off as int, is64, asz, stmt, opt_bytes(dir)),
        decreases attrs.len() - i,
    {
        let (name, form0) = attrs[i];
        let ghost o0 = off as int;
        let ghost here = die_attrs(info@, debug_str@, attrs@, i as int, o0, is64, asz, stmt, opt_bytes(dir));
        assert(target == here);
        let form = if form0 == DW_FORM_INDIRECT {
            match read_uleb(info, &mut off) {
                Some(v) => v,
                None => {
                    assert(here == (stmt, opt_bytes(dir)));
                    return (stmt, dir);
                },
            }
        } else {
            form0
        };
        let ghost o1 = off as int;
        if name == DW_AT_STMT_LIST && (form == DW_FORM_SEC_OFFSET || form == DW_FORM_DATA4 || form
            == DW_FORM_DATA8) {
            let got: Option<u64> = if form == DW_FORM_SEC_OFFSET {
                read_sec_offset(info, &mut off, is64)
            } else if form == DW_FORM_DATA4 {
                match read_u32(info, &mut off) {
                    Some(v) => {
                        proof {
                            lemma_le_bound(info@.subrange(o1, o1 + 4));
                            lemma_p256_values();
                        }
                        Some(v as u64)
                    },
                    None => None,
                }
            } else {
                let g = read_u64(info, &mut off);
                proof {
                    if o1 + 8 <= info@.len() {
                        lemma_le_bound(info@.subrange(o1, o1 + 8));
                        lemma_p256_values();
                    }
                }
                g
            };
            match got {
                Some(v) => {
                    stmt = Some(v);
                },
                None => {
                    assert(here == (stmt, opt_bytes(dir)));
                    return (stmt, dir);
                },
            }
        } else if name == DW_AT_COMP_DIR && form == DW_FORM_STRP {
            match read_strp_value(info, &mut off, is64, debug_str) {
                Some(s) => {
                    dir = Some(bytes_vec(s));
                },
                None => {
                    assert(here == (stmt, opt_bytes(dir)));
                    return (stmt, dir);
                },
            }
        } else if name == DW_AT_COMP_DIR && form == DW_FORM_STRING {
            let s = read_inline_str(info, &mut off);
            dir = Some(bytes_vec(s));
        } else {
            if !skip_form(info, &mut off, form, is64, asz) {
                assert(here == (stmt, opt_bytes(dir)));
                return (stmt, dir);
            }
        }
        i = i + 1;
    }
    (stmt, dir)
}

/// The index of the first abbreviation with `code`, if any.
fn find_abbrev_index(t: &Vec<Abbrev>, code: u64) -> (r: Option<usize>)
    ensures
        match find_abbrev(abbrev_views(t@), code) {
            Some(a) => r matches Some(k) && k < t@.len() && t@[k as int]@ == a,
            None => r is None,
        },
{
    let ghost v = abbrev_views(t@);
    let mut k: usize = 0;
    assert(v.skip(0) =~= v);
    while k < t.len()
        invariant
            k <= t.len(),
            v == abbrev_views(t@),
            find_abbrev(v, code) == find_abbrev(v.skip(k as int), code),
        decreases t.len() - k,
    {
        proof {
            assert(v.skip(k as int).drop_first() =~= v.skip(k + 1));
            assert(v.skip(k as int)[0] == t@[k as int]@);
        }
        if t[k].code == code {
            return Some(k);
        }
        k = k + 1;
    }
    None
}

/// The pairs of a result list, by contents.
pub open spec fn dir_views(v: Seq<(u64, Vec<u8>)>) -> Seq<(u64, Seq<u8>)> {
    v.map_values(|p: (u64, Vec<u8>)| (p.0, p.1@))
}

/// Reads the header of the unit at `off`, as `unit_header_at` says.
fn read_unit_header(info: &[u8], off: usize) -> (r: Option<(usize, usize, bool, u64, u8)>)
    ensures
        match unit_header_at(info@, off as int) {
            Some((ue, o4, is64, aoff, asz)) => r matches Some((rue, ro4, ris64, raoff, rasz)) && rue == ue
                && ro4 == o4 && ris64 == is64 && raoff == aoff && rasz == asz,
            None => r is None,
        },
{
    let mut p = off;
    proof {
        lemma_p256_values();
        if off + 12 <= info@.len() {
            lemma_le_bound(info@.subrange(off + 4, off + 12));
        }
        if off + 4 <= info@.len() {
            lemma_le_bound(info@.subrange(off as int, off + 4));
        }
    }
    let (length, is64) = match read_initial_length(info, &mut p) {
        Some(v) => v,
        None => {
            return None;
        },
    };
    if length > (info.len() - p) as u64 {
        return None;
    }
    let unit_end = p + length as usize;
    if read_u16(info, &mut p).is_none() {
        return None;
    }
    let aoff = match read_sec_offset(info, &mut p, is64) {
        Some(v) => v,
        None => {
            return None;
        },
    };
    let asz = match read_u8(info, &mut p) {
        Some(v) => v,
        None => {
            return None;
        },
    };
    Some((unit_end, p, is64, aoff, asz))
}

/// Reads the first DIE of a unit, as `unit_entry` says.
fn read_unit_entry(
    info: &[u8],
    debug_abbrev: &[u8],
    debug_str: &[u8],
    o4: usize,
    is64: bool,
    aoff: u64,
    asz: u8,
) -> (r: Option<(u64, Vec<u8>)>)
    ensures
        match r {
            Some((s, d)) => unit_entry(info@, debug_abbrev@, debug_str@, o4 as int, is64, aoff as int, asz as int)
                == seq![(s, d@)],
            None => unit_entry(info@, debug_abbrev@, debug_str@, o4 as int, is64, aoff as int, asz as int)
                == Seq::<(u64, Seq<u8>)>::empty(),
        },
{
    let mut p = o4;
    let code = match read_uleb(info, &mut p) {
        Some(v) => v,
        None => {
            return None;
        },
    };
    if code == 0 {
        return None;
    }
    let abbrevs = parse_abbrev_table(debug_abbrev, aoff as usize);
    let k = match find_abbrev_index(&abbrevs, code) {
        Some(k) => k,
        None => {
            return None;
        },
    };
    let (sl, cd) = read_die_attrs(info, debug_str, &abbrevs[k].attrs, p, is64, asz);
    match (sl, cd) {
        (Some(s), Some(d)) => Some((s, d)),
        _ => None,
    }
}

/// `(stmt_list, comp_dir)` of every compilation unit of `debug_info`
/// that has both, in order.
pub fn collect_comp_dirs(debug_info: &[u8], debug_abbrev: &[u8], debug_str: &[u8]) -> (out: Vec<(u64, Vec<u8>)>)
    ensures
        dir_views(out@) == comp_dirs_from(debug_info@, debug_abbrev@, debug_str@, 0),
{
    let ghost total = comp_dirs_from(debug_info@, debug_abbrev@, debug_str@, 0);
    let mut out: Vec<(u64, Vec<u8>)> = Vec::new();
    let mut off: usize = 0;
    while off < debug_info.len()
        invariant
            total == comp_dirs_from(debug_info@, debug_abbrev@, debug_str@, 0),
            total == dir_views(out@) + comp_dirs_from(debug_info@, debug_abbrev@, debug_str@, off as int),
        ensures
            dir_views(out@) == total,
        decreases debug_info.len() - off,
    {
        let (unit_end, p, is64, aoff, asz) = match read_unit_header(debug_info, off) {
            Some(h) => h,
            None => {
                assert(dir_views(out@) + Seq::<(u64, Seq<u8>)>::empty() =~= dir_views(out@));
                break;
            },
        };
        let ghost prev = dir_views(out@);
        let ghost rest = comp_dirs_from(debug_info@, debug_abbrev@, debug_str@, unit_end as int);
        match read_unit_entry(debug_info, debug_abbrev, debug_str, p, is64, aoff, asz) {
            Some((s, d)) => {
                let ghost dv = d@;
                out.push((s, d));
                proof {
                    assert(dir_views(out@) =~= prev.push((s, dv)));
                    assert(prev.push((s, dv)) + rest =~= prev + (seq![(s, dv)] + rest));
                }
            },
            None => {
                assert(Seq::<(u64, Seq<u8>)>::empty() + rest =~= rest);
            },
        }
        off = unit_end;
    }
    out
}

} // verus!
