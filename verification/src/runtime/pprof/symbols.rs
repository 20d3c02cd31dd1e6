//! Naming the program counters of a profile: each distinct PC that a
//! function range of the symbol table holds gets that function's name,
//! demangled as a v0 or a legacy Rust symbol where it is one.
use vstd::prelude::*;
use crate::runtime::pprof::cpu::SymFrame;
use crate::runtime::symbolize::demangle::{demangle, fits, legacy_demangled};
use crate::runtime::symbolize::demangle_v0::demangle_v0;
use crate::runtime::symbolize::keyed::{Keyed, sorted_by_key, split_at_key};
use crate::runtime::symbolize::symtab::{cstr_at, name_at, range_for, SymRange, SymTable};
use crate::runtime::symbolize::v0_spec::v0_demangled;

verus! {

/// Room given to a demangled name.
pub const NAME_BUF: usize = 1024;

/// The range of `ranges` (sorted by start) holding `pc`: the last one
/// starting at or before it, if `pc` lies before its end.
pub open spec fn range_of(ranges: Seq<SymRange>, pc: u64) -> Option<SymRange> {
    if exists|idx: int| #[trigger] split_at_key(ranges, pc, idx) {
        range_for(ranges, pc, choose|idx: int| #[trigger] split_at_key(ranges, pc, idx))
    } else {
        None
    }
}

/// How a raw symbol name is shown: its v0 demangling when that is
/// non-empty and fits, else its legacy demangling when that is non-empty
/// and fits, else the raw name.
pub open spec fn display_name(raw: Seq<u8>) -> Seq<u8> {
    if v0_demangled(raw, NAME_BUF as int) is Some && v0_demangled(raw, NAME_BUF as int)->0.len() > 0 {
        v0_demangled(raw, NAME_BUF as int)->0
    } else if fits(legacy_demangled(raw), 0, NAME_BUF as int) && legacy_demangled(raw)->0.len() > 0 {
        legacy_demangled(raw)->0
    } else {
        raw
    }
}

/// The frames named for the PCs `pcs`, in order of first occurrence:
/// each PC once, the ones no range holds left out.
pub open spec fn named_pcs(pcs: Seq<u64>, ranges: Seq<SymRange>, strtab: Seq<u8>) -> Seq<(u64, Seq<u8>)>
    decreases pcs.len(),
{
    if pcs.len() == 0 {
        Seq::empty()
    } else {
        let prev = named_pcs(pcs.drop_last(), ranges, strtab);
        let pc = pcs.last();
        if exists|k: int| 0 <= k < prev.len() && #[trigger] prev[k].0 == pc {
            prev
        } else {
            match range_of(ranges, pc) {
                Some(r) => prev.push((pc, display_name(cstr_at(strtab, r.name_off as int)))),
                None => prev,
            }
        }
    }
}

/// In sorted ranges one index splits them at `pc`.
proof fn lemma_split_unique(ranges: Seq<SymRange>, pc: u64, a: int, b: int)
    requires
        split_at_key(ranges, pc, a),
        split_at_key(ranges, pc, b),
    ensures
        a == b,
{
    if a < b {
        assert(ranges[a].spec_key() <= pc);
        assert(ranges[a].spec_key() > pc);
    } else if b < a {
        assert(ranges[b].spec_key() <= pc);
        assert(ranges[b].spec_key() > pc);
    }
}

/// `lookup` on a sorted table finds `range_of`.
fn lookup_range(table: &SymTable, pc: u64) -> (r: Option<SymRange>)
    requires
        sorted_by_key(table.ranges@),
    ensures
        r == range_of(table.ranges@, pc),
{
    let r = table.lookup(pc);
    proof {
        let idx = choose|idx: int| #[trigger] split_at_key(table.ranges@, pc, idx) && r == range_for(
            table.ranges@,
            pc,
            idx,
        );
        let c = choose|i: int| #[trigger] split_at_key(table.ranges@, pc, i);
        lemma_split_unique(table.ranges@, pc, idx, c);
    }
    r
}

/// `n` zero bytes.
fn zeros(n: usize) -> (v: Vec<u8>)
    ensures
        v@.len() == n,
{
    let mut v: Vec<u8> = Vec::new();
    while v.len() < n
        invariant
            v@.len() <= n,
        decreases n - v@.len(),
    {
        v.push(0);
    }
    v
}

/// The first `n` bytes of `s`.
fn prefix_vec(s: &[u8], n: usize) -> (v: Vec<u8>)
    requires
        n <= s@.len(),
    ensures
        v@ == s@.subrange(0, n as int),
{
    let mut v: Vec<u8> = Vec::new();
    let mut i: usize = 0;
    while i < n
        invariant
            i <= n <= s@.len(),
            v@ == s@.subrange(0, i as int),
        decreases n - i,
    {
        v.push(s[i]);
        i += 1;
    }
    v
}

/// `display` — the shown name of the raw symbol `raw`, as
/// `display_name` says.
pub fn display(raw: &[u8]) -> (r: Vec<u8>)
    ensures
        r@ == display_name(raw@),
{
    let mut buf = zeros(NAME_BUF);
    let n = demangle_v0(raw, buf.as_mut_slice());
    if n > 0 {
        return prefix_vec(buf.as_slice(), n);
    }
    let m = demangle(raw, buf.as_mut_slice());
    if m > 0 {
        return prefix_vec(buf.as_slice(), m);
    }
    prefix_vec(raw, raw.len())
}

/// Whether some frame of `out` is for `pc`.
fn has_pc(out: &Vec<SymFrame>, pc: u64) -> (r: bool)
    ensures
        r == exists|k: int| 0 <= k < out@.len() && #[trigger] out@[k].pc == pc,
{
    let mut k: usize = 0;
    while k < out.len()
        invariant
            k <= out@.len(),
            forall|j: int| 0 <= j < k ==> #[trigger] out@[j].pc != pc,
        decreases out@.len() - k,
    {
        if out[k].pc == pc {
            return true;
        }
        k += 1;
    }
    false
}

/// `out` holds the frames `f`, with no file and no line.
pub open spec fn frames_match(out: Seq<SymFrame>, f: Seq<(u64, Seq<u8>)>) -> bool {
    &&& out.len() == f.len()
    &&& forall|k: int|
        0 <= k < out.len() ==> (#[trigger] out[k]).pc == f[k].0 && out[k].function@ == f[k].1
            && out[k].file@.len() == 0 && out[k].line == 0
}

/// `symbolize_pcs` — names the distinct PCs of `pcs` from the function
/// ranges of `table` (sorted by start, as `SymTable::build` gives them)
/// and the string table `strtab`, as `named_pcs` says.
pub fn symbolize_pcs(pcs: &[u64], table: &SymTable, strtab: &[u8]) -> (r: Vec<SymFrame>)
    requires
        sorted_by_key(table.ranges@),
    ensures
        frames_match(r@, named_pcs(pcs@, table.ranges@, strtab@)),
{
    let mut out: Vec<SymFrame> = Vec::new();
    let mut i: usize = 0;
    assert(pcs@.take(0) =~= Seq::<u64>::empty());
    while i < pcs.len()
        invariant
            i <= pcs@.len(),
            sorted_by_key(table.ranges@),
            frames_match(out@, named_pcs(pcs@.take(i as int), table.ranges@, strtab@)),
        decreases pcs@.len() - i,
    {
        let pc = pcs[i];
        let ghost prev = named_pcs(pcs@.take(i as int), table.ranges@, strtab@);
        proof {
            assert(pcs@.take(i + 1).drop_last() =~= pcs@.take(i as int));
            assert(pcs@.take(i + 1).last() == pc);
        }
        let seen = has_pc(&out, pc);
        proof {
            if seen {
                let k = choose|k: int| 0 <= k < out@.len() && #[trigger] out@[k].pc == pc;
                assert(prev[k].0 == pc);
            } else {
                assert forall|k: int| 0 <= k < prev.len() implies #[trigger] prev[k].0 != pc by {
                    assert(out@[k].pc != pc);
                }
            }
        }
        if !seen {
            match lookup_range(table, pc) {
                Some(r) => {
                    let raw = name_at(strtab, r.name_off);
                    let function = display(raw);
                    out.push(SymFrame { pc, function, file: Vec::new(), line: 0 });
                },
                None => {},
            }
        }
        i += 1;
    }
    proof {
        assert(pcs@.take(pcs@.len() as int) =~= pcs@);
    }
    out
}

} // verus!
