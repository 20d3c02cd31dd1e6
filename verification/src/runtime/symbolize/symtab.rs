//! Function address ranges from `.symtab`, sorted by start address, and
//! the lookup of the range that holds a program counter.
use vstd::prelude::*;
use vstd::slice::slice_subrange;
use super::dwarf_util::nul_from;
use super::elf::{st_type, Elf64Sym, STT_FUNC};
use super::keyed::{Keyed, sort_by_key, stable_sorted, sorted_by_key, split_at_key, upper_bound};

verus! {

/// The bytes of `s` from `start` up to the next NUL or the end; empty
/// when `start` is past the end.
pub open spec fn cstr_at(s: Seq<u8>, start: int) -> Seq<u8> {
    if start < 0 || start >= s.len() {
        Seq::empty()
    } else if nul_from(s, start) >= 0 {
        s.subrange(start, nul_from(s, start))
    } else {
        s.subrange(start, s.len() as int)
    }
}

/// `name_at` — the NUL-terminated name at offset `off` of a string
/// table; empty when `off` is past its end.
pub fn name_at<'a>(strtab: &'a [u8], off: u32) -> (r: &'a [u8])
    ensures
        r@ == cstr_at(strtab@, off as int),
{
    let start = off as usize;
    if start >= strtab.len() {
        return slice_subrange(strtab, 0, 0);
    }
    let mut end = start;
    while end < strtab.len() && strtab[end] != 0
        invariant
            start <= end <= strtab@.len(),
            start < strtab@.len(),
            nul_from(strtab@, start as int) == nul_from(strtab@, end as int),
        decreases strtab@.len() - end,
    {
        end += 1;
    }
    slice_subrange(strtab, start, end)
}

/// A function's address range `[start, end)` and the offset of its
/// name in `.strtab`.
#[derive(Clone, Copy)]
pub struct SymRange {
    pub start: u64,
    pub end: u64,
    pub name_off: u32,
}

impl Keyed for SymRange {
    open spec fn spec_key(&self) -> u64 {
        self.start
    }

    fn key(&self) -> (r: u64) {
        self.start
    }
}

/// The symbol is a function with a nonzero address and size.
pub open spec fn is_func_sym(s: Elf64Sym) -> bool {
    s.st_info % 16 == STT_FUNC && s.st_size != 0 && s.st_value != 0
}

/// The address ranges of the function symbols of `syms`, in order.
pub open spec fn func_ranges(syms: Seq<Elf64Sym>) -> Seq<SymRange>
    decreases syms.len(),
{
    if syms.len() == 0 {
        Seq::empty()
    } else {
        let rest = func_ranges(syms.drop_last());
        let s = syms.last();
        if is_func_sym(s) {
            rest.push(SymRange { start: s.st_value, end: (s.st_value + s.st_size) as u64, name_off: s.st_name })
        } else {
            rest
        }
    }
}

/// The range `lookup` finds for `pc` in ranges split at `idx`: the last
/// one starting at or before `pc`, if it still holds `pc`.
pub open spec fn range_for(ranges: Seq<SymRange>, pc: u64, idx: int) -> Option<SymRange> {
    if idx == 0 {
        None
    } else if pc < ranges[idx - 1].end {
        Some(ranges[idx - 1])
    } else {
        None
    }
}

/// Function ranges sorted by start address.
pub struct SymTable {
    pub ranges: Vec<SymRange>,
}

impl SymTable {
    /// `build` — the function symbols' ranges, stably sorted by start.
    /// The end of each range is computed without wrapping.
    pub fn build(symtab: &[Elf64Sym]) -> (r: Self)
        requires
            forall|k: int|
                0 <= k < symtab@.len() && is_func_sym(#[trigger] symtab@[k]) ==> symtab@[k].st_value
                    + symtab@[k].st_size <= u64::MAX,
        ensures
            stable_sorted(r.ranges@, func_ranges(symtab@)),
    {
        let mut ranges: Vec<SymRange> = Vec::new();
        let mut k: usize = 0;
        while k < symtab.len()
            invariant
                k <= symtab@.len(),
                ranges@ == func_ranges(symtab@.take(k as int)),
                forall|k: int|
                    0 <= k < symtab@.len() && is_func_sym(#[trigger] symtab@[k]) ==> symtab@[k].st_value
                        + symtab@[k].st_size <= u64::MAX,
            decreases symtab@.len() - k,
        {
            let s = symtab[k];
            proof {
                assert(symtab@.take(k + 1).drop_last() =~= symtab@.take(k as int));
            }
            if st_type(s.st_info) == STT_FUNC && s.st_size != 0 && s.st_value != 0 {
                ranges.push(SymRange { start: s.st_value, end: s.st_value + s.st_size, name_off: s.st_name });
            }
            k += 1;
        }
        proof {
            assert(symtab@.take(symtab@.len() as int) =~= symtab@);
        }
        SymTable { ranges: sort_by_key(&ranges) }
    }

    /// `lookup` — the range holding `pc`: the last one starting at or
    /// before it, if `pc` lies before its end.
    pub fn lookup(&self, pc: u64) -> (r: Option<SymRange>)
        ensures
            sorted_by_key(self.ranges@) ==> exists|idx: int|
                #[trigger] split_at_key(self.ranges@, pc, idx) && r == range_for(self.ranges@, pc, idx),
            r matches Some(e) ==> e.start <= pc < e.end && self.ranges@.contains(e),
    {
        if self.ranges.len() == 0 {
            proof {
                assert(split_at_key(self.ranges@, pc, 0));
            }
            return None;
        }
        let lo = upper_bound(self.ranges.as_slice(), pc);
        proof {
            if sorted_by_key(self.ranges@) {
                assert(split_at_key(self.ranges@, pc, lo as int));
            }
        }
        if lo == 0 {
            return None;
        }
        let e = self.ranges[lo - 1];
        if pc < e.end {
            proof {
                assert(self.ranges@[lo - 1] == e);
            }
            Some(e)
        } else {
            None
        }
    }
}

} // verus!
