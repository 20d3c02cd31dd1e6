//! A minimal little-endian ELF64 reader: the section header table, the
//! section-name string table, sections by name, and symbol entries.
use vstd::prelude::*;
use vstd::slice::slice_subrange;
use super::dwarf_util::{le, read_le};
use super::symtab::{name_at, cstr_at};

verus! {

/// Size of the ELF64 file header.
pub const EHDR_SIZE: usize = 64;
/// Size of an ELF64 section header.
pub const SHDR_SIZE: usize = 64;
/// Size of an ELF64 symbol entry.
pub const SYM_SIZE: usize = 24;
/// `ELFCLASS64`.
pub const ELFCLASS64: u8 = 2;
/// `ELFDATA2LSB`.
pub const ELFDATA2LSB: u8 = 1;
/// `STT_FUNC` — symbol is a function.
pub const STT_FUNC: u8 = 2;

/// The little-endian value of the `n` bytes of `b` at `o`.
pub open spec fn le_at(b: Seq<u8>, o: int, n: int) -> int {
    le(b.subrange(o, o + n)) as int
}

/// `e_shoff`, `e_shentsize`, `e_shnum` and `e_shstrndx` of the file
/// header in `b`.
pub open spec fn e_shoff(b: Seq<u8>) -> int {
    le_at(b, 40, 8)
}

pub open spec fn e_shentsize(b: Seq<u8>) -> int {
    le_at(b, 58, 2)
}

pub open spec fn e_shnum(b: Seq<u8>) -> int {
    le_at(b, 60, 2)
}

pub open spec fn e_shstrndx(b: Seq<u8>) -> int {
    le_at(b, 62, 2)
}

/// Offset of section header `i`.
pub open spec fn shdr_at(b: Seq<u8>, i: int) -> int {
    e_shoff(b) + i * e_shentsize(b)
}

/// `sh_name`, `sh_offset` and `sh_size` of the section header at `h`.
pub open spec fn sh_name(b: Seq<u8>, h: int) -> int {
    le_at(b, h, 4)
}

pub open spec fn sh_offset(b: Seq<u8>, h: int) -> int {
    le_at(b, h + 24, 8)
}

pub open spec fn sh_size(b: Seq<u8>, h: int) -> int {
    le_at(b, h + 32, 8)
}

/// `b` is a little-endian ELF64 file whose section header table and
/// section-name string table lie inside it.
pub open spec fn elf_ok(b: Seq<u8>) -> bool {
    &&& b.len() >= EHDR_SIZE
    &&& b[0] == 0x7f && b[1] == 0x45 && b[2] == 0x4c && b[3] == 0x46
    &&& b[4] == ELFCLASS64 && b[5] == ELFDATA2LSB
    &&& e_shentsize(b) >= SHDR_SIZE
    &&& e_shnum(b) != 0
    &&& e_shoff(b) + e_shentsize(b) * e_shnum(b) <= b.len()
    &&& e_shstrndx(b) < e_shnum(b)
    &&& sh_offset(b, shdr_at(b, e_shstrndx(b))) + sh_size(b, shdr_at(b, e_shstrndx(b))) <= b.len()
}

/// The section-name string table of an ELF file.
pub open spec fn shstr_of(b: Seq<u8>) -> Seq<u8> {
    let h = shdr_at(b, e_shstrndx(b));
    b.subrange(sh_offset(b, h), sh_offset(b, h) + sh_size(b, h))
}

/// Borrowed view of a parsed ELF file.
pub struct ElfView<'a> {
    bytes: &'a [u8],
    shoff: usize,
    shentsize: usize,
    shnum: usize,
    shstr: &'a [u8],
}

impl<'a> ElfView<'a> {
    #[verifier::type_invariant]
    spec fn inv(self) -> bool {
        &&& elf_ok(self.bytes@)
        &&& self.shoff == e_shoff(self.bytes@)
        &&& self.shentsize == e_shentsize(self.bytes@)
        &&& self.shnum == e_shnum(self.bytes@)
        &&& self.shstr@ == shstr_of(self.bytes@)
    }

    /// The file's bytes.
    pub closed spec fn bytes(self) -> Seq<u8> {
        self.bytes@
    }

    /// Name of section `i`.
    pub open spec fn sec_name(self, i: int) -> Seq<u8> {
        cstr_at(shstr_of(self.bytes()), sh_name(self.bytes(), shdr_at(self.bytes(), i)))
    }

    /// The first section at or after `i` named `name`, or -1.
    pub open spec fn first_named(self, name: Seq<u8>, i: int) -> int
        decreases e_shnum(self.bytes()) - i,
    {
        if i < 0 || i >= e_shnum(self.bytes()) {
            -1
        } else if self.sec_name(i) == name {
            i
        } else {
            self.first_named(name, i + 1)
        }
    }

    proof fn lemma_first_named_range(self, name: Seq<u8>, i: int)
        requires
            0 <= i,
        ensures
            self.first_named(name, i) == -1 || (i <= self.first_named(name, i) < e_shnum(self.bytes())
                && self.sec_name(self.first_named(name, i)) == name),
        decreases e_shnum(self.bytes()) - i,
    {
        if i < e_shnum(self.bytes()) && self.sec_name(i) != name {
            self.lemma_first_named_range(name, i + 1);
        }
    }

    /// `open` — parse the file header; `None` unless `bytes` is an ELF64
    /// little-endian file whose section tables lie inside it.
    pub fn open(bytes: &'a [u8]) -> (r: Option<Self>)
        ensures
            r is Some <==> elf_ok(bytes@),
            r is Some ==> r->0.bytes() == bytes@,
    {
        let len = bytes.len();
        if len < EHDR_SIZE {
            return None;
        }
        if bytes[0] != 0x7f || bytes[1] != 0x45 || bytes[2] != 0x4c || bytes[3] != 0x46 {
            return None;
        }
        if bytes[4] != ELFCLASS64 || bytes[5] != ELFDATA2LSB {
            return None;
        }
        let shoff64 = read_le(bytes, 40, 8);
        let shentsize = read_le(bytes, 58, 2);
        let shnum = read_le(bytes, 60, 2);
        let shstrndx = read_le(bytes, 62, 2);
        proof {
            super::dwarf_util::lemma_le_bound(bytes@.subrange(58, 60));
            super::dwarf_util::lemma_le_bound(bytes@.subrange(60, 62));
            super::dwarf_util::lemma_le_bound(bytes@.subrange(62, 64));
            super::dwarf_util::lemma_p256_values();
        }
        if shentsize < SHDR_SIZE as u64 || shnum == 0 {
            return None;
        }
        proof {
            assert(shentsize * shnum < 0x1_0000_0000) by (nonlinear_arith)
                requires
                    shentsize < 0x1_0000,
                    shnum < 0x1_0000,
            ;
        }
        let table = shentsize * shnum;
        if shoff64 > len as u64 || table > len as u64 - shoff64 {
            return None;
        }
        if shstrndx >= shnum {
            return None;
        }
        let shoff = shoff64 as usize;
        proof {
            assert(shstrndx * shentsize + shentsize <= shentsize * shnum) by (nonlinear_arith)
                requires shstrndx < shnum;
        }
        let h = shoff + (shstrndx as usize) * (shentsize as usize);
        let str_off = read_le(bytes, h + 24, 8);
        let str_size = read_le(bytes, h + 32, 8);
        if str_off > len as u64 || str_size > len as u64 - str_off {
            return None;
        }
        let shstr = slice_subrange(bytes, str_off as usize, (str_off + str_size) as usize);
        Some(ElfView { bytes, shoff, shentsize: shentsize as usize, shnum: shnum as usize, shstr })
    }

    /// Offset and size of section `i`'s header fields.
    fn shdr_base(&self, i: usize) -> (h: usize)
        requires
            i < e_shnum(self.bytes()),
        ensures
            h == shdr_at(self.bytes(), i as int),
            h + SHDR_SIZE <= self.bytes().len(),
    {
        proof {
            use_type_invariant(self);
            assert(i * self.shentsize + self.shentsize <= self.shentsize * self.shnum) by (nonlinear_arith)
                requires i < self.shnum;
        }
        let len = self.bytes.len();
        assert(self.shoff + self.shentsize * self.shnum <= len);
        self.shoff + i * self.shentsize
    }

    /// The name at offset `off` of the section-name string table.
    fn name_at(&self, off: u32) -> (r: &'a [u8])
        ensures
            r@ == cstr_at(shstr_of(self.bytes()), off as int),
    {
        proof {
            use_type_invariant(self);
        }
        name_at(self.shstr, off)
    }

    /// `section` — the bytes of the first section named `name`; `None`
    /// when there is none or its range does not lie inside the file.
    pub fn section(&self, name: &[u8]) -> (r: Option<&'a [u8]>)
        ensures
            ({
                let k = self.first_named(name@, 0);
                let b = self.bytes();
                let h = shdr_at(b, k);
                if k >= 0 && sh_offset(b, h) + sh_size(b, h) <= b.len() {
                    r is Some && r->0@ == b.subrange(sh_offset(b, h), sh_offset(b, h) + sh_size(b, h))
                } else {
                    r is None
                }
            }),
    {
        proof {
            self.lemma_first_named_range(name@, 0);
        }
        match self.section_index(name) {
            None => None,
            Some(i) => {
                let h = self.shdr_base(i);
                let len = self.bytes.len();
                let off = read_le(self.bytes, h + 24, 8);
                let size = read_le(self.bytes, h + 32, 8);
                if off > len as u64 || size > len as u64 - off {
                    return None;
                }
                Some(slice_subrange(self.bytes, off as usize, (off + size) as usize))
            },
        }
    }

    /// `section_index` — the index of the first section named `name`.
    pub fn section_index(&self, name: &[u8]) -> (r: Option<usize>)
        ensures
            ({
                let k = self.first_named(name@, 0);
                if k >= 0 {
                    r is Some && r->0 == k
                } else {
                    r is None
                }
            }),
    {
        proof {
            use_type_invariant(self);
        }
        let mut i: usize = 0;
        while i < self.shnum
            invariant
                i <= self.shnum,
                self.shnum == e_shnum(self.bytes()),
                self.first_named(name@, 0) == self.first_named(name@, i as int),
            decreases self.shnum - i,
        {
            let h = self.shdr_base(i);
            let nm = read_le(self.bytes, h, 4);
            proof {
                super::dwarf_util::lemma_le_bound(self.bytes@.subrange(h as int, h + 4));
                super::dwarf_util::lemma_p256_values();
            }
            let s = self.name_at(nm as u32);
            if bytes_equal(s, name) {
                return Some(i);
            }
            i += 1;
        }
        None
    }
}

/// `a` and `b` hold the same bytes.
pub fn bytes_equal(a: &[u8], b: &[u8]) -> (r: bool)
    ensures
        r == (a@ == b@),
{
    if a.len() != b.len() {
        return false;
    }
    let mut i: usize = 0;
    while i < a.len()
        invariant
            a@.len() == b@.len(),
            i <= a@.len(),
            forall|k: int| 0 <= k < i ==> a@[k] == b@[k],
        decreases a@.len() - i,
    {
        if a[i] != b[i] {
            return false;
        }
        i += 1;
    }
    assert(a@ =~= b@);
    true
}

/// An ELF64 symbol table entry.
#[derive(Clone, Copy)]
pub struct Elf64Sym {
    pub st_name: u32,
    pub st_info: u8,
    pub st_other: u8,
    pub st_shndx: u16,
    pub st_value: u64,
    pub st_size: u64,
}

/// The symbol entry at offset `o` of `b`.
pub open spec fn sym_at(b: Seq<u8>, o: int) -> Elf64Sym {
    Elf64Sym {
        st_name: le_at(b, o, 4) as u32,
        st_info: b[o + 4],
        st_other: b[o + 5],
        st_shndx: le_at(b, o + 6, 2) as u16,
        st_value: le_at(b, o + 8, 8) as u64,
        st_size: le_at(b, o + 16, 8) as u64,
    }
}

/// `symtab_entries` — the `.symtab` bytes as symbol entries; a trailing
/// partial entry is ignored.
pub fn symtab_entries(symtab: &[u8]) -> (r: Vec<Elf64Sym>)
    ensures
        r@.len() == symtab@.len() / (SYM_SIZE as nat),
        forall|k: int| 0 <= k < r@.len() ==> #[trigger] r@[k] == sym_at(symtab@, k * SYM_SIZE),
{
    let len = symtab.len();
    let n = len / SYM_SIZE;
    let mut out: Vec<Elf64Sym> = Vec::new();
    let mut k: usize = 0;
    while k < n
        invariant
            len == symtab@.len(),
            n == symtab@.len() / (SYM_SIZE as nat),
            k <= n,
            out@.len() == k,
            forall|m: int| 0 <= m < k ==> #[trigger] out@[m] == sym_at(symtab@, m * SYM_SIZE),
        decreases n - k,
    {
        proof {
            assert(k * 24 + 24 <= symtab@.len()) by (nonlinear_arith)
                requires
                    k < n,
                    n == symtab@.len() / 24,
            ;
        }
        let o = k * SYM_SIZE;
        proof {
            super::dwarf_util::lemma_le_bound(symtab@.subrange(o as int, o + 4));
            super::dwarf_util::lemma_le_bound(symtab@.subrange(o + 6, o + 8));
            super::dwarf_util::lemma_p256_values();
        }
        let e = Elf64Sym {
            st_name: read_le(symtab, o, 4) as u32,
            st_info: symtab[o + 4],
            st_other: symtab[o + 5],
            st_shndx: read_le(symtab, o + 6, 2) as u16,
            st_value: read_le(symtab, o + 8, 8),
            st_size: read_le(symtab, o + 16, 8),
        };
        out.push(e);
        k += 1;
    }
    out
}

/// `st_type` — the symbol type: the low four bits of `st_info`.
pub fn st_type(info: u8) -> (r: u8)
    ensures
        r == info % 16,
{
    assert(info & 0xf == info % 16) by (bit_vector);
    info & 0xf
}

} // verus!
