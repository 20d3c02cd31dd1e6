use goish::runtime::symbolize::aranges::{self, ArangeEntry};
use goish::runtime::symbolize::dwarf_util::{
    read_cstr, read_initial_length, read_sleb, read_u16, read_u32, read_u64, read_u8, read_uleb,
};
use goish::runtime::symbolize::elf::{st_type, symtab_entries, Elf64Sym, ElfView, STT_FUNC};
use goish::runtime::symbolize::symtab::{name_at, SymRange, SymTable};

fn put(buf: &mut Vec<u8>, off: usize, v: u64, n: usize) {
    for k in 0..n {
        buf[off + k] = (v >> (8 * k)) as u8;
    }
}

fn tiny_elf() -> Vec<u8> {
    let mut b = vec![0u8; 320];
    b[0..4].copy_from_slice(&[0x7f, b'E', b'L', b'F']);
    b[4] = 2;
    b[5] = 1;
    put(&mut b, 40, 128, 8);
    put(&mut b, 58, 64, 2);
    put(&mut b, 60, 3, 2);
    put(&mut b, 62, 1, 2);
    let names = b"\0.shstrtab\0.data\0";
    b[64..64 + names.len()].copy_from_slice(names);
    b[96..104].copy_from_slice(&[1, 2, 3, 4, 5, 6, 7, 8]);
    put(&mut b, 128 + 64 + 0, 1, 4);
    put(&mut b, 128 + 64 + 24, 64, 8);
    put(&mut b, 128 + 64 + 32, names.len() as u64, 8);
    put(&mut b, 128 + 128 + 0, 11, 4);
    put(&mut b, 128 + 128 + 24, 96, 8);
    put(&mut b, 128 + 128 + 32, 8, 8);
    b
}

#[test]
fn little_endian_readers() {
    let buf = [0x01u8, 0x02, 0x03, 0x04, 0x05, 0x06, 0x07, 0x08, 0x09];
    let mut off = 0usize;
    assert_eq!(read_u8(&buf, &mut off), Some(1));
    assert_eq!(off, 1);
    assert_eq!(read_u16(&buf, &mut off), Some(0x0302));
    assert_eq!(read_u32(&buf, &mut off), Some(0x0706_0504));
    assert_eq!(off, 7);
    assert_eq!(read_u32(&buf, &mut off), None);
    assert_eq!(off, 7);
    let mut off = 1usize;
    assert_eq!(read_u64(&buf, &mut off), Some(0x0908_0706_0504_0302));
    assert_eq!(off, 9);
    assert_eq!(read_u8(&buf, &mut off), None);
}

#[test]
fn leb128_readers() {
    let buf = [0xe5u8, 0x8e, 0x26, 0x7f, 0x80, 0x7f];
    let mut off = 0usize;
    assert_eq!(read_uleb(&buf, &mut off), Some(624485));
    assert_eq!(off, 3);
    assert_eq!(read_sleb(&buf, &mut off), Some(-1));
    assert_eq!(off, 4);
    assert_eq!(read_sleb(&buf, &mut off), Some(-128));
    assert_eq!(off, 6);
    let cut = [0x80u8, 0x80];
    let mut off = 0usize;
    assert_eq!(read_uleb(&cut, &mut off), None);
    assert_eq!(off, 2);
    let long = [0x80u8; 11];
    let mut off = 0usize;
    assert_eq!(read_uleb(&long, &mut off), None);
    assert_eq!(off, 10);
}

#[test]
fn cstr_and_initial_length() {
    let buf = b"abc\0de";
    let mut off = 0usize;
    assert_eq!(read_cstr(buf, &mut off), Some(&b"abc"[..]));
    assert_eq!(off, 4);
    assert_eq!(read_cstr(buf, &mut off), None);
    assert_eq!(off, 6);
    let short = [0x10u8, 0, 0, 0];
    let mut off = 0usize;
    assert_eq!(read_initial_length(&short, &mut off), Some((16, false)));
    let long = [0xffu8, 0xff, 0xff, 0xff, 0x20, 0, 0, 0, 0, 0, 0, 0];
    let mut off = 0usize;
    assert_eq!(read_initial_length(&long, &mut off), Some((32, true)));
    assert_eq!(off, 12);
    let reserved = [0xf0u8, 0xff, 0xff, 0xff];
    let mut off = 0usize;
    assert_eq!(read_initial_length(&reserved, &mut off), None);
}

#[test]
fn elf_sections_by_name() {
    let b = tiny_elf();
    let v = ElfView::open(&b).expect("valid header");
    assert_eq!(v.section(b".data"), Some(&b[96..104]));
    assert_eq!(v.section_index(b".data"), Some(2));
    assert_eq!(v.section_index(b".shstrtab"), Some(1));
    assert_eq!(v.section(b".text"), None);
    assert_eq!(v.section_index(b".text"), None);
}

#[test]
fn elf_open_refuses_bad_input() {
    let mut b = tiny_elf();
    b[4] = 1;
    assert!(ElfView::open(&b).is_none());
    assert!(ElfView::open(&b[..40]).is_none());
    let mut c = tiny_elf();
    put(&mut c, 60, 9, 2);
    assert!(ElfView::open(&c).is_none());
}

#[test]
fn symbols_and_ranges() {
    let mut raw = vec![0u8; 72];
    put(&mut raw, 0, 1, 4);
    raw[4] = 0x12;
    put(&mut raw, 8, 0x2000, 8);
    put(&mut raw, 16, 0x10, 8);
    put(&mut raw, 24, 5, 4);
    raw[28] = 0x12;
    put(&mut raw, 32, 0x1000, 8);
    put(&mut raw, 40, 0x20, 8);
    put(&mut raw, 48, 9, 4);
    raw[52] = 0x11;
    put(&mut raw, 56, 0x3000, 8);
    put(&mut raw, 64, 0x8, 8);
    let syms: Vec<Elf64Sym> = symtab_entries(&raw[..]);
    assert_eq!(syms.len(), 3);
    assert_eq!(st_type(syms[0].st_info), STT_FUNC);
    assert_eq!(syms[1].st_value, 0x1000);
    let t = SymTable::build(&syms);
    assert_eq!(t.ranges.len(), 2);
    assert_eq!(t.ranges[0].start, 0x1000);
    assert_eq!(t.ranges[1].start, 0x2000);
    let hit: Option<SymRange> = t.lookup(0x1010);
    assert_eq!(hit.map(|r| r.name_off), Some(5));
    assert!(t.lookup(0x1020).is_none());
    assert!(t.lookup(0x0fff).is_none());
    assert_eq!(t.lookup(0x200f).map(|r| r.end), Some(0x2010));
    assert!(t.lookup(0x3000).is_none());
}

#[test]
fn names_in_string_table() {
    let strtab = b"\0main\0x";
    assert_eq!(name_at(strtab, 1), b"main");
    assert_eq!(name_at(strtab, 6), b"x");
    assert_eq!(name_at(strtab, 0), b"");
    assert_eq!(name_at(strtab, 99), b"");
}

#[test]
fn aranges_build_and_lookup() {
    let mut u = vec![0u8; 64];
    put(&mut u, 0, 60, 4);
    put(&mut u, 4, 2, 2);
    put(&mut u, 6, 0x40, 4);
    u[10] = 8;
    u[11] = 0;
    put(&mut u, 16, 0x5000, 8);
    put(&mut u, 24, 0x100, 8);
    put(&mut u, 32, 0x4000, 8);
    put(&mut u, 40, 0x80, 8);
    let table: Vec<ArangeEntry> = aranges::build(&u);
    assert_eq!(table.len(), 2);
    assert_eq!(table[0].pc_lo, 0x4000);
    assert_eq!(table[1].pc_hi, 0x5100);
    assert_eq!(aranges::lookup(&table, 0x4010), Some(0x40));
    assert_eq!(aranges::lookup(&table, 0x4080), None);
    assert_eq!(aranges::lookup(&table, 0x50ff), Some(0x40));
    assert_eq!(aranges::lookup(&table, 0x10), None);
}
