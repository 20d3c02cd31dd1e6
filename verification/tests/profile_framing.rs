use goish::runtime::pprof::gzip::{crc32, gzip_stored, marshal_gzip};
use goish::runtime::pprof::proto::Profile;
use goish::runtime::pprof::symbols::{display, symbolize_pcs};
use goish::runtime::sched::trap::g_trap_dump_text;
use goish::runtime::symbolize::elf::Elf64Sym;
use goish::runtime::symbolize::symtab::SymTable;

#[test]
fn crc32_check_values() {
    assert_eq!(crc32(b"123456789"), 0xcbf4_3926);
    assert_eq!(crc32(b""), 0);
    assert_eq!(crc32(b"abc"), 0x3524_41c2);
}

const HEADER: [u8; 10] = [0x1f, 0x8b, 8, 0, 0, 0, 0, 0, 0, 0xff];

#[test]
fn gzip_of_nothing_is_one_empty_final_block() {
    let g = gzip_stored(b"");
    let mut want = HEADER.to_vec();
    want.extend_from_slice(&[1, 0, 0, 0xff, 0xff]);
    want.extend_from_slice(&[0, 0, 0, 0, 0, 0, 0, 0]);
    assert_eq!(g, want);
}

#[test]
fn gzip_of_short_data() {
    let g = gzip_stored(b"abc");
    let mut want = HEADER.to_vec();
    want.extend_from_slice(&[1, 3, 0, 0xfc, 0xff, b'a', b'b', b'c']);
    want.extend_from_slice(&0x3524_41c2u32.to_le_bytes());
    want.extend_from_slice(&[3, 0, 0, 0]);
    assert_eq!(g, want);
}

#[test]
fn gzip_splits_long_data_into_full_blocks() {
    let data: Vec<u8> = (0..70000u32).map(|i| (i % 251) as u8).collect();
    let g = gzip_stored(&data);
    assert_eq!(g.len(), 10 + 5 + 65535 + 5 + (70000 - 65535) + 8);
    assert_eq!(&g[10..15], &[0, 0xff, 0xff, 0, 0]);
    assert_eq!(&g[15..15 + 65535], &data[..65535]);
    let second = 15 + 65535;
    assert_eq!(&g[second..second + 5], &[1, 0x71, 0x11, 0x8e, 0xee]);
    assert_eq!(&g[second + 5..second + 5 + 4465], &data[65535..]);
    let tail = &g[g.len() - 8..];
    assert_eq!(&tail[..4], &crc32(&data).to_le_bytes());
    assert_eq!(&tail[4..], &70000u32.to_le_bytes());
}

#[test]
fn marshal_gzip_frames_the_protobuf_bytes() {
    let p = Profile::new();
    assert_eq!(marshal_gzip(&p), gzip_stored(&p.marshal()));
}

fn func(name: u32, value: u64, size: u64) -> Elf64Sym {
    Elf64Sym { st_name: name, st_info: 2, st_other: 0, st_shndx: 1, st_value: value, st_size: size }
}

#[test]
fn display_prefers_v0_then_legacy_then_raw() {
    assert_eq!(display(b"_RNvC5goish4main"), b"goish::main".to_vec());
    assert_eq!(display(b"_ZN3foo3bar17h0123456789abcdefE"), b"foo::bar".to_vec());
    assert_eq!(display(b"plain"), b"plain".to_vec());
}

#[test]
fn symbolize_names_each_pc_once_in_first_seen_order() {
    let strtab = b"\0_ZN3foo3bar17h0123456789abcdefE\0plain\0";
    let plain_off = 1 + "_ZN3foo3bar17h0123456789abcdefE".len() as u32 + 1;
    let syms = vec![func(plain_off, 0x2000, 0x10), func(1, 0x1000, 0x100)];
    let table = SymTable::build(&syms);
    let frames = symbolize_pcs(&[0x1010, 0x1010, 0x3000, 0x2008, 0x1020], &table, strtab);
    let got: Vec<(u64, Vec<u8>)> = frames.iter().map(|f| (f.pc, f.function.clone())).collect();
    assert_eq!(
        got,
        vec![(0x1010, b"foo::bar".to_vec()), (0x2008, b"plain".to_vec()), (0x1020, b"foo::bar".to_vec())]
    );
    assert!(frames.iter().all(|f| f.file.is_empty() && f.line == 0));
}

#[test]
fn trap_dump_lists_fields_and_record_words() {
    let words: Vec<u64> = (0..48u64).map(|i| i * 0x1111).collect();
    let skips = [1u64, 2, 3, 4, 5, 6];
    let out = g_trap_dump_text(b"bad stack", 0x1000, 0x10, 0, 3, 7, 9, 11, 13, &skips, &words);
    let text = String::from_utf8(out).unwrap();
    let mut want = String::from("\n=== goish: dispatch_one_g received bad G ===\nbad stack\n");
    let fields: [(&str, u64); 15] = [
        ("g_ptr       ", 0x1000),
        ("stack.base  ", 0x10),
        ("stack.top   ", 0),
        ("stack.size  ", 0xffff_ffff_ffff_fff0),
        ("status_raw  ", 3),
        ("LIVE_G_COUNT", 7),
        ("DISPATCH_CT ", 9),
        ("preempt_inv ", 11),
        ("preempt_inj ", 13),
        ("skip_locks  ", 1),
        ("skip_tramp  ", 2),
        ("skip_parking", 3),
        ("skip_nocurg ", 4),
        ("skip_notrun ", 5),
        ("skip_sprange", 6),
    ];
    for (l, v) in fields.iter() {
        want.push_str(&format!("  {} = 0x{:016x}\n", l, v));
    }
    want.push_str("  G memory:\n");
    for r in 0..24u64 {
        want.push_str(&format!("  +0x{:03x} = 0x{:016x} 0x{:016x}\n", 16 * r, words[2 * r as usize], words[2 * r as usize + 1]));
    }
    assert_eq!(text, want);
}
