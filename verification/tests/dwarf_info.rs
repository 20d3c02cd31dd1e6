use goish::runtime::symbolize::info::{
    collect_comp_dirs, parse_abbrev_table, skip_form, DW_FORM_BLOCK1, DW_FORM_DATA2, DW_FORM_INDIRECT,
    DW_FORM_STRING,
};

fn abbrev() -> Vec<u8> {
    vec![
        0x01, 0x11, 0x00, 0x10, 0x17, 0x1b, 0x08, 0x03, 0x0e, 0x00, 0x00, // code 1
        0x02, 0x11, 0x01, 0x1b, 0x0e, 0x10, 0x06, 0x00, 0x00, // code 2
        0x00,
    ]
}

fn info() -> Vec<u8> {
    let mut v = Vec::new();
    // Unit 1: stmt_list as sec_offset, comp_dir inline.
    v.extend_from_slice(&[21, 0, 0, 0, 4, 0, 0, 0, 0, 0, 8, 0x01, 0x20, 0, 0, 0]);
    v.extend_from_slice(b"/src\0");
    v.extend_from_slice(&[0, 0, 0, 0]);
    // Unit 2: comp_dir through .debug_str, stmt_list as data4.
    v.extend_from_slice(&[16, 0, 0, 0, 4, 0, 0, 0, 0, 0, 8, 0x02, 1, 0, 0, 0, 0x44, 0, 0, 0]);
    // Unit 3: a null DIE.
    v.extend_from_slice(&[8, 0, 0, 0, 4, 0, 0, 0, 0, 0, 8, 0x00]);
    v
}

#[test]
fn comp_dirs_of_each_unit() {
    let dirs = collect_comp_dirs(&info(), &abbrev(), b"\0/home/x\0");
    assert_eq!(dirs, vec![(0x20, b"/src".to_vec()), (0x44, b"/home/x".to_vec())]);
}

#[test]
fn cut_off_unit_ends_the_walk() {
    let mut i = info();
    i.truncate(40);
    let dirs = collect_comp_dirs(&i, &abbrev(), b"\0/home/x\0");
    assert_eq!(dirs, vec![(0x20, b"/src".to_vec())]);
    assert!(collect_comp_dirs(&[], &abbrev(), b"").is_empty());
}

#[test]
fn strp_past_the_section_drops_the_unit() {
    let dirs = collect_comp_dirs(&info(), &abbrev(), b"\0");
    assert_eq!(dirs, vec![(0x20, b"/src".to_vec())]);
}

#[test]
fn abbreviation_table() {
    let t = parse_abbrev_table(&abbrev(), 0);
    assert_eq!(t.len(), 2);
    assert_eq!((t[0].code, t[0].tag, t[0].has_children), (1, 0x11, false));
    assert_eq!(t[0].attrs, vec![(0x10, 0x17), (0x1b, 0x08), (0x03, 0x0e)]);
    assert_eq!((t[1].code, t[1].has_children), (2, true));
    assert_eq!(parse_abbrev_table(&abbrev(), 11).len(), 1);
    assert!(parse_abbrev_table(&[0x01, 0x11], 0).is_empty());
}

#[test]
fn skipping_forms() {
    let mut off = 0usize;
    assert!(skip_form(b"ab\0c", &mut off, DW_FORM_STRING, false, 8));
    assert_eq!(off, 3);
    let mut off = 0usize;
    assert!(skip_form(&[2, 9, 9, 7], &mut off, DW_FORM_BLOCK1, false, 8));
    assert_eq!(off, 3);
    let mut off = 0usize;
    assert!(skip_form(&[0x05, 1, 2], &mut off, DW_FORM_INDIRECT, false, 8));
    assert_eq!(off, 3);
    let mut off = 1usize;
    assert!(skip_form(&[0, 0], &mut off, DW_FORM_DATA2, false, 8));
    assert_eq!(off, 3);
    let mut off = 0usize;
    assert!(!skip_form(&[0, 0], &mut off, 0x7f, false, 8));
}
