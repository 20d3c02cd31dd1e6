use goish::runtime::mheap::consts::MAX_PACKED_VALUE;
use goish::runtime::mheap::palloc_sum::{merge_summaries, PallocSum};

#[test]
fn pack_unpack_roundtrip() {
    let s = PallocSum::pack(3, 17, 9);
    assert_eq!(s.start(), 3);
    assert_eq!(s.max(), 17);
    assert_eq!(s.end(), 9);
    assert_eq!(s.unpack(), (3, 17, 9));
}

#[test]
fn empty_is_all_zero() {
    let s = PallocSum::empty();
    assert_eq!(s.unpack(), (0, 0, 0));
}

#[test]
fn full_max_uses_sentinel() {
    let s = PallocSum::full_max();
    assert_eq!(s.start(), MAX_PACKED_VALUE);
    assert_eq!(s.max(), MAX_PACKED_VALUE);
    assert_eq!(s.end(), MAX_PACKED_VALUE);
    assert_eq!(s.raw(), 1u64 << 63);
}

#[test]
fn merge_two_free_blocks() {
    let a = PallocSum::full(8);
    let b = PallocSum::full(8);
    let m = merge_summaries(&[a, b], 3);
    assert_eq!(m.unpack(), (16, 16, 16));
}

#[test]
fn merge_straddle_boundary() {
    let a = PallocSum::pack(0, 4, 4);
    let b = PallocSum::pack(4, 4, 0);
    let m = merge_summaries(&[a, b], 3);
    assert_eq!(m.unpack(), (0, 8, 0));
}

#[test]
fn merge_alloc_breaks_start_extension() {
    let a = PallocSum::full(8);
    let b = PallocSum::pack(2, 5, 0);
    let m = merge_summaries(&[a, b], 3);
    assert_eq!(m.start(), 10);
    assert_eq!(m.end(), 0);
    assert_eq!(m.max(), 10);
}

#[test]
fn pack_of_max_is_the_sentinel() {
    let s = PallocSum::pack(MAX_PACKED_VALUE, MAX_PACKED_VALUE, MAX_PACKED_VALUE);
    assert_eq!(s.raw(), 1u64 << 63);
    assert_eq!(s.unpack(), (MAX_PACKED_VALUE, MAX_PACKED_VALUE, MAX_PACKED_VALUE));
}

#[test]
fn raw_packs_fields_in_21_bit_lanes() {
    let s = PallocSum::pack(1, 2, 3);
    assert_eq!(s.raw(), 1 | (2 << 21) | (3 << 42));
    assert_eq!(PallocSum::empty().raw(), 0);
}

#[test]
fn merge_of_one_is_itself() {
    let a = PallocSum::pack(3, 5, 2);
    let m = merge_summaries(&[a], 3);
    assert_eq!(m.unpack(), (3, 5, 2));
}

#[test]
fn merge_of_eight_full_leaves_is_full_parent() {
    let leaves = [PallocSum::full(512); 8];
    let m = merge_summaries(&leaves, 9);
    assert_eq!(m.unpack(), (4096, 4096, 4096));
}
