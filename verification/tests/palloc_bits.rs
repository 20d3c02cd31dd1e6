use goish::runtime::mheap::palloc_bits::{find_bit_range64, PageBits, PallocBits, NO_INDEX};

#[test]
fn set_clear_roundtrip() {
    let mut b = PageBits::zero();
    b.set(7);
    assert_eq!(b.get(7), 1);
    b.clear(7);
    assert_eq!(b.get(7), 0);
}

#[test]
fn set_range_within_word() {
    let mut b = PageBits::zero();
    b.set_range(3, 5);
    for i in 0..3 {
        assert_eq!(b.get(i), 0);
    }
    for i in 3..8 {
        assert_eq!(b.get(i), 1);
    }
}

#[test]
fn set_range_across_words() {
    let mut b = PageBits::zero();
    b.set_range(60, 10);
    assert_eq!(b.popcnt_range(60, 10), 10);
}

#[test]
fn summarize_all_free() {
    let b = PallocBits::zero();
    let s = b.summarize();
    assert_eq!(s.unpack(), (512, 512, 512));
}

#[test]
fn summarize_all_allocated() {
    let mut b = PallocBits::zero();
    b.alloc_range(0, 512);
    let s = b.summarize();
    assert_eq!(s.unpack(), (0, 0, 0));
}

#[test]
fn summarize_split() {
    let mut b = PallocBits::zero();
    b.alloc_range(100, 312);
    let s = b.summarize();
    assert_eq!(s.start(), 100);
    assert_eq!(s.end(), 100);
    assert_eq!(s.max(), 100);
}

#[test]
fn find_one() {
    let mut b = PallocBits::zero();
    b.alloc_range(0, 5);
    let (idx, _) = b.find(1, 0);
    assert_eq!(idx, 5);
}

#[test]
fn find_n_within_word() {
    let mut b = PallocBits::zero();
    b.alloc_range(0, 10);
    let (idx, _) = b.find(8, 0);
    assert_eq!(idx, 10);
}

#[test]
fn find_n_spanning_words() {
    let mut b = PallocBits::zero();
    b.alloc_range(60, 4);
    let (idx, _) = b.find(128, 0);
    assert_eq!(idx, 64);
}

#[test]
fn find_bit_range64_basic() {
    assert_eq!(find_bit_range64(0xF0, 4), 4);
    assert!(find_bit_range64(0xF0, 5) >= 64);
}

#[test]
fn find_reports_no_index_when_full() {
    let mut b = PallocBits::zero();
    b.alloc_range(0, 512);
    let (idx, first_free) = b.find(1, 0);
    assert_eq!(idx, NO_INDEX);
    assert_eq!(first_free, NO_INDEX);
}

#[test]
fn find_starts_at_search_index() {
    let b = PallocBits::zero();
    let (idx, first_free) = b.find(3, 130);
    assert_eq!(idx, 130);
    assert_eq!(first_free, 130);
    let (idx, first_free) = b.find(1, 5);
    assert_eq!(idx, 5);
    assert_eq!(first_free, 5);
    let (idx, _) = b.find(100, 5);
    assert_eq!(idx, 5);
    let (idx, first_free) = b.find(1, 600);
    assert_eq!(idx, NO_INDEX);
    assert_eq!(first_free, NO_INDEX);
}

#[test]
fn free_undoes_alloc_range() {
    let mut b = PallocBits::zero();
    b.alloc_range(10, 20);
    b.free(10, 20);
    assert_eq!(b.summarize().unpack(), (512, 512, 512));
}

#[test]
fn set_all_then_clear_all() {
    let mut b = PageBits::zero();
    b.set_all();
    assert_eq!(b.popcnt_range(0, 512), 512);
    b.clear_all();
    assert_eq!(b.popcnt_range(0, 512), 0);
}

#[test]
fn block64_and_set_block64() {
    let mut b = PageBits::zero();
    b.set_block64(64, 0xdead_beef);
    assert_eq!(b.block64(64), 0xdead_beef);
    assert_eq!(b.block64(0), 0);
}

#[test]
fn pages64_and_alloc_pages64() {
    let mut b = PallocBits::zero();
    b.alloc_pages64(0, 0xff);
    assert_eq!(b.pages64(0), 0xff);
    let (idx, _) = b.find(1, 0);
    assert_eq!(idx, 8);
}

#[test]
fn find_bit_range64_full_word() {
    assert_eq!(find_bit_range64(u64::MAX, 64), 0);
    assert_eq!(find_bit_range64(0, 1), 64);
}
