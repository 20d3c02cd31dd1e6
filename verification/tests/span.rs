use goish::runtime::mcentral::span::Span;

fn fresh(elemsize: u32, nelems: u16) -> Span {
    let mut s = Span::new();
    s.base = 0x100_0000;
    s.npages = 1;
    s.elemsize = elemsize;
    s.nelems = nelems;
    s.sizeclass = 1;
    s
}

#[test]
fn alloc_then_free_via_owner_cache() {
    let mut s = fresh(8, 1024);
    let claimed = s.refill_alloc_cache(0);
    assert_eq!(claimed, 64);
    s.alloc_count += claimed as u16;
    let a = s.next_free_owner().unwrap();
    let b = s.next_free_owner().unwrap();
    assert_eq!(a, 0);
    assert_eq!(b, 1);
    assert_eq!(s.alloc_count, 64);
    s.free_slot_atomic(0);
    assert_eq!(s.alloc_count, 63);
}

#[test]
fn slot_addressing() {
    let mut s = fresh(32, 256);
    s.base = 0x4000;
    assert_eq!(s.slot_addr(2), 0x4000 + 2 * 32);
    assert_eq!(s.slot_of(0x4000 + 5 * 32), 5);
}

#[test]
fn cross_m_free_during_refill_preserved() {
    let mut s = fresh(8, 1024);
    s.alloc_bits[0] = 0xFF;
    s.alloc_count = 8;
    let load = s.alloc_bits[0];
    let claim_mask = !load;
    s.alloc_bits[0] &= !(1u64 << 3);
    s.alloc_count -= 1;
    s.alloc_bits[0] |= claim_mask;
    let final_word = s.alloc_bits[0];
    assert_eq!(final_word, 0xFFFF_FFFF_FFFF_FFF7);
    assert_eq!(s.alloc_count, 7);
}

#[test]
fn locked_alloc_takes_first_free_slot() {
    let mut s = fresh(16, 100);
    s.alloc_bits[0] = 0b1011;
    s.alloc_count = 3;
    assert_eq!(s.alloc_slot_locked(), Some(2));
    assert_eq!(s.alloc_slot_locked(), Some(4));
    assert_eq!(s.alloc_count, 5);
    assert_eq!(s.freeindex, 5);
    assert!(s.debug_audit());
}

#[test]
fn locked_alloc_stops_at_nelems() {
    let mut s = fresh(16, 3);
    assert_eq!(s.alloc_slot_locked(), Some(0));
    assert_eq!(s.alloc_slot_locked(), Some(1));
    assert_eq!(s.alloc_slot_locked(), Some(2));
    assert!(s.is_full());
    assert_eq!(s.alloc_slot_locked(), None);
    assert_eq!(s.freeindex, 3);
}

#[test]
fn locked_free_rewinds_scan_start() {
    let mut s = fresh(16, 10);
    for _ in 0..5 {
        s.alloc_slot_locked();
    }
    s.free_slot_locked(1);
    assert_eq!(s.freeindex, 1);
    assert_eq!(s.alloc_count, 4);
    assert_eq!(s.alloc_slot_locked(), Some(1));
    s.free_slot_locked(1);
    s.free_slot_locked(1);
    assert_eq!(s.alloc_count, 4);
    assert!(s.debug_audit());
}

#[test]
fn free_out_of_range_is_ignored() {
    let mut s = fresh(16, 10);
    s.alloc_slot_locked();
    s.free_slot_atomic(2000);
    assert_eq!(s.alloc_count, 1);
    assert!(!s.is_empty());
    s.free_slot_atomic(0);
    assert!(s.is_empty());
}

#[test]
fn owner_cache_crosses_into_next_word() {
    let mut s = fresh(8, 200);
    s.alloc_bits[0] = u64::MAX;
    s.alloc_bits[1] = 0b101;
    s.alloc_count = 66;
    let slot = s.next_free_owner().unwrap();
    assert_eq!(slot, 65);
    assert_eq!(s.alloc_bits[1], u64::MAX);
    assert_eq!(s.alloc_count, 128);
    assert!(s.debug_audit());
    s.release_unsold();
    assert_eq!(s.alloc_cache, 0);
    assert_eq!(s.alloc_count, 67);
    assert_eq!(s.alloc_bits[1], 0b111);
    assert!(s.debug_audit());
}

#[test]
fn owner_runs_out_of_slots() {
    let mut s = fresh(8, 64);
    s.alloc_bits[0] = u64::MAX;
    s.alloc_count = 64;
    assert_eq!(s.next_free_owner(), None);
    assert_eq!(s.freeindex, 64);
}

#[test]
fn reset_clears_everything() {
    let mut s = fresh(8, 64);
    s.alloc_slot_locked();
    s.next = 4;
    s.reset();
    assert_eq!(s.alloc_count, 0);
    assert_eq!(s.nelems, 0);
    assert_eq!(s.next, 0);
    assert_eq!(s.alloc_bits, [0u64; 16]);
}
