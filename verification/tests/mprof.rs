use goish::runtime::mprof::{
    addr_slot, free_hook, malloc_hook_step, stack_hash, HookStep, MemProfile, MemProfileRate, SetMemProfileRate, DEFAULT_MEM_PROFILE_RATE,
    NBUCKETS,
};

#[test]
fn stack_hash_folds_the_frames() {
    assert_eq!(stack_hash(&[0x401000, 0x402000]), 0x9fbeaac040679fed);
    assert_eq!(stack_hash(&[]), 0xcbf2_9ce4_8422_2325);
}

#[test]
fn addr_slot_takes_the_top_bits() {
    assert_eq!(addr_slot(0x7f00_0000_1000), 3429);
    assert!(addr_slot(usize::MAX - 7) < 8192);
}

#[test]
fn alloc_then_free_credits_the_same_bucket() {
    let mut p = MemProfile::new();
    let frames = [0x401000u64, 0x402000];
    p.record_alloc(&frames, 0x7f00_0000_1000, 4096);
    p.record_alloc(&frames, 0x7f00_0000_2000, 4096);
    assert_eq!(p.live_sampled(), 2);
    p.record_free(0x7f00_0000_1000);
    assert_eq!(p.live_sampled(), 1);
    let mut found = 0;
    for i in 0..p.bucket_slots() {
        if let Some(b) = p.bucket_at(i) {
            found += 1;
            assert_eq!(b.depth, 2);
            assert_eq!(&b.pcs[..2], &frames);
            assert_eq!(b.allocs, 2);
            assert_eq!(b.alloc_bytes, 8192);
            assert_eq!(b.frees, 1);
            assert_eq!(b.free_bytes, 4096);
        }
    }
    assert_eq!(found, 1);
    // A pointer that was never sampled changes nothing.
    p.record_free(0x1234_5678);
    assert_eq!(p.live_sampled(), 1);
}

#[test]
fn distinct_stacks_get_distinct_buckets() {
    let mut p = MemProfile::new();
    p.record_alloc(&[1, 2, 3], 0x1000, 16);
    p.record_alloc(&[4, 5], 0x2000, 32);
    let mut n = 0;
    for i in 0..NBUCKETS {
        if p.bucket_at(i).is_some() {
            n += 1;
        }
    }
    assert_eq!(n, 2);
    assert!(p.bucket_at(NBUCKETS).is_none());
}

#[test]
fn empty_stack_is_dropped() {
    let mut p = MemProfile::new();
    p.record_alloc(&[], 0x1000, 16);
    assert_eq!(p.dropped(), 1);
    assert_eq!(p.live_sampled(), 0);
}

#[test]
fn tombstones_keep_later_entries_reachable() {
    let mut p = MemProfile::new();
    // Pointers that share a home slot collide into one probe run.
    let a = 0x7f00_0000_1000usize;
    let mut same = Vec::new();
    let mut q = a + 16;
    while same.len() < 3 {
        if addr_slot(q) == addr_slot(a) {
            same.push(q);
        }
        q += 16;
    }
    p.record_alloc(&[7], a, 1);
    for &x in &same {
        p.record_alloc(&[7], x, 1);
    }
    p.record_free(a);
    p.record_free(same[2]);
    assert_eq!(p.live_sampled(), 2);
    let b = (0..NBUCKETS).find_map(|i| p.bucket_at(i)).unwrap();
    assert_eq!(b.allocs, 4);
    assert_eq!(b.frees, 2);
}

#[test]
fn reset_and_rate() {
    let mut p = MemProfile::new();
    assert_eq!(MemProfileRate(&p), DEFAULT_MEM_PROFILE_RATE);
    SetMemProfileRate(&mut p, 1);
    assert_eq!(MemProfileRate(&p), 1);
    p.record_alloc(&[1], 0x1000, 8);
    p.reset();
    assert_eq!(p.live_sampled(), 0);
    assert!((0..NBUCKETS).all(|i| p.bucket_at(i).is_none()));
    assert_eq!(MemProfileRate(&p), 1);
}

#[test]
fn malloc_hook_counts_down_then_samples() {
    assert_eq!(malloc_hook_step(0, 0x1000, true, 100, 10), HookStep::Skip);
    assert_eq!(malloc_hook_step(512, 0, true, 100, 10), HookStep::Skip);
    assert_eq!(malloc_hook_step(512, 0x1000, false, 100, 10), HookStep::Skip);
    assert_eq!(malloc_hook_step(512, 0x1000, true, 100, 10), HookStep::Countdown(90));
    assert_eq!(malloc_hook_step(512, 0x1000, true, 100, 100), HookStep::Sample);
    assert_eq!(malloc_hook_step(1, 0x1000, true, 0, 1), HookStep::Sample);
}

#[test]
fn free_hook_credits_only_sampled_pointers() {
    let mut p = MemProfile::new();
    free_hook(&mut p, 0x7f00_0000_1000);
    assert_eq!(p.live_sampled(), 0);
    p.record_alloc(&[0x401000u64], 0x7f00_0000_1000, 64);
    free_hook(&mut p, 0);
    assert_eq!(p.live_sampled(), 1);
    free_hook(&mut p, 0x7f00_0000_3000);
    assert_eq!(p.live_sampled(), 1);
    free_hook(&mut p, 0x7f00_0000_1000);
    assert_eq!(p.live_sampled(), 0);
}

#[test]
fn tombstone_does_not_cut_the_probe_chain() {
    assert_eq!(addr_slot(8), addr_slot(46376));
    let mut p = MemProfile::new();
    let f1 = [0x401000u64];
    let f2 = [0x402000u64, 0x403000];
    p.record_alloc(&f1, 8, 100);
    p.record_alloc(&f2, 46376, 300);
    assert_eq!(p.live_sampled(), 2);
    p.record_free(8);
    assert_eq!(p.live_sampled(), 1);
    p.record_free(46376);
    assert_eq!(p.live_sampled(), 0);
    let mut seen = 0;
    for i in 0..p.bucket_slots() {
        if let Some(b) = p.bucket_at(i) {
            seen += 1;
            if b.depth == 2 {
                assert_eq!((b.frees, b.free_bytes), (1, 300));
            } else {
                assert_eq!((b.frees, b.free_bytes), (1, 100));
            }
        }
    }
    assert_eq!(seen, 2);
    // A second free of the same pointer changes nothing.
    p.record_free(46376);
    assert_eq!(p.live_sampled(), 0);
    for i in 0..p.bucket_slots() {
        if let Some(b) = p.bucket_at(i) {
            assert_eq!(b.frees, 1);
        }
    }
}
