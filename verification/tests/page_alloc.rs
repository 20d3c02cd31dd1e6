use goish::runtime::mheap::consts::{PAGE_SIZE, PALLOC_CHUNK_BYTES, PALLOC_CHUNK_PAGES};
use goish::runtime::mheap::page_alloc::{PageAlloc, ALLOC_FAILED};

fn fresh(n_chunks: usize) -> PageAlloc {
    PageAlloc::new(0x10_0000_0000usize, n_chunks, n_chunks)
}

#[test]
fn fresh_alloc_one_page() {
    let mut p = fresh(1);
    let addr = p.allocate(1);
    assert!(addr != ALLOC_FAILED);
    assert!(addr >= p.arena_base);
    assert!(addr < p.arena_base + PALLOC_CHUNK_BYTES);
    assert_eq!(p.allocated_pages(), 1);
}

#[test]
fn alloc_then_free_round_trip() {
    let mut p = fresh(1);
    let a = p.allocate(8);
    let b = p.allocate(16);
    let c = p.allocate(32);
    assert!(a != ALLOC_FAILED && b != ALLOC_FAILED && c != ALLOC_FAILED);
    assert_eq!(p.allocated_pages(), 8 + 16 + 32);
    p.free(b, 16);
    assert_eq!(p.allocated_pages(), 8 + 32);
    let d = p.allocate(16);
    assert_eq!(d, b);
}

#[test]
fn exhaust_chunk() {
    let mut p = fresh(1);
    let _ = p.allocate(PALLOC_CHUNK_PAGES);
    assert_eq!(p.allocate(1), ALLOC_FAILED);
}

#[test]
fn no_overlap_at_full_checkpoint_scale() {
    const MAX_CHUNKS: usize = 81920;
    let mut p = PageAlloc::new(0x10_0000_0000usize, 256, MAX_CHUNKS);
    let mut live: Vec<(usize, usize)> = Vec::new();
    let mut rng = 0x9e3779b97f4a7c15u64;
    let mut next = move || {
        rng ^= rng << 13;
        rng ^= rng >> 7;
        rng ^= rng << 17;
        rng
    };
    let big_sizes = [173_000usize, 43_000, 10_800, 86_000];
    let alloc_like_loader = |p: &mut PageAlloc, live: &mut Vec<(usize, usize)>, npages: usize| {
        let mut addr = p.allocate(npages);
        if addr == ALLOC_FAILED {
            let need = npages.div_ceil(PALLOC_CHUNK_PAGES);
            let room = p.capacity_chunks() - p.end_chunk;
            let step = need.max(64).min(room);
            assert!(step >= need, "arena truly exhausted mid-test");
            p.grow(step);
            addr = p.allocate(npages);
        }
        assert!(addr != ALLOC_FAILED, "alloc failed after grow");
        let end = addr + npages * PAGE_SIZE;
        assert!(addr >= p.arena_base, "span below arena");
        assert!(
            end <= p.arena_base + p.end_chunk * PALLOC_CHUNK_BYTES,
            "span past active arena end (addr {:#x} npages {})",
            addr,
            npages
        );
        for &(b, n) in live.iter() {
            let e = b + n * PAGE_SIZE;
            assert!(
                end <= b || addr >= e,
                "OVERLAP: new [{:#x},{:#x}) vs live [{:#x},{:#x})",
                addr,
                end,
                b,
                e
            );
        }
        live.push((addr, npages));
    };
    for _layer in 0..93 {
        alloc_like_loader(&mut p, &mut live, big_sizes[0]);
        for _ in 0..4 {
            let s = big_sizes[1 + (next() as usize % 3)];
            alloc_like_loader(&mut p, &mut live, s);
        }
        for _ in 0..6 {
            alloc_like_loader(&mut p, &mut live, 1);
        }
        if live.len() > 8 && next() % 3 == 0 {
            let idx = live.len() - 2;
            let (b, n) = live.swap_remove(idx);
            p.free(b, n);
        }
    }
    assert!(p.end_chunk > 16384, "test never left low-chunk range (end_chunk {})", p.end_chunk);
}

#[test]
fn first_fit_is_lowest_address() {
    let mut p = fresh(2);
    let a = p.allocate(4);
    let b = p.allocate(4);
    assert_eq!(a, p.arena_base);
    assert_eq!(b, p.arena_base + 4 * PAGE_SIZE);
    p.free(a, 4);
    assert_eq!(p.allocate(2), a);
}

#[test]
fn find_does_not_change_state() {
    let mut p = fresh(1);
    let _ = p.allocate(3);
    let f = p.find(5);
    assert_eq!(f, p.arena_base + 3 * PAGE_SIZE);
    assert_eq!(p.allocated_pages(), 3);
}

#[test]
fn run_crossing_chunks() {
    let mut p = fresh(2);
    let a = p.allocate(PALLOC_CHUNK_PAGES - 2);
    assert_eq!(a, p.arena_base);
    let b = p.allocate(10);
    assert_eq!(b, p.arena_base + (PALLOC_CHUNK_PAGES - 2) * PAGE_SIZE);
    assert_eq!(p.allocated_pages(), PALLOC_CHUNK_PAGES + 8);
}

#[test]
fn allocated_plus_free_is_total() {
    let mut p = fresh(3);
    let _ = p.allocate(700);
    let _ = p.allocate(5);
    assert_eq!(p.allocated_pages() + p.free_pages(), 3 * PALLOC_CHUNK_PAGES);
    assert_eq!(p.free_pages(), 3 * PALLOC_CHUNK_PAGES - 705);
}

#[test]
fn grow_adds_free_pages() {
    let mut p = PageAlloc::new(0x10_0000_0000usize, 1, 4);
    let _ = p.allocate(PALLOC_CHUNK_PAGES);
    assert_eq!(p.allocate(1), ALLOC_FAILED);
    p.grow(2);
    assert_eq!(p.end_chunk, 3);
    assert_eq!(p.free_pages(), 2 * PALLOC_CHUNK_PAGES);
    assert_eq!(p.allocate(1), p.arena_base + PALLOC_CHUNK_BYTES);
}

#[test]
fn chunk_coordinates() {
    let p = fresh(4);
    let addr = p.arena_base + 2 * PALLOC_CHUNK_BYTES + 7 * PAGE_SIZE;
    assert_eq!(p.chunk_index(addr), 2);
    assert_eq!(p.chunk_page_index(addr), 7);
    assert_eq!(p.chunk_base(3), p.arena_base + 3 * PALLOC_CHUNK_BYTES);
    assert_eq!(p.capacity_chunks(), 4);
}

#[test]
fn alloc_range_then_free_restores_everything() {
    let mut p = fresh(2);
    let base = p.arena_base + 100 * PAGE_SIZE;
    p.alloc_range(base, 30);
    assert_eq!(p.allocated_pages(), 30);
    assert_eq!(p.find(1), p.arena_base);
    assert_eq!(p.find(200), p.arena_base + 130 * PAGE_SIZE);
    assert_eq!(p.find(900), ALLOC_FAILED);
    p.free(base, 30);
    assert_eq!(p.allocated_pages(), 0);
    assert_eq!(p.find(1024), p.arena_base);
}

#[test]
fn too_large_request_fails() {
    let mut p = fresh(1);
    assert_eq!(p.allocate(PALLOC_CHUNK_PAGES + 1), ALLOC_FAILED);
    assert_eq!(p.allocated_pages(), 0);
}
