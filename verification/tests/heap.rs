use goish::runtime::heap::{
    chunk_align_up, mheap_alloc_pages, mheap_arena_base, mheap_capacity_pages, mheap_free_pages,
    pages_for, sys_bytes, MHeap, GROW_STEP_CHUNKS, INITIAL_ARENA_CHUNKS, MAX_ARENA_CHUNKS,
};
use goish::runtime::mheap::consts::{PAGE_SIZE, PALLOC_CHUNK_BYTES, PALLOC_CHUNK_PAGES};
use goish::runtime::mheap::page_alloc::ALLOC_FAILED;

const BASE: usize = 0x10_0000_0000;

fn ready() -> MHeap {
    let mut h = MHeap::new();
    h.init(BASE);
    h
}

#[test]
fn pages_for_rounds_up() {
    assert_eq!(pages_for(0), 0);
    assert_eq!(pages_for(1), 1);
    assert_eq!(pages_for(PAGE_SIZE), 1);
    assert_eq!(pages_for(PAGE_SIZE + 1), 2);
    assert_eq!(pages_for(usize::MAX), usize::MAX / PAGE_SIZE + 1);
}

#[test]
fn chunk_align_up_rounds_to_chunk() {
    assert_eq!(chunk_align_up(0), 0);
    assert_eq!(chunk_align_up(1), PALLOC_CHUNK_BYTES);
    assert_eq!(chunk_align_up(PALLOC_CHUNK_BYTES), PALLOC_CHUNK_BYTES);
    assert_eq!(chunk_align_up(PALLOC_CHUNK_BYTES + 7), 2 * PALLOC_CHUNK_BYTES);
}

#[test]
fn before_init_reports_nothing() {
    let h = MHeap::new();
    assert_eq!(mheap_arena_base(&h), 0);
    assert_eq!(mheap_capacity_pages(&h), 0);
    assert_eq!(sys_bytes(&h), 0);
    let mut h = h;
    mheap_free_pages(&mut h, BASE, 1);
    assert!(h.pages.is_none());
}

#[test]
fn init_sets_up_the_arena_once() {
    let mut h = ready();
    assert_eq!(mheap_arena_base(&h), BASE);
    assert_eq!(mheap_capacity_pages(&h), MAX_ARENA_CHUNKS * PALLOC_CHUNK_PAGES);
    assert_eq!(sys_bytes(&h), 0);
    h.init(BASE + PALLOC_CHUNK_BYTES);
    assert_eq!(mheap_arena_base(&h), BASE);
}

#[test]
fn alloc_free_sys_bytes() {
    let mut h = ready();
    let a = mheap_alloc_pages(&mut h, 3);
    assert_eq!(a, BASE);
    assert_eq!(sys_bytes(&h), 3 * PAGE_SIZE);
    let b = mheap_alloc_pages(&mut h, 1);
    assert_eq!(b, BASE + 3 * PAGE_SIZE);
    mheap_free_pages(&mut h, a, 3);
    assert_eq!(sys_bytes(&h), PAGE_SIZE);
    let c = mheap_alloc_pages(&mut h, 2);
    assert_eq!(c, BASE);
}

#[test]
fn grows_when_the_active_part_is_full() {
    let mut h = ready();
    let all = mheap_alloc_pages(&mut h, INITIAL_ARENA_CHUNKS * PALLOC_CHUNK_PAGES);
    assert_eq!(all, BASE);
    assert_eq!(h.pages.as_ref().unwrap().end_chunk_index(), INITIAL_ARENA_CHUNKS);
    let next = mheap_alloc_pages(&mut h, 1);
    assert_eq!(next, BASE + INITIAL_ARENA_CHUNKS * PALLOC_CHUNK_BYTES);
    assert_eq!(
        h.pages.as_ref().unwrap().end_chunk_index(),
        INITIAL_ARENA_CHUNKS + GROW_STEP_CHUNKS
    );
}

#[test]
fn large_request_grows_by_what_it_needs() {
    let mut h = ready();
    let n = (INITIAL_ARENA_CHUNKS + 100) * PALLOC_CHUNK_PAGES;
    let a = mheap_alloc_pages(&mut h, n);
    assert_eq!(a, BASE);
    assert_eq!(
        h.pages.as_ref().unwrap().end_chunk_index(),
        2 * INITIAL_ARENA_CHUNKS + 100
    );
}

#[test]
fn request_beyond_the_arena_fails() {
    let mut h = ready();
    let r = mheap_alloc_pages(&mut h, MAX_ARENA_CHUNKS * PALLOC_CHUNK_PAGES + 1);
    assert_eq!(r, ALLOC_FAILED);
    assert_eq!(h.pages.as_ref().unwrap().end_chunk_index(), INITIAL_ARENA_CHUNKS);
    assert_eq!(sys_bytes(&h), 0);
}
