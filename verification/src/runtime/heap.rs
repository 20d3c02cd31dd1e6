//! The heap: the page allocator behind the large-allocation path,
//! grown on demand inside an arena reserved up front. The caller maps
//! the arena and owns the `MHeap`; the functions here decide.
use vstd::prelude::*;
use crate::runtime::mheap::consts::{PAGE_SIZE, PALLOC_CHUNK_BYTES, PALLOC_CHUNK_PAGES};
use crate::runtime::mheap::page_alloc::{PageAlloc, ALLOC_FAILED, first_fit_in};
use crate::runtime::mheap::palloc_bits::range_set;
use crate::runtime::mheap::palloc_sum::free_run_at;
use crate::runtime::mheap::palloc_bits::count_alloc;

verus! {

/// Allocations above this many bytes go to the page heap directly.
pub const LARGE_THRESHOLD: usize = 32768;
/// Chunks active when the heap starts: 1 GiB.
pub const INITIAL_ARENA_CHUNKS: usize = 256;
/// Chunks the arena reserves: 320 GiB.
pub const MAX_ARENA_CHUNKS: usize = 81920;
/// The least the heap grows by when it has to grow.
pub const GROW_STEP_CHUNKS: usize = 64;

/// The page heap, once it is set up.
pub struct MHeap {
    pub pages: Option<PageAlloc>,
}

/// The heap is set up and sound, or not set up.
pub open spec fn heap_ok(h: MHeap) -> bool {
    match h.pages {
        Some(p) => p.wf(),
        None => true,
    }
}

/// The first chunk boundary at or above `raw`: where an arena mapped
/// at `raw` (with a chunk to spare) starts.
pub fn chunk_align_up(raw: usize) -> (base: usize)
    requires
        raw + PALLOC_CHUNK_BYTES - 1 <= usize::MAX,
    ensures
        base % PALLOC_CHUNK_BYTES == 0,
        raw <= base < raw + PALLOC_CHUNK_BYTES,
{
    let b = (raw + (PALLOC_CHUNK_BYTES - 1)) / PALLOC_CHUNK_BYTES * PALLOC_CHUNK_BYTES;
    assert(b % 4194304 == 0 && raw <= b < raw + 4194304) by (nonlinear_arith)
        requires
            b == (raw + 4194303) / 4194304 * 4194304,
    ;
    b
}

/// Bytes rounded up to whole pages.
pub fn pages_for(size: usize) -> (n: usize)
    ensures
        n == (size + PAGE_SIZE - 1) / (PAGE_SIZE as int),
{
    size / PAGE_SIZE + if size % PAGE_SIZE != 0 {
        1usize
    } else {
        0usize
    }
}

impl MHeap {
    /// A heap that is not set up yet.
    pub fn new() -> (h: Self)
        ensures
            h.pages is None,
    {
        MHeap { pages: None }
    }

    /// Sets the heap up over an arena of `MAX_ARENA_CHUNKS` chunks
    /// reserved at `arena_base`, with `INITIAL_ARENA_CHUNKS` of them
    /// active and free. A heap already set up stays as it is.
    pub fn init(&mut self, arena_base: usize)
        requires
            arena_base % PALLOC_CHUNK_BYTES == 0,
            arena_base > 0,
            arena_base + MAX_ARENA_CHUNKS * PALLOC_CHUNK_BYTES <= usize::MAX,
            heap_ok(*old(self)),
        ensures
            heap_ok(*final(self)),
            old(self).pages is Some ==> *final(self) == *old(self),
            old(self).pages is None ==> (final(self).pages matches Some(p) && p.arena() == arena_base
                && p.end() == INITIAL_ARENA_CHUNKS && p.capacity() == MAX_ARENA_CHUNKS && p.start() == 0
                && p.pages() == Seq::new((INITIAL_ARENA_CHUNKS * 512) as nat, |i: int| false)),
    {
        if self.pages.is_some() {
            return;
        }
        self.pages = Some(PageAlloc::new(arena_base, INITIAL_ARENA_CHUNKS, MAX_ARENA_CHUNKS));
    }
}

/// The arena's base address, or 0 before the heap is set up.
pub fn mheap_arena_base(h: &MHeap) -> (r: usize)
    ensures
        r == (match h.pages {
            Some(p) => p.arena(),
            None => 0,
        }),
{
    match &h.pages {
        Some(p) => p.arena_addr(),
        None => 0,
    }
}

/// The pages the whole arena can hold, or 0 before the heap is set up.
pub fn mheap_capacity_pages(h: &MHeap) -> (r: usize)
    requires
        heap_ok(*h),
    ensures
        r == (match h.pages {
            Some(p) => p.capacity() * PALLOC_CHUNK_PAGES,
            None => 0,
        }),
{
    match &h.pages {
        Some(p) => {
            proof {
                p.lemma_capacity_bound();
            }
            p.capacity_chunks() * (PALLOC_CHUNK_BYTES / PAGE_SIZE)
        },
        None => 0,
    }
}

/// Bytes of allocated pages, or 0 before the heap is set up.
pub fn sys_bytes(h: &MHeap) -> (r: usize)
    requires
        heap_ok(*h),
    ensures
        r == (match h.pages {
            Some(p) => count_alloc(p.pages()) * PAGE_SIZE,
            None => 0,
        }),
{
    match &h.pages {
        Some(p) => {
            let n = p.allocated_pages();
            proof {
                p.lemma_pages_bound();
            }
            n * PAGE_SIZE
        },
        None => 0,
    }
}

/// The chunks a request for `npages` pages needs, rounded up.
pub open spec fn chunks_for(npages: int) -> int {
    (npages + PALLOC_CHUNK_PAGES - 1) / (PALLOC_CHUNK_PAGES as int)
}

/// How many chunks the heap grows by for a request that needs `need`
/// chunks when `room` are left: at least `GROW_STEP_CHUNKS`, at most
/// `room`.
pub open spec fn grow_step(need: int, room: int) -> int {
    let want = if need > GROW_STEP_CHUNKS {
        need
    } else {
        GROW_STEP_CHUNKS as int
    };
    if want < room {
        want
    } else {
        room
    }
}

/// The active pages after growing by `step` chunks: all the new ones free.
pub open spec fn grown_pages(pages: Seq<bool>, step: int) -> Seq<bool> {
    pages + Seq::new((step * PALLOC_CHUNK_PAGES) as nat, |i: int| false)
}

/// Allocates `npages` pages first-fit, growing the arena when the
/// active part has no room: by what the request needs, at least
/// `GROW_STEP_CHUNKS`, as far as the arena reaches. Returns the address,
/// or `ALLOC_FAILED` when the request does not fit even then (the heap
/// is then as it was).
pub fn mheap_alloc_pages(h: &mut MHeap, npages: usize) -> (r: usize)
    requires
        heap_ok(*old(h)),
        old(h).pages is Some,
        npages >= 1,
    ensures
        heap_ok(*final(h)),
        final(h).pages is Some,
        ({
            let p0 = old(h).pages->0;
            let p1 = final(h).pages->0;
            let a = p0.arena();
            let n = npages as int;
            let step = grow_step(chunks_for(n), p0.capacity() - p0.end());
            let fits = !first_fit_in(p0.pages(), a, n, ALLOC_FAILED);
            &&& p1.capacity() == p0.capacity()
            &&& p1.arena() == a
            &&& p1.start() == p0.start()
            &&& fits ==> {
                &&& r != ALLOC_FAILED
                &&& first_fit_in(p0.pages(), a, n, r)
                &&& p1.end() == p0.end()
                &&& p1.pages() == range_set(p0.pages(), (r - a) / (PAGE_SIZE as int), n, true)
            }
            &&& (!fits && step < chunks_for(n)) ==> r == ALLOC_FAILED && *final(h) == *old(h)
            &&& (!fits && step >= chunks_for(n)) ==> {
                &&& r != ALLOC_FAILED
                &&& first_fit_in(grown_pages(p0.pages(), step), a, n, r)
                &&& p1.end() == p0.end() + step
                &&& p1.pages() == range_set(
                    grown_pages(p0.pages(), step),
                    (r - a) / (PAGE_SIZE as int),
                    n,
                    true,
                )
            }
        }),
{
    let mut p = h.pages.take().unwrap();
    let ghost p0 = p;
    let addr = p.allocate(npages);
    proof {
        p0.lemma_first_fit_in(npages as int, addr);
        p0.lemma_first_fit_in(npages as int, ALLOC_FAILED);
    }
    if addr != ALLOC_FAILED {
        h.pages = Some(p);
        return addr;
    }
    let need = npages / PALLOC_CHUNK_PAGES + if npages % PALLOC_CHUNK_PAGES != 0 {
        1usize
    } else {
        0usize
    };
    proof {
        p.lemma_capacity_bound();
    }
    let room = p.capacity_chunks() - p.end_chunk_index();
    let want = if need > GROW_STEP_CHUNKS {
        need
    } else {
        GROW_STEP_CHUNKS
    };
    let step = if want < room {
        want
    } else {
        room
    };
    if step < need {
        h.pages = Some(p);
        return ALLOC_FAILED;
    }
    p.grow(step);
    let ghost pg = p;
    let r = p.allocate(npages);
    proof {
        let old_len = p0.pages().len() as int;
        assert(pg.pages() =~= grown_pages(p0.pages(), step as int));
        assert(npages <= step * 512) by (nonlinear_arith)
            requires
                need == npages / 512 + (if npages % 512 != 0 { 1int } else { 0int }),
                step >= need,
        ;
        assert(free_run_at(pg.pages(), old_len, npages as int));
        pg.lemma_first_fit_in(npages as int, r);
        pg.lemma_first_fit_in(npages as int, ALLOC_FAILED);
    }
    h.pages = Some(p);
    r
}

/// Returns `npages` pages at `base` to the heap; before the heap is set
/// up there is nothing to return them to, and nothing changes.
pub fn mheap_free_pages(h: &mut MHeap, base: usize, npages: usize)
    requires
        heap_ok(*old(h)),
        npages >= 1,
        old(h).pages matches Some(p) ==> {
            &&& p.arena() <= base
            &&& (base - p.arena()) % (PAGE_SIZE as int) == 0
            &&& base + npages * PAGE_SIZE <= p.arena() + p.end() * PALLOC_CHUNK_BYTES
        },
    ensures
        heap_ok(*final(h)),
        old(h).pages is None ==> *final(h) == *old(h),
        old(h).pages matches Some(p0) ==> (final(h).pages matches Some(p1) && {
            &&& p1.pages() == range_set(p0.pages(), (base - p0.arena()) / (PAGE_SIZE as int), npages as int, false)
            &&& p1.capacity() == p0.capacity()
            &&& p1.arena() == p0.arena()
            &&& p1.end() == p0.end()
            &&& p1.start() == p0.start()
        }),
{
    if let Some(p) = h.pages.as_mut() {
        p.free(base, npages);
    }
}

} // verus!
