//! Goroutine stacks: where one comes from (a pool class or its own
//! mapping), what it spans, and how it goes back; and the bounds of the
//! main thread's stack, read from the text of the process's memory map,
//! where the line marked `[stack]` starts with `BASE-TOP` in hexadecimal.
use vstd::prelude::*;
use crate::runtime::sched::stackpool::{order_for, order_size, NUM_STACK_ORDERS, STACK_CACHE_SIZE};

verus! {

/// The stack size asked for when none is given.
pub const DEFAULT_STACK_SIZE: usize = 2048;

/// The page size large stacks are mapped in.
pub const PAGE_SIZE: usize = 4096;

/// `n` rounded up to whole pages.
pub fn round_up_to_page(n: usize) -> (r: usize)
    requires
        n + PAGE_SIZE - 1 <= usize::MAX,
    ensures
        r == (n + PAGE_SIZE - 1) / (PAGE_SIZE as int) * PAGE_SIZE,
        r % PAGE_SIZE == 0,
        n <= r < n + PAGE_SIZE,
{
    let r = (n + (PAGE_SIZE - 1)) / PAGE_SIZE * PAGE_SIZE;
    assert(r % 4096 == 0 && n <= r < n + 4096) by (nonlinear_arith)
        requires
            r == (n + 4095) / 4096 * 4096,
    ;
    r
}

/// Where a new stack comes from.
#[derive(Clone, Copy, PartialEq, Eq, Debug)]
pub enum StackSource {
    /// A slot of this pool class.
    Pool(u8),
    /// A mapping of its own, of this many bytes.
    Mapped(usize),
}

/// Where a stack of `requested` bytes comes from: the smallest pool
/// class that holds it (a request of 0 counts as 1 byte), or, above the
/// largest class, its own mapping rounded up to whole pages.
pub fn stack_source(requested: usize) -> (r: StackSource)
    requires
        requested + PAGE_SIZE - 1 <= usize::MAX,
    ensures
        ({
            let bytes = if requested == 0 { 1 } else { requested as int };
            if bytes <= STACK_CACHE_SIZE {
                r matches StackSource::Pool(o) && o < NUM_STACK_ORDERS && bytes <= order_size(o as int)
                    && (o == 0 || order_size(o - 1) < bytes)
            } else {
                r == StackSource::Mapped(((bytes + PAGE_SIZE - 1) / (PAGE_SIZE as int) * PAGE_SIZE) as usize)
            }
        }),
{
    let bytes = if requested == 0 {
        1
    } else {
        requested
    };
    match order_for(bytes) {
        Some(o) => StackSource::Pool(o),
        None => StackSource::Mapped(round_up_to_page(bytes)),
    }
}

/// A goroutine stack: `size` bytes from `base`, growing down from
/// `base + size`.
pub struct Stack {
    base: usize,
    size: usize,
    owned: bool,
    pool_span_idx: u32,
}

/// What to do with a stack's memory when the stack goes.
#[derive(Clone, Copy, PartialEq, Eq, Debug)]
pub enum StackRelease {
    /// It was borrowed: nothing.
    Keep,
    /// Return the slot at `base` to pool span `span`.
    ToPool(u32, usize),
    /// Unmap `size` bytes at `base`.
    Unmap(usize, usize),
}

impl Stack {
    /// A stack carved from pool span `span` (never 0).
    pub fn pooled(base: usize, size: usize, span: u32) -> (s: Self)
        requires
            span != 0,
        ensures
            s.base() == base && s.size() == size && s.release() == StackRelease::ToPool(span, base),
    {
        Stack { base, size, owned: true, pool_span_idx: span }
    }

    /// A stack mapped on its own.
    pub fn mapped(base: usize, size: usize) -> (s: Self)
        ensures
            s.base() == base && s.size() == size && s.release() == StackRelease::Unmap(base, size),
    {
        Stack { base, size, owned: true, pool_span_idx: 0 }
    }

    /// A view of stack memory owned elsewhere (a thread's own stack):
    /// the bounds are recorded, the memory is never released.
    pub fn adopted(base: usize, size: usize) -> (s: Self)
        ensures
            s.base() == base && s.size() == size && s.release() == StackRelease::Keep,
    {
        Stack { base, size, owned: false, pool_span_idx: 0 }
    }

    /// The lowest address of the stack.
    pub closed spec fn base_spec(&self) -> usize {
        self.base
    }

    /// The stack's size in bytes.
    pub closed spec fn size_spec(&self) -> usize {
        self.size
    }

    /// What releasing the stack does.
    pub closed spec fn release_spec(&self) -> StackRelease {
        if !self.owned {
            StackRelease::Keep
        } else if self.pool_span_idx != 0 {
            StackRelease::ToPool(self.pool_span_idx, self.base)
        } else {
            StackRelease::Unmap(self.base, self.size)
        }
    }

    /// One past the highest address: where the stack starts growing down.
    pub fn top(&self) -> (t: usize)
        requires
            self.base() + self.size() <= usize::MAX,
        ensures
            t == self.base() + self.size(),
    {
        self.base + self.size
    }

    /// The lowest address of the stack.
    #[verifier::when_used_as_spec(base_spec)]
    pub fn base(&self) -> (b: usize)
        ensures
            b == self.base_spec(),
    {
        self.base
    }

    /// The stack's size in bytes.
    #[verifier::when_used_as_spec(size_spec)]
    pub fn size(&self) -> (n: usize)
        ensures
            n == self.size_spec(),
    {
        self.size
    }

    /// What to do with the memory when the stack goes.
    #[verifier::when_used_as_spec(release_spec)]
    pub fn release(&self) -> (r: StackRelease)
        ensures
            r == self.release_spec(),
    {
        if !self.owned {
            StackRelease::Keep
        } else if self.pool_span_idx != 0 {
            StackRelease::ToPool(self.pool_span_idx, self.base)
        } else {
            StackRelease::Unmap(self.base, self.size)
        }
    }
}

/// The label the kernel puts on the initial thread's stack mapping.
pub open spec fn needle() -> Seq<u8> {
    seq![0x5bu8, 0x73u8, 0x74u8, 0x61u8, 0x63u8, 0x6bu8, 0x5du8]
}

/// `[stack]` starts at byte `i` of `d`.
pub open spec fn needle_at(d: Seq<u8>, i: int) -> bool {
    0 <= i && i + 7 <= d.len() && d.subrange(i, i + 7) == needle()
}

/// The first place at or after `i` where `[stack]` starts, or -1.
pub open spec fn find_needle(d: Seq<u8>, i: int) -> int
    decreases d.len() - i,
{
    if i < 0 || i + 7 > d.len() {
        -1
    } else if needle_at(d, i) {
        i
    } else {
        find_needle(d, i + 1)
    }
}

/// The start of the line that holds byte `i`.
pub open spec fn line_start(d: Seq<u8>, i: int) -> int
    decreases i,
{
    if i <= 0 {
        0
    } else if d[i - 1] == 0x0au8 {
        i
    } else {
        line_start(d, i - 1)
    }
}

/// The value of a hexadecimal digit, either case, or `None`.
pub open spec fn hex_digit(c: u8) -> Option<int> {
    if 0x30 <= c <= 0x39 {
        Some(c - 0x30)
    } else if 0x61 <= c <= 0x66 {
        Some(c - 0x61 + 10)
    } else if 0x41 <= c <= 0x46 {
        Some(c - 0x41 + 10)
    } else {
        None
    }
}

/// Reading hex digits from `p` on, with `acc` read so far: the value,
/// kept to the width of a `usize`, and where the digits end.
pub open spec fn hex_from(d: Seq<u8>, p: int, acc: int) -> (int, int)
    decreases d.len() - p,
{
    if 0 <= p < d.len() && hex_digit(d[p]) is Some {
        hex_from(d, p + 1, (acc * 16 + hex_digit(d[p])->0) % (usize::MAX + 1))
    } else {
        (acc, p)
    }
}

/// The stack's base and size as the `[stack]` line gives them, or
/// `None` when there is no such line, its head is not `BASE-TOP`, or
/// the range is empty or starts at 0.
pub open spec fn stack_bounds(d: Seq<u8>) -> Option<(int, int)> {
    let i = find_needle(d, 0);
    if i < 0 {
        None
    } else {
        let base = hex_from(d, line_start(d, i), 0);
        let p = base.1;
        if p >= d.len() || d[p] != 0x2du8 {
            None
        } else {
            let top = hex_from(d, p + 1, 0);
            if base.0 == 0 || top.0 <= base.0 {
                None
            } else {
                Some((base.0, top.0 - base.0))
            }
        }
    }
}

/// Reads hex digits at `*p`, moving `*p` past them.
fn parse_hex(data: &[u8], p: &mut usize) -> (v: usize)
    requires
        *old(p) <= data.len(),
    ensures
        (v as int, *final(p) as int) == hex_from(data@, *old(p) as int, 0),
{
    let mut v: usize = 0;
    while *p < data.len()
        invariant
            *p <= data.len(),
            hex_from(data@, *old(p) as int, 0) == hex_from(data@, *p as int, v as int),
        ensures
            hex_from(data@, *old(p) as int, 0) == (v as int, *p as int),
        decreases data.len() - *p,
    {
        let c = data[*p];
        let nibble: usize = if 0x30u8 <= c && c <= 0x39u8 {
            (c - 0x30u8) as usize
        } else if 0x61u8 <= c && c <= 0x66u8 {
            (c - 0x61u8 + 10) as usize
        } else if 0x41u8 <= c && c <= 0x46u8 {
            (c - 0x41u8 + 10) as usize
        } else {
            break;
        };
        proof {
            assert(hex_digit(c) == Some(nibble as int));
        }
        let wide: u128 = (v as u128 * 16 + nibble as u128) % (usize::MAX as u128 + 1);
        v = wide as usize;
        *p = *p + 1;
    }
    v
}

/// `[stack]` starts at `i`, checked byte by byte.
fn needle_here(data: &[u8], i: usize) -> (r: bool)
    requires
        i + 7 <= data.len(),
    ensures
        r == needle_at(data@, i as int),
{
    let r = data[i] == 0x5bu8 && data[i + 1] == 0x73u8 && data[i + 2] == 0x74u8 && data[i + 3] == 0x61u8
        && data[i + 4] == 0x63u8 && data[i + 5] == 0x6bu8 && data[i + 6] == 0x5du8;
    assert(r == (data@.subrange(i as int, i + 7) =~= needle()));
    r
}

/// Finds the `[stack]` line in the text of the memory map and returns
/// the stack's base address and size.
pub fn parse_main_stack_bounds(data: &[u8]) -> (r: Option<(usize, usize)>)
    ensures
        match stack_bounds(data@) {
            Some((b, n)) => r == Some((b as usize, n as usize)),
            None => r is None,
        },
{
    let mut i: usize = 0;
    while 7 <= data.len() - i
        invariant
            i <= data.len(),
            find_needle(data@, 0) == find_needle(data@, i as int),
        decreases data.len() - i,
    {
        if needle_here(data, i) {
            let mut s = i;
            while s > 0 && data[s - 1] != 0x0au8
                invariant
                    s <= i < data.len(),
                    line_start(data@, s as int) == line_start(data@, i as int),
                decreases s,
            {
                s = s - 1;
            }
            let mut p = s;
            let base = parse_hex(data, &mut p);
            if p >= data.len() || data[p] != 0x2du8 {
                return None;
            }
            p = p + 1;
            let top = parse_hex(data, &mut p);
            if base == 0 || top <= base {
                return None;
            }
            return Some((base, top - base));
        }
        i = i + 1;
    }
    None
}

} // verus!
