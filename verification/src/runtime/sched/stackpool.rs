//! Size classes of pooled goroutine stacks: orders `0..=4` are stacks of
//! 2, 4, 8, 16 and 32 KiB carved from 32 KiB spans.
use vstd::prelude::*;

verus! {

/// Smallest stack size class.
pub const FIXED_STACK: usize = 2048;

/// Number of pooled stack size classes.
pub const NUM_STACK_ORDERS: usize = 5;

/// Span size the pool carves stacks from.
pub const STACK_CACHE_SIZE: usize = 32768;

/// Stack size of order `o`: `FIXED_STACK << o`.
pub open spec fn order_size(o: int) -> int
    decreases o,
{
    if o <= 0 {
        FIXED_STACK as int
    } else {
        2 * order_size(o - 1)
    }
}

/// `order_for` — the smallest order whose stacks hold `n` bytes, or
/// `None` when `n` is 0 or larger than the largest order.
pub fn order_for(n: usize) -> (r: Option<u8>)
    ensures
        (n == 0 || n > STACK_CACHE_SIZE) ==> r is None,
        (0 < n <= STACK_CACHE_SIZE) ==> (r matches Some(o) && o < NUM_STACK_ORDERS && n <= order_size(o as int)
            && (o == 0 || order_size(o - 1) < n)),
{
    if n == 0 || n > STACK_CACHE_SIZE {
        return None;
    }
    let mut order: u8 = 0;
    let mut size: usize = FIXED_STACK;
    proof {
        reveal_with_fuel(order_size, 6);
    }
    while size < n
        invariant
            0 < n <= STACK_CACHE_SIZE,
            order < NUM_STACK_ORDERS,
            size == order_size(order as int),
            order == 0 || order_size(order - 1) < n,
            order_size(4) == STACK_CACHE_SIZE,
            forall|o: int| 0 <= o < 4 ==> #[trigger] order_size(o + 1) == 2 * order_size(o),
        decreases STACK_CACHE_SIZE - size,
    {
        order += 1;
        size = size * 2;
    }
    Some(order)
}

/// `size_for` — the stack size of `order` (`0..=4`).
pub fn size_for(order: u8) -> (r: usize)
    requires
        order < NUM_STACK_ORDERS,
    ensures
        r == order_size(order as int),
{
    proof {
        reveal_with_fuel(order_size, 6);
    }
    assert(FIXED_STACK << order == order_size(order as int)) by {
        reveal_with_fuel(order_size, 6);
        if order == 0 {
            assert(2048usize << 0u8 == 2048usize) by (bit_vector);
        } else if order == 1 {
            assert(2048usize << 1u8 == 4096usize) by (bit_vector);
        } else if order == 2 {
            assert(2048usize << 2u8 == 8192usize) by (bit_vector);
        } else if order == 3 {
            assert(2048usize << 3u8 == 16384usize) by (bit_vector);
        } else {
            assert(2048usize << 4u8 == 32768usize) by (bit_vector);
        }
    }
    FIXED_STACK << order
}

} // verus!
