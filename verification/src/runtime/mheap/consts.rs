//! Page-allocator geometry (amd64): 8 KiB pages, 512-page chunks, a
//! five-level radix tree of summaries spanning a 48-bit address space.
use vstd::prelude::*;

verus! {

/// `log2(PAGE_SIZE)`.
pub const PAGE_SHIFT: u32 = 13;

/// Bytes per allocator page (8 KiB).
pub const PAGE_SIZE: usize = 8192;

/// `log2` of pages per chunk.
pub const LOG_PALLOC_CHUNK_PAGES: u32 = 9;

/// Pages per chunk (512).
pub const PALLOC_CHUNK_PAGES: usize = 512;

/// `log2` of bytes per chunk (22, i.e. 4 MiB).
pub const LOG_PALLOC_CHUNK_BYTES: u32 = 22;

/// Bytes per chunk (4 MiB).
pub const PALLOC_CHUNK_BYTES: usize = 4194304;

/// Bits in a heap address.
pub const HEAP_ADDR_BITS: u32 = 48;

/// Levels in the radix tree.
pub const SUMMARY_LEVELS: usize = 5;

/// Fan-out exponent of the non-root levels.
pub const SUMMARY_LEVEL_BITS: u32 = 3;

/// Fan-out exponent of the root level: 48 - 22 - 4*3.
pub const SUMMARY_L0_BITS: u32 = 14;

/// Bits of each packed summary field.
pub const LOG_MAX_PACKED_VALUE: u32 = 21;

/// Largest value a packed summary field can express (2^21 pages).
pub const MAX_PACKED_VALUE: usize = 2097152;

/// `levelBits[l]`: fan-out exponent of level `l`.
pub open spec fn spec_level_bits(l: int) -> u32 {
    if l == 0 { SUMMARY_L0_BITS } else { SUMMARY_LEVEL_BITS }
}

/// `levelLogPages[l]`: `log2` of the pages one summary at level `l` covers.
pub open spec fn spec_level_log_pages(l: int) -> u32 {
    (LOG_PALLOC_CHUNK_PAGES + (4 - l) * SUMMARY_LEVEL_BITS) as u32
}

/// `levelShift[l]`: address shift that maps an arena offset to a level-`l` index.
pub open spec fn spec_level_shift(l: int) -> u32 {
    (spec_level_log_pages(l) + PAGE_SHIFT) as u32
}

/// `levelBits[l]` for a valid level.
pub fn level_bits(l: usize) -> (r: u32)
    requires
        l < SUMMARY_LEVELS,
    ensures
        r == spec_level_bits(l as int),
{
    if l == 0 { SUMMARY_L0_BITS } else { SUMMARY_LEVEL_BITS }
}

/// `levelLogPages[l]` for a valid level.
pub fn level_log_pages(l: usize) -> (r: u32)
    requires
        l < SUMMARY_LEVELS,
    ensures
        r == spec_level_log_pages(l as int),
{
    LOG_PALLOC_CHUNK_PAGES + (4 - l as u32) * SUMMARY_LEVEL_BITS
}

/// `levelShift[l]` for a valid level.
pub fn level_shift(l: usize) -> (r: u32)
    requires
        l < SUMMARY_LEVELS,
    ensures
        r == spec_level_shift(l as int),
{
    level_log_pages(l) + PAGE_SHIFT
}

} // verus!
