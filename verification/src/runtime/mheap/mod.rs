pub mod consts;
pub mod palloc_sum;
pub mod palloc_bits;
pub mod page_alloc;
