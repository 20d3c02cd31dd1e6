//! Go's `slices` package over Rust slices and vectors. `int` results
//! are `i64`; a Go slice argument is `&[T]` when only read and `Vec<T>`
//! when a new slice is handed back.
#![allow(non_snake_case)]

pub mod slices;
pub mod sort;
pub mod iter;


use vstd::prelude::*;

verus! {

/// An index or length as a Go `int`.
pub fn to_int(i: usize) -> (r: i64)
    requires
        i <= i64::MAX,
    ensures
        r == i,
{
    i as i64
}

} // verus!
