//! JSON Pointer (RFC 6901), JSON Patch (RFC 6902) and JSON Merge Patch
//! (RFC 7386) utilities over an in-memory JSON tree.
#![allow(non_snake_case)]

use vstd::prelude::*;

pub mod json;
pub mod strings;
pub mod pointer;
pub mod sort;
pub mod compare;
pub mod patch;
pub mod diff;
pub mod merge;
pub mod alike;
pub mod round_trip;
pub mod merge_round_trip;
pub mod reorder;

verus! {

/// The integer that stands for `true` in the utility interface.
pub fn c_true() -> (r: i32)
    ensures
        r == 1,
{
    1
}

/// The integer that stands for `false` in the utility interface.
pub fn c_false() -> (r: i32)
    ensures
        r == 0,
{
    0
}

} // verus!
