//! Pattern matching over hierarchical, separator-delimited identifiers.
//!
//! A pattern accepts a candidate when their segments line up, where a segment
//! `**` in the pattern stands for any number of whole candidate segments and a
//! `*` inside a pattern segment stands for any run of characters within that
//! one segment.
use vstd::prelude::*;

pub mod glob;
pub mod theorems;

verus! {

} // verus!
