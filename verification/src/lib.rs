//! Two-opt local search for short closed tours over an indexed set of points.
//!
//! A tour is a visiting order of the indices `0..n`. The search starts from a
//! randomly swapped order and keeps reversing segments of it for as long as a
//! reversal makes the tour shorter, up to a fixed number of passes. How long a
//! tour is, the caller decides: the search only compares the numbers it is
//! given.

pub mod search;
pub mod shuffle;
pub mod tour;
