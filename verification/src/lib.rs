//! A nearest-neighbor search library over integer Cartesian coordinates.
//!
//! The heart of the crate is a family of nearest-neighbor indices — an
//! exhaustive baseline, a k-d tree and a vantage-point tree — together with
//! two adapters: a dynamization forest that buffers insertions into a
//! logarithmic sequence of static sub-indices, and a soft-delete wrapper that
//! hides logically removed items from query results.

use vstd::prelude::*;

pub mod color;
pub mod forest;
pub mod hilbert;
pub mod metric;
pub mod soft;

verus! {

/// The largest magnitude a coordinate may have.
///
/// Keeping coordinates in this range lets every squared Euclidean distance be
/// computed exactly in `i64` arithmetic.
pub const COORD_LIMIT: i64 = 1048576;

/// The largest number of dimensions a point may have.
pub const DIM_LIMIT: usize = 1024;

/// The largest number of items an index may hold.
///
/// Keeping counts in this range lets the forest's size bookkeeping be done
/// exactly in `usize` arithmetic on any machine.
pub const COUNT_LIMIT: usize = 1073741824;

} // verus!
