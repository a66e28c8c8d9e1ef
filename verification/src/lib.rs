//! One-dimensional bin-packing feasibility on multisets of positive sizes.
//!
//! A multiset of sizes is stored as a counting vector: entry `s` is the
//! number of pieces of size `s`. The library decides whether one multiset
//! (the items) can be packed into another (the bins) with a fast greedy
//! procedure and with a budgeted branching search built on top of it, and
//! it evaluates such questions against a stored collection of multisets.
use vstd::prelude::*;

pub mod feasibility;
pub mod item_sets;
pub mod model;
pub mod packing_bestfit;
pub mod packing_branching;
pub mod packing_common;
pub mod round_trip;

pub use item_sets::ItemSets;

verus! {

/// The fixed-width type of sizes and of counts.
pub type C = u8;

/// A counting vector as it is stored.
pub type CVec = Vec<C>;

} // verus!
