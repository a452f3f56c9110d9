//! A layered min-priority queue for `u32` keys.
//!
//! Keys live in a stack of unsorted buckets separated by pivots. The bucket
//! on top always holds the smallest keys; it is split around a sampled pivot
//! whenever it grows too large, so that finding the minimum only ever scans
//! a short bucket.

use vstd::prelude::*;

pub mod heap;
pub mod lanes;
pub mod layers;
pub mod median;
pub mod model;
pub mod quickheap;
pub mod split;
pub mod workloads;
mod outside;

pub use heap::Heap;
pub use quickheap::QuickHeap;

verus! {

/// The key type stored in the heap.
pub type T = u32;

/// Whether keys are 32 bits wide.
pub const T_U32: bool = true;

/// Number of keys handled together as one lane block.
pub const L: usize = 8;

} // verus!
