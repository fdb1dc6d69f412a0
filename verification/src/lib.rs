//! Skew heaps.
//!
//! A skew heap is a binary tree in heap order that keeps no record of its
//! balance. Every change is a meld of two trees, and every meld swaps the
//! children of the nodes it passes, which keeps a long run of operations
//! cheap although a single one may be slow. Two heaps become one at the
//! price of one meld.
//!
//! [`SkewHeap`] is the priority queue; [`Iter`] and [`IntoIter`] walk over
//! its items. Their contracts are stated over the multiset of the items a
//! heap holds, which [`model`] relates to what any max-heap may answer, and
//! over the order of the items, which [`order`] describes.
//!
//! No operation recurses: a meld goes down the tree in a loop, and a heap is
//! taken apart node by node when it is dropped, however deep it is.

mod counts;
mod heap;
mod iter;
mod markers;
pub mod model;
mod nodes;
pub mod order;
mod tree;

pub use heap::SkewHeap;
pub use iter::{IntoIter, Iter};
