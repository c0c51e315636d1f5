//! Data structures and algorithms with machine-checked contracts.
//!
//! The centre of the crate is an index over one-dimensional intervals:
//! [`util::Interval`] is the value type, [`tree::IntervalTree`] the balanced,
//! augmented search tree that stores intervals and answers overlap and
//! order-statistics queries.
//!
//! Around it stand keyed search trees ([`tree::AVL`], [`tree::RedBlack`]),
//! heaps ([`heap::MinMax`], [`heap::BinomialHeap`], [`heap::FibonacciHeap`]),
//! a bounded ring buffer ([`queue::Circular`]) and, under [`algo`], searching,
//! sorting, partitioning and selection on slices.

pub mod algo;
pub mod heap;
pub mod queue;
pub mod tree;
pub mod util;
