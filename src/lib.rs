//! Array-backed binary heaps ordered by a comparator, and the shape of a B-tree.

pub mod b_tree;
pub mod heap;
