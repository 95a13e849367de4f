pub mod binary_heap;
pub mod disjoint_set;

pub use binary_heap::BinaryHeap;
pub use disjoint_set::DisjointSet;
