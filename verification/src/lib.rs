//! Graph algorithms over a weighted directed graph, with the binary heap
//! and the disjoint-set forest that they lean on, and beside them a few
//! sorts, searches and puzzles. Every function states what it returns, and
//! the statement is proved.

pub mod data_structure;
pub mod general;
pub mod graph;
pub mod order;
pub mod sets;
pub mod sorting;
pub mod traversal;
pub mod vecs;
