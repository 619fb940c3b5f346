//! Depth-first search over state spaces that are given by their
//! transitions alone: trees, graphs and puzzles whose states are made as
//! the search comes to them.
//!
//! A space implements [`search::SearchSpace`], and every space can then be
//! searched with [`search::DepthFirst`]. The traversal keeps an explicit
//! stack, so that its depth is bounded by memory and not by the call
//! stack, and meets no state twice.

pub mod frontier;
pub mod laws;
pub mod route;
pub mod search;
pub mod sweep;
