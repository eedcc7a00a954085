//! Classic in-memory data structures and algorithms, each with a contract that says what it
//! returns or changes, and a machine-checked proof that it keeps that contract.
//!
//! - [`priority_queue`]: a max-priority queue kept as a binary heap.
//! - [`ordered_map`]: an ordered map kept as a height-balanced binary search tree.
//! - [`btree_map`]: an ordered map kept as a B-tree.
//! - [`hash_map`]: a hash map with separate chaining that grows when it gets too full.
//! - [`graph`]: an undirected weighted graph with traversals, shortest distances and minimum
//!   spanning trees.
//! - [`substring`]: three ways to find all occurrences of a pattern in a text.
//!
//! [`order`] says what the containers ask of the order of their keys, and [`listing`] what an
//! ordered map hands out when it is walked.

pub mod btree_map;
pub mod graph;
pub mod hash_map;
pub mod listing;
pub mod order;
pub mod ordered_map;
pub mod priority_queue;
pub mod substring;
