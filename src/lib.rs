//! Classic data structures and algorithms with machine-checked contracts.
//!
//! The centrepiece is [`red_black_tree::RBTreeMap`], a left-leaning
//! red-black tree keyed by `u32`.
pub mod red_black_tree;
pub mod sort;
pub mod binary_search_tree;
pub mod linked_list;
pub mod chain_hash_map;
pub mod linear_hash_map;
pub mod union_find;
pub mod graph;
pub mod min_queue;
pub mod ungraph;
pub mod number_theory;
pub mod permutation;
