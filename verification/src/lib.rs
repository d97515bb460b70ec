//! Arena-backed data structures: nodes live in vectors and refer to each
//! other by position, never by pointer.
//!
//! The main structure is the name-keyed directed graph of [`graph`], whose
//! mathematical model and laws are in [`graph_model`]. Beside it stand two
//! prefix trees over bytes ([`trie`] and [`array_trie`], with the model they
//! share in [`trie_model`]), singly and doubly linked lists in a shared arena
//! ([`linked_list`], [`double_linked_list`]), and earlier designs of graph
//! and list ([`history`]).

pub mod array_trie;
pub mod double_linked_list;
pub mod graph;
pub mod graph_model;
pub mod history;
pub mod linked_list;
pub mod trie;
pub mod trie_model;
