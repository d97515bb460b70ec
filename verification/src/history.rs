//! Earlier designs of the arena structures, kept beside the current ones.

pub mod graph;
pub mod linked_list;
