//! Graph construction and breadth-first traversal for social-network edge lists.

pub mod components;
pub mod edge_list;
pub mod features;
pub mod graph;
pub mod labels;
pub mod paths;
pub mod sorting;
pub mod summary;
pub mod text;
pub mod traversal;
