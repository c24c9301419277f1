//! An append-only, index-readable linked sequence with a stable merge of two
//! sorted sequences, plus a small undirected-graph adjacency structure.

pub mod graph;
pub mod list;
