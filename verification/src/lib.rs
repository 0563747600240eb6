//! Statistics over an undirected social graph given as an edge list.
//!
//! The pipeline has three stages: `parser` turns raw text lines into
//! vertex-id pairs, `graph` folds the pairs into a deduplicated symmetric
//! adjacency structure, and `stats` derives the degree distribution and
//! the average degree from that structure.

pub mod graph;
pub mod parser;
pub mod stats;
