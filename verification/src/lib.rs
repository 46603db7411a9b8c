//! Topic-graph indexer: collects an undirected topic graph and per-topic
//! assignment counts from course data, and computes the all-pairs
//! shortest-path distance table over the topics that appear in edges.

pub mod seqs;
pub mod dist;
pub mod table;
pub mod parse;
pub mod collect;
