//! Action-graph mining over normalized scenarios.

pub mod digraph;
pub mod seqs;
pub mod reach;
pub mod dfg;
pub mod cuts;
pub mod process_tree;
pub mod inductive;
pub mod action_graph;
pub mod export;
pub mod miner;
pub mod prefixspan;
pub mod report;
