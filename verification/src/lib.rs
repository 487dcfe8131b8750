//! Move selection for an 8x8 connection game by Monte-Carlo tree search over bitboards.

pub mod bits;
pub mod board;
pub mod disjoint_set;
pub mod engine;
pub mod growth;
pub mod listing;
pub mod moves;
pub mod rng;
pub mod rollout;
pub mod search;
pub mod tree;
pub mod win;

pub use engine::{my_plain_solution, Move};
pub use tree::{SearchNode, SearchNodeData};
