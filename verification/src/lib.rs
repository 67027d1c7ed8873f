//! Monte Carlo tree search over simultaneous-move battles, and the allocators it runs on.

pub mod child_map;
pub mod choice;
pub mod clock;
pub mod engine;
pub mod exact;
pub mod ledger;
pub mod mcts;
pub mod mcts_threaded;
pub mod perf;
pub mod single;
pub mod tree;
pub mod walk;
