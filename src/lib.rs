//! Depth-limited minimax search with a transposition cache, over any game
//! that implements the [`Environment`] contract.

pub mod environment;
pub mod game_tree;
pub mod laws;
pub mod score;
pub mod tictactoe;
pub mod tree_search;

pub use environment::Environment;
pub use score::Score;
