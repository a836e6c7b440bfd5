//! A verified Reversi (Othello) engine.
//!
//! The crate keeps a legal board state and chooses moves for an automated
//! opponent by depth-limited game-tree search under a wall-clock budget.

use vstd::prelude::*;

pub mod codec;
pub mod game;
pub mod heuristic;
pub mod player;
pub mod score;
pub mod search;

verus! {

} // verus!
