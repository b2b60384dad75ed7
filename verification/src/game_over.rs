//! The result of a move that ends the game.

use vstd::prelude::*;
use crate::board::Board;
use crate::player::Color;

verus! {

/// Who won, or a tie when both sides complete a road with the same move.
#[derive(Debug, PartialEq, Eq, Clone, Copy, Structural)]
pub enum MatchResult {
    Winner(Color),
    Tie,
}

/// A terminal result paired with the final board snapshot.
#[derive(Debug, PartialEq, Eq)]
pub struct Outcome {
    pub result: MatchResult,
    pub board: Board,
}

} // verus!
