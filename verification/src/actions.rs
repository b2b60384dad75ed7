//! A player's intended change to the board: place a fresh piece, or slide
//! (part of) a stack.

use vstd::prelude::*;
use crate::board::Direction;
use crate::piece::PieceKind;
use crate::player::Color;
use crate::position::Position;

verus! {

/// An action paired with the acting side.
#[derive(Debug, PartialEq, Eq, Clone)]
pub struct Move {
    pub action: Action,
    pub player: Color,
}

/// What a move does.
#[derive(Debug, PartialEq, Eq, Clone)]
pub enum Action {
    /// Start position, slide direction, and the carry list: how many pieces
    /// are carried onto each successive square (the first entry is lifted
    /// off the source; each later entry carries that many onward, so the
    /// list is strictly decreasing).  `None` means "carry the whole stack
    /// one square", i.e. a single-entry list holding the stack's height.
    Slide(Position, Direction, Option<Vec<usize>>),
    /// Target position and the kind of fresh piece to put there.
    Place(Position, PieceKind),
}

} // verus!
