//! Board coordinates: `(row, col)` pairs, 0-indexed.

use vstd::prelude::*;
use crate::board::Direction;

verus! {

/// A square of the grid.  A position is valid for a board of size `n` iff
/// both components are in `[0, n)`; validity is the board's judgement
/// ([`crate::board::Board::valid_pos`]), not this type's.
#[derive(Clone, Copy, Debug, PartialEq, Eq, Hash, Structural)]
pub struct Position {
    pub row: usize,
    pub col: usize,
}

impl Position {
    pub fn new(row: usize, col: usize) -> (p: Position)
        ensures
            p == (Position { row, col }),
    {
        Position { row, col }
    }

    /// The neighbouring square one step in `dir`.  North and East raise the
    /// coordinate, South and West lower it; stepping below zero or past the
    /// machine limit is the caller's responsibility to rule out.
    pub fn go(self, dir: Direction) -> (p: Position)
        requires
            dir == Direction::North ==> self.row < usize::MAX,
            dir == Direction::East ==> self.col < usize::MAX,
            dir == Direction::South ==> self.row > 0,
            dir == Direction::West ==> self.col > 0,
        ensures
            dir == Direction::North ==> p == (Position { row: (self.row + 1) as usize, col: self.col }),
            dir == Direction::East ==> p == (Position { row: self.row, col: (self.col + 1) as usize }),
            dir == Direction::South ==> p == (Position { row: (self.row - 1) as usize, col: self.col }),
            dir == Direction::West ==> p == (Position { row: self.row, col: (self.col - 1) as usize }),
    {
        match dir {
            Direction::North => Position { row: self.row + 1, col: self.col },
            Direction::South => Position { row: self.row - 1, col: self.col },
            Direction::East => Position { row: self.row, col: self.col + 1 },
            Direction::West => Position { row: self.row, col: self.col - 1 },
        }
    }
}

} // verus!
