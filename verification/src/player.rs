//! The two sides of a game.
//!
//! Interactive player machinery (human input, presentation) is an external
//! collaborator of the engine; only the colour of a side belongs to the core.

use vstd::prelude::*;

verus! {

/// The colour of a side (and of every piece it owns).
#[derive(Clone, Copy, Debug, PartialEq, Eq, Structural)]
pub enum Color {
    Red,
    Blk,
}

impl Color {
    /// The colour of the other side.
    pub open spec fn spec_opposite(self) -> Color {
        match self {
            Color::Red => Color::Blk,
            Color::Blk => Color::Red,
        }
    }

    /// The colour of the other side.
    pub fn opposite(self) -> (r: Color)
        ensures
            r == self.spec_opposite(),
    {
        match self {
            Color::Red => Color::Blk,
            Color::Blk => Color::Red,
        }
    }
}

} // verus!
