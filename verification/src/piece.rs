//! Pieces and stacks: the atomic game objects and their composition rules.
//!
//! A stack is an ordered pile of pieces on one square; the last element is
//! the top.  Only stones may be buried: every piece except the top one must
//! be a flat stone.  Whether one stack may land on another is governed by
//! [`compatible`]: a stone top accepts anything, a standing-stone top accepts
//! only a lone capstone (which flattens it), a capstone top accepts nothing.

use vstd::prelude::*;
use crate::player::Color;

verus! {

/// The three piece shapes.
#[derive(Clone, Copy, Debug, PartialEq, Eq, Structural)]
pub enum PieceKind {
    Stone,
    CapStone,
    StandingStone,
}

/// One physical piece: a shape owned by a colour.
#[derive(Clone, Copy, Debug, PartialEq, Eq, Structural)]
pub struct Piece {
    pub kind: PieceKind,
    pub color: Color,
}

impl Piece {
    pub fn new(kind: PieceKind, color: Color) -> (p: Piece)
        ensures
            p == (Piece { kind, color }),
    {
        Piece { kind, color }
    }
}

impl PieceKind {
    /// Other pieces may sit on top of this shape freely.
    pub open spec fn spec_stackable(self) -> bool {
        self == PieceKind::Stone
    }

    /// This shape counts toward a road.
    pub open spec fn spec_road(self) -> bool {
        self == PieceKind::Stone || self == PieceKind::CapStone
    }

    /// A landing capstone may flatten this shape (or it is already flat).
    pub open spec fn spec_flattenable(self) -> bool {
        self == PieceKind::Stone || self == PieceKind::StandingStone
    }

    pub fn stackable(self) -> (r: bool)
        ensures
            r == self.spec_stackable(),
    {
        match self {
            PieceKind::Stone => true,
            PieceKind::StandingStone => false,
            PieceKind::CapStone => false,
        }
    }

    pub fn road(self) -> (r: bool)
        ensures
            r == self.spec_road(),
    {
        match self {
            PieceKind::Stone => true,
            PieceKind::StandingStone => false,
            PieceKind::CapStone => true,
        }
    }

    pub fn flattenable(self) -> (r: bool)
        ensures
            r == self.spec_flattenable(),
    {
        match self {
            PieceKind::StandingStone => true,
            PieceKind::CapStone => false,
            PieceKind::Stone => true,
        }
    }
}

/// Every piece below the top one is a flat stone.
pub open spec fn pieces_wf(s: Seq<Piece>) -> bool {
    forall|i: int| 0 <= i < s.len() - 1 ==> (#[trigger] s[i]).kind == PieceKind::Stone
}

/// The colour a stack shows: that of its top piece, none when empty.
pub open spec fn top_color(s: Seq<Piece>) -> Option<Color> {
    if s.len() == 0 {
        None
    } else {
        Some(s.last().color)
    }
}

/// The stack's top exists and counts toward a road.
pub open spec fn top_is_road(s: Seq<Piece>) -> bool {
    s.len() > 0 && s.last().kind.spec_road()
}

/// The top is absent or other pieces may sit on it freely.
pub open spec fn top_stackable(s: Seq<Piece>) -> bool {
    s.len() == 0 || s.last().kind.spec_stackable()
}

/// The top is absent or can be flattened by a landing capstone.
pub open spec fn top_flattenable(s: Seq<Piece>) -> bool {
    s.len() == 0 || s.last().kind.spec_flattenable()
}

/// The stack is exactly one piece, and that piece is a capstone.
pub open spec fn lone_capstone(s: Seq<Piece>) -> bool {
    s.len() == 1 && s[0].kind == PieceKind::CapStone
}

/// Whether the stack `top` may land on the stack `bottom`.
pub open spec fn compatible(bottom: Seq<Piece>, top: Seq<Piece>) -> bool {
    top_stackable(bottom) || (top_flattenable(bottom) && lone_capstone(top))
}

/// The stack with a standing-stone top turned into a flat stone;
/// any other stack is unchanged.
pub open spec fn flattened(s: Seq<Piece>) -> Seq<Piece> {
    if s.len() > 0 && s.last().kind == PieceKind::StandingStone {
        s.update(s.len() - 1, Piece { kind: PieceKind::Stone, color: s.last().color })
    } else {
        s
    }
}

/// The pile that results when `top` lands on `bottom`: flattening happens
/// first, then the carried pieces sit on top in their own order.
pub open spec fn merged(bottom: Seq<Piece>, top: Seq<Piece>) -> Seq<Piece> {
    flattened(bottom) + top
}

/// An ordered pile of pieces on one board square.  The rightmost element of
/// the view is the top piece.
#[derive(Debug, PartialEq, Eq)]
pub struct Stack {
    content: Vec<Piece>,
}

impl View for Stack {
    type V = Seq<Piece>;

    closed spec fn view(&self) -> Seq<Piece> {
        self.content@
    }
}

impl Clone for Stack {
    fn clone(&self) -> (r: Stack)
        ensures
            r@ == self@,
    {
        Stack { content: self.content.clone() }
    }
}

impl Stack {
    /// The empty stack.
    pub fn empty() -> (r: Stack)
        ensures
            r@ == Seq::<Piece>::empty(),
    {
        Stack { content: Vec::new() }
    }

    /// A stack holding exactly the given pieces, bottom first.
    pub fn from_vec(v: Vec<Piece>) -> (r: Stack)
        requires
            pieces_wf(v@),
        ensures
            r@ == v@,
    {
        Stack { content: v }
    }

    /// The number of pieces in the stack.
    pub fn len(&self) -> (r: usize)
        ensures
            r == self@.len(),
    {
        self.content.len()
    }

    pub fn is_empty(&self) -> (r: bool)
        ensures
            r == (self@.len() == 0),
    {
        self.content.len() == 0
    }

    /// The stack consists of exactly one piece.
    pub fn is_atomic(&self) -> (r: bool)
        ensures
            r == (self@.len() == 1),
    {
        self.content.len() == 1
    }

    /// The `n`-th piece counted from the top (the top piece is `nth_piece(0)`).
    pub fn nth_piece(&self, n: usize) -> (r: Piece)
        requires
            n < self@.len(),
        ensures
            r == self@[self@.len() - 1 - n],
    {
        self.content[self.content.len() - 1 - n]
    }

    /// The `i`-th piece counted from the bottom.
    pub(crate) fn piece_at(&self, i: usize) -> (r: Piece)
        requires
            i < self@.len(),
        ensures
            r == self@[i as int],
    {
        self.content[i]
    }

    fn top(&self) -> (r: Option<Piece>)
        ensures
            self@.len() == 0 ==> r is None,
            self@.len() > 0 ==> r == Some(self@.last()),
    {
        if self.content.len() == 0 {
            None
        } else {
            Some(self.content[self.content.len() - 1])
        }
    }

    /// The top piece exists and counts toward a road.
    pub fn is_road(&self) -> (r: bool)
        ensures
            r == top_is_road(self@),
    {
        match self.top() {
            Some(p) => p.kind.road(),
            None => false,
        }
    }

    /// The colour of the top piece, `None` for the empty stack.
    pub fn color(&self) -> (r: Option<Color>)
        ensures
            r == top_color(self@),
    {
        match self.top() {
            Some(p) => Some(p.color),
            None => None,
        }
    }

    /// Other pieces may land on this stack freely.
    pub fn is_stackable(&self) -> (r: bool)
        ensures
            r == top_stackable(self@),
    {
        match self.top() {
            Some(p) => p.kind.stackable(),
            None => true,
        }
    }

    /// A landing capstone may flatten this stack's top (or there is no top).
    pub fn is_flattenable(&self) -> (r: bool)
        ensures
            r == top_flattenable(self@),
    {
        match self.top() {
            Some(p) => p.kind.flattenable(),
            None => true,
        }
    }

    /// The stack is a lone capstone, the only pile that flattens a standing stone.
    pub fn is_flattening(&self) -> (r: bool)
        ensures
            r == lone_capstone(self@),
    {
        if self.content.len() == 1 {
            match self.top() {
                Some(p) => p.kind == PieceKind::CapStone,
                None => false,
            }
        } else {
            false
        }
    }

    /// Whether the stack `other` may land on this stack.
    pub fn compatible_with(&self, other: &Stack) -> (r: bool)
        ensures
            r == compatible(self@, other@),
    {
        self.is_stackable() || (self.is_flattenable() && other.is_flattening())
    }

    /// Removes the top `n` pieces and returns them as a stack, order preserved.
    pub fn take_off(&mut self, n: usize) -> (r: Stack)
        requires
            n <= old(self)@.len(),
        ensures
            final(self)@ == old(self)@.subrange(0, old(self)@.len() - n),
            r@ == old(self)@.subrange(old(self)@.len() - n, old(self)@.len() as int),
    {
        let at = self.content.len() - n;
        let taken = self.content.split_off(at);
        Stack { content: taken }
    }

    /// Returns the top `n` pieces as a stack without mutating this one.
    pub fn peek_from_top(&self, n: usize) -> (r: Stack)
        requires
            n <= self@.len(),
        ensures
            r@ == self@.subrange(self@.len() - n, self@.len() as int),
    {
        let mut taken: Vec<Piece> = Vec::new();
        let start = self.content.len() - n;
        let mut j = start;
        while j < self.content.len()
            invariant
                start <= j <= self.content.len(),
                start == self@.len() - n,
                taken@ == self@.subrange(start as int, j as int),
            decreases self.content.len() - j,
        {
            taken.push(self.content[j]);
            j = j + 1;
        }
        proof {
            assert(taken@ =~= self@.subrange(self@.len() - n, self@.len() as int));
        }
        Stack { content: taken }
    }

    /// Turns a standing-stone top into a flat stone of the same colour;
    /// leaves any other stack unchanged.
    pub fn flatten(&mut self)
        ensures
            final(self)@ == flattened(old(self)@),
    {
        let n = self.content.len();
        if n > 0 {
            let t = self.content[n - 1];
            if t.kind == PieceKind::StandingStone {
                let _ = self.content.pop();
                self.content.push(Piece { kind: PieceKind::Stone, color: t.color });
                proof {
                    assert(self@ =~= flattened(old(self)@));
                }
            }
        }
    }

    /// Lands the stack `other` on this one, flattening a standing top first.
    pub fn add_stack(&mut self, other: Stack)
        requires
            compatible(old(self)@, other@),
        ensures
            final(self)@ == merged(old(self)@, other@),
    {
        self.flatten();
        let mut o = other;
        self.content.append(&mut o.content);
    }

    /// Lands a single fresh piece on this stack.
    pub fn add_piece(&mut self, p: Piece)
        requires
            compatible(old(self)@, seq![p]),
        ensures
            final(self)@ == merged(old(self)@, seq![p]),
    {
        let single = Stack { content: vec![p] };
        proof {
            assert(single@ =~= seq![p]);
        }
        self.add_stack(single);
    }
}

/// The compatibility truth table, and what landing does to a standing top:
/// a stone top accepts anything; an empty square accepts anything; a
/// standing-stone top accepts exactly a lone capstone and is flattened to a
/// stone under it; a capstone top accepts nothing.
pub proof fn lemma_compatibility_table(bottom: Seq<Piece>, top: Seq<Piece>)
    ensures
        bottom.len() == 0 ==> compatible(bottom, top),
        bottom.len() > 0 && bottom.last().kind == PieceKind::Stone ==> compatible(bottom, top),
        bottom.len() > 0 && bottom.last().kind == PieceKind::StandingStone ==> (compatible(
            bottom,
            top,
        ) <==> lone_capstone(top)),
        bottom.len() > 0 && bottom.last().kind == PieceKind::CapStone ==> !compatible(bottom, top),
        bottom.len() > 0 && bottom.last().kind == PieceKind::StandingStone && lone_capstone(top)
            ==> merged(bottom, top) == bottom.update(
            bottom.len() - 1,
            (Piece { kind: PieceKind::Stone, color: bottom.last().color }),
        ) + top,
{
}

/// Landing a compatible stack on a well-formed stack yields a well-formed
/// stack: only stones end up buried.
pub proof fn lemma_merged_wf(bottom: Seq<Piece>, top: Seq<Piece>)
    requires
        pieces_wf(bottom),
        pieces_wf(top),
        compatible(bottom, top),
    ensures
        pieces_wf(merged(bottom, top)),
{
    let m = merged(bottom, top);
    assert forall|i: int| 0 <= i < m.len() - 1 implies (#[trigger] m[i]).kind
        == PieceKind::Stone by {
        if i < bottom.len() {
            if top.len() == 0 {
                // the merged top is bottom's own top, so index i is buried in bottom
                assert(bottom[i].kind == PieceKind::Stone);
            } else if i == bottom.len() - 1 {
                // bottom's old top is now buried: it was a stone already or it
                // was a standing stone that the landing capstone flattened
                assert(top_stackable(bottom) || lone_capstone(top));
            } else {
                assert(bottom[i].kind == PieceKind::Stone);
            }
        } else {
            assert(m[i] == top[i - bottom.len()]);
        }
    }
}

} // verus!
