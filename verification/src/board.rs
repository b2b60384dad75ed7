//! The playing field: an N x N grid of stacks plus each side's piece reserve.
//!
//! The board owns the placement and single-hop slide primitives; legality is
//! judged by [`crate::logic`], which callers must consult first.  Both sides'
//! reserves are derived from the board size by a fixed table and only ever
//! decrease: no piece returns to a stash once placed.

use vstd::prelude::*;
use crate::piece::{Piece, PieceKind, Stack, pieces_wf, compatible, flattened, merged, lemma_merged_wf};
use crate::player::Color;
use crate::position::Position;

verus! {

/// The four slide directions.  North and East raise the row respectively the
/// column; South and West lower it.
#[derive(Clone, Copy, Debug, PartialEq, Eq, Structural)]
pub enum Direction {
    North,
    East,
    South,
    West,
}

/// The row of the square `j` steps from `row` in direction `dir`.
pub open spec fn path_row(row: int, dir: Direction, j: int) -> int {
    match dir {
        Direction::North => row + j,
        Direction::South => row - j,
        Direction::East => row,
        Direction::West => row,
    }
}

/// The column of the square `j` steps from `col` in direction `dir`.
pub open spec fn path_col(col: int, dir: Direction, j: int) -> int {
    match dir {
        Direction::East => col + j,
        Direction::West => col - j,
        Direction::North => col,
        Direction::South => col,
    }
}

/// The board sizes the piece-reserve table covers.
pub open spec fn supported_size(n: int) -> bool {
    n == 3 || n == 4 || n == 5 || n == 6 || n == 8
}

/// Flat stones allotted to each side for a board of size `n`.
pub open spec fn stash_stones(n: int) -> u16 {
    if n == 3 {
        10
    } else if n == 4 {
        15
    } else if n == 5 {
        21
    } else if n == 6 {
        30
    } else {
        50
    }
}

/// Capstones allotted to each side for a board of size `n`.
pub open spec fn stash_caps(n: int) -> u16 {
    if n == 5 || n == 6 {
        1
    } else if n == 8 {
        2
    } else {
        0
    }
}

/// How many pieces of `s` feed the flat-stone counter of colour `c`
/// (standing stones are stones from the reserve's point of view).
pub open spec fn stones_in(s: Seq<Piece>, c: Color) -> int
    decreases s.len(),
{
    if s.len() == 0 {
        0
    } else {
        stones_in(s.drop_last(), c) + if s.last().color == c && s.last().kind != PieceKind::CapStone {
            1int
        } else {
            0int
        }
    }
}

/// How many pieces of `s` feed the capstone counter of colour `c`.
pub open spec fn caps_in(s: Seq<Piece>, c: Color) -> int
    decreases s.len(),
{
    if s.len() == 0 {
        0
    } else {
        caps_in(s.drop_last(), c) + if s.last().color == c && s.last().kind == PieceKind::CapStone {
            1int
        } else {
            0int
        }
    }
}

/// Stone-counter pieces of colour `c` on the first `upto` squares of row `r`.
pub open spec fn grid_stones_row(b: Board, c: Color, r: int, upto: int) -> int
    decreases upto,
{
    if upto <= 0 {
        0
    } else {
        grid_stones_row(b, c, r, upto - 1) + stones_in(b.stack_at(r, upto - 1), c)
    }
}

/// Stone-counter pieces of colour `c` on the first `upto` full rows.
pub open spec fn grid_stones(b: Board, c: Color, upto: int) -> int
    decreases upto,
{
    if upto <= 0 {
        0
    } else {
        grid_stones(b, c, upto - 1) + grid_stones_row(b, c, upto - 1, b.spec_size())
    }
}

/// Capstones of colour `c` on the first `upto` squares of row `r`.
pub open spec fn grid_caps_row(b: Board, c: Color, r: int, upto: int) -> int
    decreases upto,
{
    if upto <= 0 {
        0
    } else {
        grid_caps_row(b, c, r, upto - 1) + caps_in(b.stack_at(r, upto - 1), c)
    }
}

/// Capstones of colour `c` on the first `upto` full rows.
pub open spec fn grid_caps(b: Board, c: Color, upto: int) -> int
    decreases upto,
{
    if upto <= 0 {
        0
    } else {
        grid_caps(b, c, upto - 1) + grid_caps_row(b, c, upto - 1, b.spec_size())
    }
}

/// The board's conservation invariant: for each side, the pieces standing on
/// the grid plus the pieces still in reserve add up to the full allotment
/// for the board's size.  Constructors establish it and every mutation
/// preserves it: no piece is created or destroyed.
pub open spec fn conserves(b: Board) -> bool {
    &&& forall|c: Color|
        #[trigger] grid_stones(b, c, b.spec_size()) + b.spec_stones(c) == stash_stones(
            b.spec_size(),
        ) as int
    &&& forall|c: Color|
        #[trigger] grid_caps(b, c, b.spec_size()) + b.spec_caps(c) == stash_caps(
            b.spec_size(),
        ) as int
}

/// Concatenation adds the piece counts.
proof fn lemma_counts_split(a: Seq<Piece>, b: Seq<Piece>, c: Color)
    ensures
        stones_in(a + b, c) == stones_in(a, c) + stones_in(b, c),
        caps_in(a + b, c) == caps_in(a, c) + caps_in(b, c),
    decreases b.len(),
{
    if b.len() == 0 {
        assert(a + b =~= a);
    } else {
        lemma_counts_split(a, b.drop_last(), c);
        assert((a + b).drop_last() =~= a + b.drop_last());
        assert((a + b).last() == b.last());
    }
}

/// Flattening a standing top keeps both counters: the piece only changes
/// shape within the stone class.
proof fn lemma_counts_flattened(s: Seq<Piece>, c: Color)
    ensures
        stones_in(flattened(s), c) == stones_in(s, c),
        caps_in(flattened(s), c) == caps_in(s, c),
{
    if s.len() > 0 && s.last().kind == PieceKind::StandingStone {
        let f = flattened(s);
        assert(f.drop_last() =~= s.drop_last());
        assert(f.last().color == s.last().color);
    }
}

/// When two boards of one size differ in at most the square `(r0, c0)`, the
/// row sums differ by exactly that square's contribution.
proof fn lemma_row_sum_change(pre: Board, post: Board, c: Color, r: int, upto: int, c0: int)
    requires
        post.spec_size() == pre.spec_size(),
        forall|cc: int|
            0 <= cc < pre.spec_size() && cc != c0 ==> #[trigger] post.stack_at(r, cc)
                == pre.stack_at(r, cc),
        0 <= upto <= pre.spec_size(),
    ensures
        grid_stones_row(post, c, r, upto) == grid_stones_row(pre, c, r, upto) + (
        if 0 <= c0 < upto {
            stones_in(post.stack_at(r, c0), c) - stones_in(pre.stack_at(r, c0), c)
        } else {
            0int
        }),
        grid_caps_row(post, c, r, upto) == grid_caps_row(pre, c, r, upto) + (
        if 0 <= c0 < upto {
            caps_in(post.stack_at(r, c0), c) - caps_in(pre.stack_at(r, c0), c)
        } else {
            0int
        }),
    decreases upto,
{
    if upto > 0 {
        lemma_row_sum_change(pre, post, c, r, upto - 1, c0);
    }
}

/// When two boards of one size differ in at most the square `(r0, c0)`, the
/// grid sums differ by exactly that square's contribution.
proof fn lemma_grid_sum_change(pre: Board, post: Board, c: Color, upto: int, r0: int, c0: int)
    requires
        post.spec_size() == pre.spec_size(),
        forall|r: int, cc: int|
            0 <= r < pre.spec_size() && 0 <= cc < pre.spec_size() && !(r == r0 && cc == c0)
                ==> #[trigger] post.stack_at(r, cc) == pre.stack_at(r, cc),
        0 <= upto <= pre.spec_size(),
        0 <= c0 < pre.spec_size(),
    ensures
        grid_stones(post, c, upto) == grid_stones(pre, c, upto) + (
        if 0 <= r0 < upto {
            stones_in(post.stack_at(r0, c0), c) - stones_in(pre.stack_at(r0, c0), c)
        } else {
            0int
        }),
        grid_caps(post, c, upto) == grid_caps(pre, c, upto) + (
        if 0 <= r0 < upto {
            caps_in(post.stack_at(r0, c0), c) - caps_in(pre.stack_at(r0, c0), c)
        } else {
            0int
        }),
    decreases upto,
{
    if upto > 0 {
        lemma_grid_sum_change(pre, post, c, upto - 1, r0, c0);
        if upto - 1 == r0 {
            lemma_row_sum_change(pre, post, c, upto - 1, pre.spec_size(), c0);
        } else {
            lemma_row_sum_change(pre, post, c, upto - 1, pre.spec_size(), -1);
        }
    }
}

/// An all-empty grid carries no pieces.
proof fn lemma_grid_sum_empty(b: Board, c: Color, upto: int)
    requires
        forall|r: int, cc: int|
            0 <= r < b.spec_size() && 0 <= cc < b.spec_size() ==> (#[trigger] b.stack_at(
                r,
                cc,
            )).len() == 0,
        0 <= upto <= b.spec_size(),
    ensures
        grid_stones(b, c, upto) == 0,
        grid_caps(b, c, upto) == 0,
    decreases upto,
{
    if upto > 0 {
        lemma_grid_sum_empty(b, c, upto - 1);
        lemma_row_sum_empty(b, c, upto - 1, b.spec_size());
    }
}

proof fn lemma_row_sum_empty(b: Board, c: Color, r: int, upto: int)
    requires
        forall|rr: int, cc: int|
            0 <= rr < b.spec_size() && 0 <= cc < b.spec_size() ==> (#[trigger] b.stack_at(
                rr,
                cc,
            )).len() == 0,
        0 <= r < b.spec_size(),
        0 <= upto <= b.spec_size(),
    ensures
        grid_stones_row(b, c, r, upto) == 0,
        grid_caps_row(b, c, r, upto) == 0,
    decreases upto,
{
    if upto > 0 {
        lemma_row_sum_empty(b, c, r, upto - 1);
    }
}

/// A side's remaining pieces to place.
#[derive(Clone, Copy, Debug, PartialEq, Eq, Structural)]
struct PiecesStash {
    stones: u16,
    caps: u16,
}

/// An N x N grid of stacks plus the two reserves.
#[derive(Debug, PartialEq, Eq)]
pub struct Board {
    board: Vec<Vec<Stack>>,
    red_pieces: PiecesStash,
    blk_pieces: PiecesStash,
}

impl Board {
    /// The side length of the grid.
    pub closed spec fn spec_size(&self) -> int {
        self.board@.len() as int
    }

    /// The pieces on the square `(row, col)`, bottom first.
    pub closed spec fn stack_at(&self, row: int, col: int) -> Seq<Piece> {
        self.board@[row]@[col]@
    }

    /// Flat stones (and standing stones) colour `c` still has in reserve.
    pub closed spec fn spec_stones(&self, c: Color) -> u16 {
        match c {
            Color::Red => self.red_pieces.stones,
            Color::Blk => self.blk_pieces.stones,
        }
    }

    /// Capstones colour `c` still has in reserve.
    pub closed spec fn spec_caps(&self, c: Color) -> u16 {
        match c {
            Color::Red => self.red_pieces.caps,
            Color::Blk => self.blk_pieces.caps,
        }
    }

    /// The reserve counter feeding pieces of kind `kind`: standing stones
    /// come from the same counter as flat stones.
    pub open spec fn spec_count(&self, c: Color, kind: PieceKind) -> u16 {
        if kind == PieceKind::CapStone {
            self.spec_caps(c)
        } else {
            self.spec_stones(c)
        }
    }

    pub open spec fn spec_valid_pos(&self, pos: Position) -> bool {
        pos.row < self.spec_size() && pos.col < self.spec_size()
    }

    /// The grid representation is square: every row has `spec_size` entries.
    pub closed spec fn rows_square(&self) -> bool {
        forall|r: int|
            0 <= r < self.spec_size() ==> (#[trigger] self.board@[r])@.len() == self.spec_size()
    }

    /// Well-formedness: a square grid of a supported size, every stack on it
    /// burying nothing but flat stones.
    pub open spec fn wf(&self) -> bool {
        &&& supported_size(self.spec_size())
        &&& self.rows_square()
        &&& forall|r: int, c: int|
            0 <= r < self.spec_size() && 0 <= c < self.spec_size() ==> pieces_wf(
                #[trigger] self.stack_at(r, c),
            )
    }

    /// Both reserves of `a` and `b` agree.
    pub open spec fn same_counts(a: Board, b: Board) -> bool {
        forall|c: Color, k: PieceKind| #[trigger] a.spec_count(c, k) == b.spec_count(c, k)
    }

    /// `a` and `b` describe the same game state: same size, the same pieces
    /// on every square, and the same reserves.
    pub open spec fn same_board(a: Board, b: Board) -> bool {
        &&& a.spec_size() == b.spec_size()
        &&& forall|r: int, c: int|
            0 <= r < a.spec_size() && 0 <= c < a.spec_size() ==> #[trigger] a.stack_at(r, c)
                == b.stack_at(r, c)
        &&& Board::same_counts(a, b)
    }

    /// A fresh board of the given size: every square empty, both reserves
    /// filled from the fixed per-size table.
    pub fn new(size: usize) -> (b: Board)
        requires
            supported_size(size as int),
        ensures
            b.wf(),
            b.spec_size() == size,
            forall|r: int, c: int|
                0 <= r < size && 0 <= c < size ==> (#[trigger] b.stack_at(r, c)).len() == 0,
            forall|c: Color| #[trigger] b.spec_stones(c) == stash_stones(size as int),
            forall|c: Color| #[trigger] b.spec_caps(c) == stash_caps(size as int),
            conserves(b),
    {
        let stones: u16 = if size == 3 {
            10
        } else if size == 4 {
            15
        } else if size == 5 {
            21
        } else if size == 6 {
            30
        } else {
            50
        };
        let caps: u16 = if size == 5 || size == 6 {
            1
        } else if size == 8 {
            2
        } else {
            0
        };
        let stash = PiecesStash { stones, caps };
        let mut grid: Vec<Vec<Stack>> = Vec::new();
        let mut r: usize = 0;
        while r < size
            invariant
                r <= size,
                grid@.len() == r,
                forall|i: int| 0 <= i < r ==> (#[trigger] grid@[i])@.len() == size,
                forall|i: int, j: int|
                    0 <= i < r && 0 <= j < size ==> (#[trigger] grid@[i]@[j])@.len() == 0,
            decreases size - r,
        {
            let mut row: Vec<Stack> = Vec::new();
            let mut c: usize = 0;
            while c < size
                invariant
                    c <= size,
                    row@.len() == c,
                    forall|j: int| 0 <= j < c ==> (#[trigger] row@[j])@.len() == 0,
                decreases size - c,
            {
                row.push(Stack::empty());
                c = c + 1;
            }
            grid.push(row);
            r = r + 1;
        }
        let out = Board { board: grid, red_pieces: stash, blk_pieces: stash };
        proof {
            assert forall|c: Color|
                #[trigger] grid_stones(out, c, out.spec_size()) + out.spec_stones(c)
                    == stash_stones(out.spec_size()) as int by {
                lemma_grid_sum_empty(out, c, out.spec_size());
            }
            assert forall|c: Color|
                #[trigger] grid_caps(out, c, out.spec_size()) + out.spec_caps(c) == stash_caps(
                    out.spec_size(),
                ) as int by {
                lemma_grid_sum_empty(out, c, out.spec_size());
            }
        }
        out
    }

    /// Whether both components of `pos` are in `[0, N)`.
    pub fn valid_pos(&self, pos: Position) -> (r: bool)
        ensures
            r == self.spec_valid_pos(pos),
    {
        let n = self.board.len();
        pos.row < n && pos.col < n
    }

    /// The side length of the grid.
    pub fn size(&self) -> (r: usize)
        ensures
            r as int == self.spec_size(),
    {
        self.board.len()
    }

    /// Read-only access to the stack on a square.
    pub fn at(&self, pos: Position) -> (r: &Stack)
        requires
            self.wf(),
            self.spec_valid_pos(pos),
        ensures
            r@ == self.stack_at(pos.row as int, pos.col as int),
    {
        &self.board[pos.row][pos.col]
    }

    /// The reserve counter for `(c, kind)`; flat and standing stones share one.
    pub fn piece_count(&self, c: Color, kind: PieceKind) -> (r: u16)
        ensures
            r == self.spec_count(c, kind),
    {
        match (c, kind) {
            (Color::Blk, PieceKind::CapStone) => self.blk_pieces.caps,
            (Color::Red, PieceKind::CapStone) => self.red_pieces.caps,
            (Color::Blk, _) => self.blk_pieces.stones,
            (Color::Red, _) => self.red_pieces.stones,
        }
    }

    /// Takes one piece of `(c, kind)` out of the reserve.
    fn dec_count(&mut self, c: Color, kind: PieceKind)
        requires
            old(self).spec_count(c, kind) > 0,
        ensures
            final(self).board == old(self).board,
            forall|c2: Color|
                #[trigger] final(self).spec_stones(c2) as int == old(self).spec_stones(c2) - (
                if c2 == c && kind != PieceKind::CapStone {
                    1int
                } else {
                    0int
                }),
            forall|c2: Color|
                #[trigger] final(self).spec_caps(c2) as int == old(self).spec_caps(c2) - (
                if c2 == c && kind == PieceKind::CapStone {
                    1int
                } else {
                    0int
                }),
    {
        match (c, kind) {
            (Color::Blk, PieceKind::CapStone) => {
                self.blk_pieces.caps = self.blk_pieces.caps - 1;
            },
            (Color::Red, PieceKind::CapStone) => {
                self.red_pieces.caps = self.red_pieces.caps - 1;
            },
            (Color::Blk, _) => {
                self.blk_pieces.stones = self.blk_pieces.stones - 1;
            },
            (Color::Red, _) => {
                self.red_pieces.stones = self.red_pieces.stones - 1;
            },
        }
    }

    /// Exclusive access to the stack on a square.
    fn mut_pos(&mut self, pos: Position) -> (r: &mut Stack)
        requires
            pos.row < old(self).board@.len(),
            pos.col < old(self).board@[pos.row as int]@.len(),
        ensures
            *r == old(self).board@[pos.row as int]@[pos.col as int],
            final(self).red_pieces == old(self).red_pieces,
            final(self).blk_pieces == old(self).blk_pieces,
            final(self).board@.len() == old(self).board@.len(),
            final(self).board@[pos.row as int]@ == old(self).board@[pos.row as int]@.update(
                pos.col as int,
                *final(r),
            ),
            forall|i: int|
                0 <= i < old(self).board@.len() && i != pos.row
                    ==> #[trigger] final(self).board@[i] == old(self).board@[i],
    {
        let row = vstd::std_specs::vec::vec_index_mut(&mut self.board, pos.row);
        vstd::std_specs::vec::vec_index_mut(row, pos.col)
    }

    /// Places `piece` on the empty square `at`, consuming one reserve piece.
    pub fn place(&mut self, piece: Piece, at: Position)
        requires
            old(self).wf(),
            old(self).spec_valid_pos(at),
            old(self).stack_at(at.row as int, at.col as int).len() == 0,
            old(self).spec_count(piece.color, piece.kind) > 0,
        ensures
            final(self).wf(),
            final(self).spec_size() == old(self).spec_size(),
            final(self).stack_at(at.row as int, at.col as int) == seq![piece],
            forall|r: int, c: int|
                0 <= r < old(self).spec_size() && 0 <= c < old(self).spec_size() && !(r == at.row
                    && c == at.col) ==> #[trigger] final(self).stack_at(r, c) == old(
                    self,
                ).stack_at(r, c),
            final(self).spec_count(piece.color, piece.kind) == old(self).spec_count(
                piece.color,
                piece.kind,
            ) - 1,
            forall|c2: Color, k2: PieceKind|
                (c2 != piece.color || ((k2 == PieceKind::CapStone) != (piece.kind
                    == PieceKind::CapStone))) ==> #[trigger] final(self).spec_count(c2, k2) == old(
                    self,
                ).spec_count(c2, k2),
            conserves(*old(self)) ==> conserves(*final(self)),
    {
        self.dec_count(piece.color, piece.kind);
        let ghost mid = *self;
        let mut fresh: Vec<Piece> = Vec::new();
        fresh.push(piece);
        proof {
            assert(fresh@ =~= seq![piece]);
            assert(self.board@[at.row as int]@.len() == old(self).spec_size());
        }
        let target = self.mut_pos(at);
        *target = Stack::from_vec(fresh);
        proof {
            assert(forall|c2: Color| #[trigger] self.spec_stones(c2) == mid.spec_stones(c2));
            assert(forall|c2: Color| #[trigger] self.spec_caps(c2) == mid.spec_caps(c2));
            if conserves(*old(self)) {
                let n = old(self).spec_size();
                assert forall|c2: Color|
                    #[trigger] grid_stones(*self, c2, n) + self.spec_stones(c2) == stash_stones(
                        n,
                    ) as int by {
                    lemma_grid_sum_change(*old(self), *self, c2, n, at.row as int, at.col as int);
                    assert(stones_in(seq![piece], c2) == stones_in(
                        seq![piece].drop_last(),
                        c2,
                    ) + if piece.color == c2 && piece.kind != PieceKind::CapStone {
                        1int
                    } else {
                        0int
                    });
                    assert(seq![piece].drop_last() =~= Seq::<Piece>::empty());
                }
                assert forall|c2: Color|
                    #[trigger] grid_caps(*self, c2, n) + self.spec_caps(c2) == stash_caps(
                        n,
                    ) as int by {
                    lemma_grid_sum_change(*old(self), *self, c2, n, at.row as int, at.col as int);
                    assert(caps_in(seq![piece], c2) == caps_in(
                        seq![piece].drop_last(),
                        c2,
                    ) + if piece.color == c2 && piece.kind == PieceKind::CapStone {
                        1int
                    } else {
                        0int
                    });
                    assert(seq![piece].drop_last() =~= Seq::<Piece>::empty());
                }
            }
            assert(self.wf()) by {
                assert forall|r: int, c: int|
                    0 <= r < self.spec_size() && 0 <= c < self.spec_size() implies pieces_wf(
                    #[trigger] self.stack_at(r, c),
                ) by {
                    if !(r == at.row && c == at.col) {
                        assert(self.stack_at(r, c) == old(self).stack_at(r, c));
                    }
                }
            }
        }
    }

    /// Slides the top `n` pieces of `src` one square in direction `to`,
    /// merging them onto the neighbouring stack under the flattening rule.
    pub fn slide(&mut self, src: Position, to: Direction, n: usize)
        requires
            old(self).wf(),
            old(self).spec_valid_pos(src),
            0 <= path_row(src.row as int, to, 1) < old(self).spec_size(),
            0 <= path_col(src.col as int, to, 1) < old(self).spec_size(),
            n <= old(self).stack_at(src.row as int, src.col as int).len(),
            compatible(
                old(self).stack_at(path_row(src.row as int, to, 1), path_col(src.col as int, to, 1)),
                old(self).stack_at(src.row as int, src.col as int).subrange(
                    old(self).stack_at(src.row as int, src.col as int).len() - n,
                    old(self).stack_at(src.row as int, src.col as int).len() as int,
                ),
            ),
        ensures
            final(self).wf(),
            final(self).spec_size() == old(self).spec_size(),
            Board::same_counts(*final(self), *old(self)),
            final(self).stack_at(src.row as int, src.col as int) == old(self).stack_at(
                src.row as int,
                src.col as int,
            ).subrange(0, old(self).stack_at(src.row as int, src.col as int).len() - n),
            final(self).stack_at(path_row(src.row as int, to, 1), path_col(src.col as int, to, 1))
                == merged(
                old(self).stack_at(path_row(src.row as int, to, 1), path_col(src.col as int, to, 1)),
                old(self).stack_at(src.row as int, src.col as int).subrange(
                    old(self).stack_at(src.row as int, src.col as int).len() - n,
                    old(self).stack_at(src.row as int, src.col as int).len() as int,
                ),
            ),
            forall|r: int, c: int|
                0 <= r < old(self).spec_size() && 0 <= c < old(self).spec_size() && !(r == src.row
                    && c == src.col) && !(r == path_row(src.row as int, to, 1) && c == path_col(
                    src.col as int,
                    to,
                    1,
                )) ==> #[trigger] final(self).stack_at(r, c) == old(self).stack_at(r, c),
            conserves(*old(self)) ==> conserves(*final(self)),
    {
        let ghost pre = *self;
        let ghost srow = src.row as int;
        let ghost scol = src.col as int;
        let ghost drow = path_row(src.row as int, to, 1);
        let ghost dcol = path_col(src.col as int, to, 1);
        let ghost source = pre.stack_at(srow, scol);
        let ghost carried_view = source.subrange(source.len() - n, source.len() as int);
        proof {
            assert(self.board@[src.row as int]@.len() == old(self).spec_size());
        }
        let carried = self.mut_pos(src).take_off(n);
        let ghost mid = *self;
        let dst = src.go(to);
        proof {
            assert(self.board@[drow]@.len() == pre.spec_size());
        }
        let target = self.mut_pos(dst);
        proof {
            // the destination square is untouched by the take-off
            assert(drow != srow || dcol != scol);
            assert(mid.stack_at(drow, dcol) == pre.stack_at(drow, dcol));
            lemma_merged_wf(pre.stack_at(drow, dcol), carried_view);
            assert(pieces_wf(carried_view)) by {
                assert forall|i: int| 0 <= i < carried_view.len() - 1 implies (
                #[trigger] carried_view[i]).kind == PieceKind::Stone by {
                    assert(carried_view[i] == source[source.len() - n + i]);
                }
            }
            assert(pieces_wf(pre.stack_at(drow, dcol)));
        }
        target.add_stack(carried);
        proof {
            assert(forall|c2: Color| #[trigger] self.spec_stones(c2) == pre.spec_stones(c2));
            assert(forall|c2: Color| #[trigger] self.spec_caps(c2) == pre.spec_caps(c2));
            assert(self.stack_at(drow, dcol) == merged(pre.stack_at(drow, dcol), carried_view));
            assert(self.stack_at(srow, scol) == source.subrange(0, source.len() - n));
            if conserves(pre) {
                let nn = pre.spec_size();
                let prefix = source.subrange(0, source.len() - n);
                let dst0 = pre.stack_at(drow, dcol);
                assert forall|c2: Color|
                    #[trigger] grid_stones(*self, c2, self.spec_size()) + self.spec_stones(c2)
                        == stash_stones(self.spec_size()) as int by {
                    lemma_grid_sum_change(pre, mid, c2, nn, srow, scol);
                    assert(source =~= prefix + carried_view);
                    lemma_counts_split(prefix, carried_view, c2);
                    lemma_grid_sum_change(mid, *self, c2, nn, drow, dcol);
                    lemma_counts_split(flattened(dst0), carried_view, c2);
                    lemma_counts_flattened(dst0, c2);
                    assert(mid.stack_at(drow, dcol) == dst0);
                    assert(mid.stack_at(srow, scol) == prefix);
                    assert(grid_stones(pre, c2, nn) + pre.spec_stones(c2) == stash_stones(
                        nn,
                    ) as int);
                }
                assert forall|c2: Color|
                    #[trigger] grid_caps(*self, c2, self.spec_size()) + self.spec_caps(c2)
                        == stash_caps(self.spec_size()) as int by {
                    lemma_grid_sum_change(pre, mid, c2, nn, srow, scol);
                    assert(source =~= prefix + carried_view);
                    lemma_counts_split(prefix, carried_view, c2);
                    lemma_grid_sum_change(mid, *self, c2, nn, drow, dcol);
                    lemma_counts_split(flattened(dst0), carried_view, c2);
                    lemma_counts_flattened(dst0, c2);
                    assert(mid.stack_at(drow, dcol) == dst0);
                    assert(mid.stack_at(srow, scol) == prefix);
                    assert(grid_caps(pre, c2, nn) + pre.spec_caps(c2) == stash_caps(nn) as int);
                }
            }
            assert(self.wf()) by {
                assert forall|r: int, c: int|
                    0 <= r < self.spec_size() && 0 <= c < self.spec_size() implies pieces_wf(
                    #[trigger] self.stack_at(r, c),
                ) by {
                    if r == srow && c == scol {
                        assert forall|i: int|
                            0 <= i < self.stack_at(r, c).len() - 1 implies (#[trigger] self.stack_at(
                            r,
                            c,
                        )[i]).kind == PieceKind::Stone by {
                            assert(self.stack_at(r, c)[i] == source[i]);
                        }
                    } else if r == drow && c == dcol {
                    } else {
                        assert(pieces_wf(pre.stack_at(r, c)));
                    }
                }
            }
        }
    }

    /// Installs a whole stack on an empty square, paying for each of its
    /// pieces out of the reserves.  Meant for setting up mid-game positions.
    pub fn set_forcefully(&mut self, pos: Position, stack: Stack)
        requires
            old(self).wf(),
            old(self).spec_valid_pos(pos),
            old(self).stack_at(pos.row as int, pos.col as int).len() == 0,
            pieces_wf(stack@),
            forall|c: Color| stones_in(stack@, c) <= #[trigger] old(self).spec_stones(c),
            forall|c: Color| caps_in(stack@, c) <= #[trigger] old(self).spec_caps(c),
        ensures
            final(self).wf(),
            final(self).spec_size() == old(self).spec_size(),
            final(self).stack_at(pos.row as int, pos.col as int) == stack@,
            forall|r: int, c: int|
                0 <= r < old(self).spec_size() && 0 <= c < old(self).spec_size() && !(r == pos.row
                    && c == pos.col) ==> #[trigger] final(self).stack_at(r, c) == old(
                    self,
                ).stack_at(r, c),
            forall|c: Color| #[trigger]
                final(self).spec_stones(c) == old(self).spec_stones(c) - stones_in(stack@, c),
            forall|c: Color| #[trigger]
                final(self).spec_caps(c) == old(self).spec_caps(c) - caps_in(stack@, c),
            conserves(*old(self)) ==> conserves(*final(self)),
    {
        let n = stack.len();
        let mut i: usize = 0;
        while i < n
            invariant
                old(self).wf(),
                i <= n,
                n == stack@.len(),
                self.board == old(self).board,
                forall|c: Color| #[trigger]
                    self.spec_stones(c) == old(self).spec_stones(c) - stones_in(
                        stack@.take(i as int),
                        c,
                    ),
                forall|c: Color| #[trigger]
                    self.spec_caps(c) == old(self).spec_caps(c) - caps_in(
                        stack@.take(i as int),
                        c,
                    ),
                forall|c: Color| stones_in(stack@, c) <= #[trigger] old(self).spec_stones(c),
                forall|c: Color| caps_in(stack@, c) <= #[trigger] old(self).spec_caps(c),
            decreases n - i,
        {
            let p = stack.piece_at(i);
            proof {
                lemma_count_prefix_step(stack@, i as int);
                lemma_count_bounds(stack@, (i + 1) as int, p.color);
            }
            self.dec_count(p.color, p.kind);
            i = i + 1;
        }
        proof {
            assert(stack@.take(n as int) =~= stack@);
            assert(self.board@[pos.row as int]@.len() == old(self).spec_size());
        }
        let ghost sview = stack@;
        let ghost mid = *self;
        let target = self.mut_pos(pos);
        *target = stack;
        proof {
            assert(forall|c2: Color| #[trigger] self.spec_stones(c2) == mid.spec_stones(c2));
            assert(forall|c2: Color| #[trigger] self.spec_caps(c2) == mid.spec_caps(c2));
            if conserves(*old(self)) {
                let n = old(self).spec_size();
                assert forall|c2: Color|
                    #[trigger] grid_stones(*self, c2, self.spec_size()) + self.spec_stones(c2)
                        == stash_stones(self.spec_size()) as int by {
                    lemma_grid_sum_change(
                        *old(self),
                        *self,
                        c2,
                        n,
                        pos.row as int,
                        pos.col as int,
                    );
                    assert(grid_stones(*old(self), c2, n) + old(self).spec_stones(c2)
                        == stash_stones(n) as int);
                    assert(self.spec_stones(c2) as int == old(self).spec_stones(c2) - stones_in(
                        sview,
                        c2,
                    ));
                }
                assert forall|c2: Color|
                    #[trigger] grid_caps(*self, c2, self.spec_size()) + self.spec_caps(c2)
                        == stash_caps(self.spec_size()) as int by {
                    lemma_grid_sum_change(
                        *old(self),
                        *self,
                        c2,
                        n,
                        pos.row as int,
                        pos.col as int,
                    );
                    assert(grid_caps(*old(self), c2, n) + old(self).spec_caps(c2) == stash_caps(
                        n,
                    ) as int);
                    assert(self.spec_caps(c2) as int == old(self).spec_caps(c2) - caps_in(
                        sview,
                        c2,
                    ));
                }
            }
            assert(self.wf()) by {
                assert forall|r: int, c: int|
                    0 <= r < self.spec_size() && 0 <= c < self.spec_size() implies pieces_wf(
                    #[trigger] self.stack_at(r, c),
                ) by {
                    if !(r == pos.row && c == pos.col) {
                        assert(self.stack_at(r, c) == old(self).stack_at(r, c));
                    } else {
                        assert(self.stack_at(r, c) == sview);
                    }
                }
            }
        }
    }
}

impl Clone for Board {
    /// A deep copy holding the same game state.
    fn clone(&self) -> (r: Board)
        ensures
            self.wf() ==> Board::same_board(r, *self) && r.wf(),
    {
        let n = self.board.len();
        let mut grid: Vec<Vec<Stack>> = Vec::new();
        let mut r: usize = 0;
        while r < n
            invariant
                r <= n,
                n == self.board@.len(),
                grid@.len() == r,
                forall|i: int| 0 <= i < r ==> (#[trigger] grid@[i])@.len() == self.board@[i]@.len(),
                forall|i: int, j: int|
                    0 <= i < r && 0 <= j < self.board@[i]@.len() ==> (#[trigger] grid@[i]@[j])@
                        == self.board@[i]@[j]@,
            decreases n - r,
        {
            let src_row = &self.board[r];
            let m = src_row.len();
            let mut row: Vec<Stack> = Vec::new();
            let mut c: usize = 0;
            while c < m
                invariant
                    c <= m,
                    m == src_row@.len(),
                    row@.len() == c,
                    forall|j: int| 0 <= j < c ==> (#[trigger] row@[j])@ == src_row@[j]@,
                decreases m - c,
            {
                row.push(src_row[c].clone());
                c = c + 1;
            }
            grid.push(row);
            r = r + 1;
        }
        let out = Board { board: grid, red_pieces: self.red_pieces, blk_pieces: self.blk_pieces };
        proof {
            if self.wf() {
                assert forall|rr: int, cc: int|
                    0 <= rr < out.spec_size() && 0 <= cc < out.spec_size()
                    implies #[trigger] out.stack_at(rr, cc) == self.stack_at(rr, cc) by {
                    assert(self.board@[rr]@.len() == self.spec_size());
                }
            }
        }
        out
    }
}

/// Walks the grid in row-major order, handing out each square's position and
/// stack.
pub struct PosBoardIterator<'a> {
    row: usize,
    col: usize,
    board: &'a Board,
}

impl<'a> PosBoardIterator<'a> {
    pub closed spec fn spec_row(&self) -> int {
        self.row as int
    }

    pub closed spec fn spec_col(&self) -> int {
        self.col as int
    }

    pub closed spec fn spec_board(&self) -> Board {
        *self.board
    }

    /// The cursor state every walk maintains: the column never reaches the
    /// edge (it wraps to the next row instead).
    pub open spec fn inv(&self) -> bool {
        &&& self.spec_board().wf()
        &&& 0 <= self.spec_col() < self.spec_board().spec_size()
        &&& 0 <= self.spec_row()
    }

    fn new(board: &'a Board) -> (it: PosBoardIterator<'a>)
        requires
            board.wf(),
        ensures
            it.inv(),
            it.spec_row() == 0,
            it.spec_col() == 0,
            it.spec_board() == *board,
    {
        PosBoardIterator { row: 0, col: 0, board }
    }

    /// The next `(position, stack)` pair in row-major order, `None` once the
    /// walk has passed the last row.
    pub fn next(&mut self) -> (r: Option<(Position, &'a Stack)>)
        requires
            old(self).inv(),
        ensures
            final(self).inv(),
            final(self).spec_board() == old(self).spec_board(),
            old(self).spec_row() >= old(self).spec_board().spec_size() ==> r is None && *final(self)
                == *old(self),
            old(self).spec_row() < old(self).spec_board().spec_size() ==> {
                &&& r matches Some((p, s)) && p.row == old(self).spec_row() && p.col == old(
                    self,
                ).spec_col() && s@ == old(self).spec_board().stack_at(
                    old(self).spec_row(),
                    old(self).spec_col(),
                )
                &&& if old(self).spec_col() + 1 == old(self).spec_board().spec_size() {
                    final(self).spec_col() == 0 && final(self).spec_row() == old(self).spec_row()
                        + 1
                } else {
                    final(self).spec_col() == old(self).spec_col() + 1 && final(self).spec_row()
                        == old(self).spec_row()
                }
            },
    {
        if self.row >= self.board.size() {
            return None;
        }
        let pos = Position::new(self.row, self.col);
        let current = self.board.at(pos);
        self.col = self.col + 1;
        if self.col == self.board.size() {
            self.col = 0;
            self.row = self.row + 1;
        }
        Some((pos, current))
    }
}

/// Walks the grid in row-major order, handing out each square's stack.
pub struct BoardIterator<'a> {
    inner: PosBoardIterator<'a>,
}

impl<'a> BoardIterator<'a> {
    pub closed spec fn spec_inner(&self) -> PosBoardIterator<'a> {
        self.inner
    }

    fn new(board: &'a Board) -> (it: BoardIterator<'a>)
        requires
            board.wf(),
        ensures
            it.spec_inner().inv(),
            it.spec_inner().spec_row() == 0,
            it.spec_inner().spec_col() == 0,
            it.spec_inner().spec_board() == *board,
    {
        BoardIterator { inner: PosBoardIterator::new(board) }
    }

    /// The next stack in row-major order, `None` once past the last row.
    pub fn next(&mut self) -> (r: Option<&'a Stack>)
        requires
            old(self).spec_inner().inv(),
        ensures
            final(self).spec_inner().inv(),
            final(self).spec_inner().spec_board() == old(self).spec_inner().spec_board(),
            old(self).spec_inner().spec_row() >= old(self).spec_inner().spec_board().spec_size()
                ==> r is None,
            old(self).spec_inner().spec_row() < old(self).spec_inner().spec_board().spec_size()
                ==> (r matches Some(s) && s@ == old(self).spec_inner().spec_board().stack_at(
                old(self).spec_inner().spec_row(),
                old(self).spec_inner().spec_col(),
            )),
    {
        match self.inner.next() {
            Some((_pos, s)) => Some(s),
            None => None,
        }
    }

    /// The same walk, with positions alongside the stacks.
    pub fn with_pos(self) -> (r: PosBoardIterator<'a>)
        ensures
            r == self.spec_inner(),
    {
        self.inner
    }
}

impl Board {
    /// A restartable row-major walk over the whole grid.
    pub fn iter(&self) -> (it: BoardIterator<'_>)
        requires
            self.wf(),
        ensures
            it.spec_inner().inv(),
            it.spec_inner().spec_row() == 0,
            it.spec_inner().spec_col() == 0,
            it.spec_inner().spec_board() == *self,
    {
        BoardIterator::new(&self)
    }
}

/// Taking one more piece into a prefix adds exactly that piece's contribution
/// to each reserve counter.
proof fn lemma_count_prefix_step(s: Seq<Piece>, i: int)
    requires
        0 <= i < s.len(),
    ensures
        forall|c: Color| #[trigger]
            stones_in(s.take(i + 1), c) == stones_in(s.take(i), c) + if s[i].color == c && s[i].kind
                != PieceKind::CapStone {
                1int
            } else {
                0int
            },
        forall|c: Color| #[trigger]
            caps_in(s.take(i + 1), c) == caps_in(s.take(i), c) + if s[i].color == c && s[i].kind
                == PieceKind::CapStone {
                1int
            } else {
                0int
            },
{
    assert(s.take(i + 1).drop_last() =~= s.take(i));
    assert(s.take(i + 1).last() == s[i]);
}

/// A prefix never counts more pieces than the whole sequence.
proof fn lemma_count_bounds(s: Seq<Piece>, i: int, c: Color)
    requires
        0 <= i <= s.len(),
    ensures
        stones_in(s.take(i), c) <= stones_in(s, c),
        caps_in(s.take(i), c) <= caps_in(s, c),
    decreases s.len() - i,
{
    if i == s.len() {
        assert(s.take(i) =~= s);
    } else {
        lemma_count_bounds(s, i + 1, c);
        lemma_count_prefix_step(s, i);
    }
}

} // verus!
