//! The state-machine heart of the game: legality checking, move application,
//! and road (win) detection.
//!
//! [`Logic::applicable`] is a pure predicate deciding whether a move is legal
//! against the current board; it never mutates state.  [`Logic::apply`]
//! mutates the board for a move that was already deemed legal and reports a
//! terminal [`Outcome`] when one side (or both) completes a road.

use vstd::prelude::*;
use crate::actions::{Action, Move};
use crate::board::{
    conserves, path_col, path_row, stash_caps, stash_stones, supported_size, Board, Direction,
};
use crate::game_over::{MatchResult, Outcome};
use crate::piece::{
    compatible, merged, top_color, top_is_road, Piece, PieceKind,
};
use crate::player::Color;
use crate::position::Position;

verus! {

// ---------------------------------------------------------------------------
// Legality
// ---------------------------------------------------------------------------

/// A placement is legal iff the target square is valid and empty and the
/// mover still has a piece of that kind in reserve.
pub open spec fn place_ok(b: Board, player: Color, pos: Position, kind: PieceKind) -> bool {
    &&& b.spec_valid_pos(pos)
    &&& b.spec_count(player, kind) > 0
    &&& b.stack_at(pos.row as int, pos.col as int).len() == 0
}

/// The carry list is nonempty, has no zero entry, and strictly decreases
/// (the first entry, the number of pieces lifted, is the largest).
pub open spec fn carries_shape_ok(v: Seq<usize>) -> bool {
    &&& v.len() > 0
    &&& forall|i: int| 0 <= i < v.len() ==> (#[trigger] v[i]) > 0
    &&& forall|i: int| 0 < i < v.len() ==> (#[trigger] v[i]) < v[i - 1]
}

/// The whole slide path stays on the board: the square `k` steps from `pos`
/// in `dir` (the last square visited) is still in `[0, N)` on both axes.
pub open spec fn slide_in_bounds(b: Board, pos: Position, dir: Direction, k: int) -> bool {
    &&& 0 <= path_row(pos.row as int, dir, k) < b.spec_size()
    &&& 0 <= path_col(pos.col as int, dir, k) < b.spec_size()
}

/// The pieces that arrive at hop `j` (1-indexed): the top `v[j-1]` pieces of
/// the original source stack `s`, order preserved.
pub open spec fn carried_at(s: Seq<Piece>, v: Seq<usize>, j: int) -> Seq<Piece> {
    s.subrange(s.len() - v[j - 1], s.len() as int)
}

/// The pieces that stay at hop `j` (1-indexed) once the rest has moved on:
/// everything carried there except what the next hop carries away.
pub open spec fn dropped_at(s: Seq<Piece>, v: Seq<usize>, j: int) -> Seq<Piece> {
    s.subrange(
        s.len() - v[j - 1],
        s.len() - if j < v.len() {
            v[j] as int
        } else {
            0
        },
    )
}

/// The sub-stacks dropped at hops `j, j+1, ..., k`, concatenated in hop
/// order.
pub open spec fn dropped_from(s: Seq<Piece>, v: Seq<usize>, j: int) -> Seq<Piece>
    decreases v.len() - j + 1,
{
    if j < 1 || j > v.len() {
        Seq::empty()
    } else {
        dropped_at(s, v, j) + dropped_from(s, v, j + 1)
    }
}

/// In a well-shaped carry list every entry is at most the first.
proof fn lemma_carries_bounded(v: Seq<usize>, i: int)
    requires
        carries_shape_ok(v),
        0 <= i < v.len(),
    ensures
        v[i] <= v[0],
    decreases i,
{
    if i > 0 {
        lemma_carries_bounded(v, i - 1);
    }
}

/// A slide distributes exactly the lifted pieces: the sub-stacks dropped at
/// the successive hops concatenate, in hop order, to the top `v[0]` pieces
/// of the source stack, preserving their order.
pub proof fn lemma_drops_partition_lift(s: Seq<Piece>, v: Seq<usize>)
    requires
        carries_shape_ok(v),
        v[0] <= s.len(),
    ensures
        dropped_from(s, v, 1) == carried_at(s, v, 1),
{
    lemma_drops_partition_tail(s, v, 1);
}

/// From hop `j` on, the remaining drops concatenate to the pieces carried
/// into hop `j`.
proof fn lemma_drops_partition_tail(s: Seq<Piece>, v: Seq<usize>, j: int)
    requires
        carries_shape_ok(v),
        v[0] <= s.len(),
        1 <= j <= v.len(),
    ensures
        dropped_from(s, v, j) == carried_at(s, v, j),
    decreases v.len() - j,
{
    if j == v.len() {
        assert(dropped_from(s, v, j + 1) =~= Seq::<Piece>::empty());
        assert(dropped_at(s, v, j) + Seq::<Piece>::empty() =~= dropped_at(s, v, j));
        assert(dropped_at(s, v, j) =~= carried_at(s, v, j));
    } else {
        lemma_drops_partition_tail(s, v, j + 1);
        lemma_carries_bounded(v, j - 1);
        lemma_carries_bounded(v, j);
        assert(v[j] < v[j - 1]);
        assert(dropped_at(s, v, j) + carried_at(s, v, j + 1) =~= carried_at(s, v, j));
    }
}

/// At every hop, the sub-stack carried there (peeked off the original stack)
/// may land on the stack already occupying that square.
pub open spec fn slide_compat(b: Board, pos: Position, dir: Direction, v: Seq<usize>) -> bool {
    let s = b.stack_at(pos.row as int, pos.col as int);
    forall|j: int|
        1 <= j <= v.len() ==> compatible(
            #[trigger] b.stack_at(
                path_row(pos.row as int, dir, j),
                path_col(pos.col as int, dir, j),
            ),
            carried_at(s, v, j),
        )
}

/// The geometric part of slide legality: carry shape, source height, bounds,
/// and per-hop compatibility (everything but ownership of the source).
pub open spec fn slide_fits(b: Board, pos: Position, dir: Direction, v: Seq<usize>) -> bool {
    let s = b.stack_at(pos.row as int, pos.col as int);
    &&& b.spec_valid_pos(pos)
    &&& carries_shape_ok(v)
    &&& v[0] <= s.len()
    &&& slide_in_bounds(b, pos, dir, v.len() as int)
    &&& slide_compat(b, pos, dir, v)
}

/// A slide is legal iff it fits and the mover owns the source stack's top
/// (an empty source fails the ownership test).
pub open spec fn slide_ok(
    b: Board,
    player: Color,
    pos: Position,
    dir: Direction,
    v: Seq<usize>,
) -> bool {
    &&& top_color(b.stack_at(pos.row as int, pos.col as int)) == Some(player)
    &&& slide_fits(b, pos, dir, v)
}

/// A request that omits the carry list means "carry the whole stack one
/// square": it is normalised to a single-entry list holding the stack height.
pub open spec fn norm_carries(b: Board, pos: Position, ov: Option<Vec<usize>>) -> Seq<usize> {
    match ov {
        Some(v) => v@,
        None => seq![b.stack_at(pos.row as int, pos.col as int).len() as usize],
    }
}

/// Full legality of a move against a board: the only moves [`Logic::apply`]
/// accepts, and exactly the moves [`Logic::applicable`] approves.
pub open spec fn applicable_spec(b: Board, mv: Move) -> bool {
    match mv.action {
        Action::Place(pos, kind) => place_ok(b, mv.player, pos, kind),
        Action::Slide(pos, dir, ov) => b.spec_valid_pos(pos) && slide_ok(
            b,
            mv.player,
            pos,
            dir,
            norm_carries(b, pos, ov),
        ),
    }
}

// ---------------------------------------------------------------------------
// Move application, described square by square
// ---------------------------------------------------------------------------

/// Whether `(r, c)` lies on the slide path `pos .. pos + k*dir` (inclusive).
pub open spec fn on_path(pos: Position, dir: Direction, k: int, r: int, c: int) -> bool {
    match dir {
        Direction::North => c == pos.col && pos.row <= r <= pos.row + k,
        Direction::South => c == pos.col && pos.row - k <= r <= pos.row,
        Direction::East => r == pos.row && pos.col <= c <= pos.col + k,
        Direction::West => r == pos.row && pos.col - k <= c <= pos.col,
    }
}

/// What placing does to the board: the target square holds exactly the one
/// fresh piece, every other square is untouched, and the mover's reserve for
/// that kind went down by one.
pub open spec fn place_applied(
    pre: Board,
    post: Board,
    player: Color,
    pos: Position,
    kind: PieceKind,
) -> bool {
    &&& post.spec_size() == pre.spec_size()
    &&& post.stack_at(pos.row as int, pos.col as int) == seq![Piece { kind, color: player }]
    &&& forall|r: int, c: int|
        0 <= r < pre.spec_size() && 0 <= c < pre.spec_size() && !(r == pos.row && c == pos.col)
            ==> #[trigger] post.stack_at(r, c) == pre.stack_at(r, c)
    &&& post.spec_count(player, kind) == pre.spec_count(player, kind) - 1
    &&& forall|c2: Color, k2: PieceKind|
        (c2 != player || ((k2 == PieceKind::CapStone) != (kind == PieceKind::CapStone)))
            ==> #[trigger] post.spec_count(c2, k2) == pre.spec_count(c2, k2)
}

/// What sliding with carry list `v` does to the board: the source square
/// loses its top `v[0]` pieces; the square at hop `j` keeps, on top of its
/// own (possibly flattened) pile, exactly the pieces `dropped_at(s, v, j)`
/// in their original order; every square off the path is untouched; the
/// reserves do not change.
pub open spec fn slide_applied(
    pre: Board,
    post: Board,
    pos: Position,
    dir: Direction,
    v: Seq<usize>,
) -> bool {
    let s = pre.stack_at(pos.row as int, pos.col as int);
    let k = v.len() as int;
    &&& post.spec_size() == pre.spec_size()
    &&& Board::same_counts(post, pre)
    &&& post.stack_at(pos.row as int, pos.col as int) == s.subrange(0, s.len() - v[0])
    &&& forall|j: int|
        1 <= j <= k ==> #[trigger] post.stack_at(
            path_row(pos.row as int, dir, j),
            path_col(pos.col as int, dir, j),
        ) == merged(
            pre.stack_at(path_row(pos.row as int, dir, j), path_col(pos.col as int, dir, j)),
            dropped_at(s, v, j),
        )
    &&& forall|r: int, c: int|
        0 <= r < pre.spec_size() && 0 <= c < pre.spec_size() && !on_path(pos, dir, k, r, c)
            ==> #[trigger] post.stack_at(r, c) == pre.stack_at(r, c)
}

/// The single-hop special case: a slide that carries the whole source stack
/// (the one-entry carry list holding the full height) leaves the source
/// square empty and lands every piece, in order, on the next square.
pub proof fn lemma_whole_stack_slide(
    pre: Board,
    post: Board,
    pos: Position,
    dir: Direction,
    v: Seq<usize>,
)
    requires
        slide_applied(pre, post, pos, dir, v),
        v.len() == 1,
        v[0] == pre.stack_at(pos.row as int, pos.col as int).len(),
    ensures
        post.stack_at(pos.row as int, pos.col as int).len() == 0,
        post.stack_at(path_row(pos.row as int, dir, 1), path_col(pos.col as int, dir, 1))
            == merged(
            pre.stack_at(path_row(pos.row as int, dir, 1), path_col(pos.col as int, dir, 1)),
            pre.stack_at(pos.row as int, pos.col as int),
        ),
{
    let s = pre.stack_at(pos.row as int, pos.col as int);
    assert(dropped_at(s, v, 1) =~= s);
}

/// What applying `mv` does to the board, by the shape of its action.
pub open spec fn move_applied(pre: Board, post: Board, mv: Move) -> bool {
    match mv.action {
        Action::Place(pos, kind) => place_applied(pre, post, mv.player, pos, kind),
        Action::Slide(pos, dir, ov) => slide_applied(pre, post, pos, dir, norm_carries(pre, pos, ov)),
    }
}

// ---------------------------------------------------------------------------
// Roads
// ---------------------------------------------------------------------------

/// The square exists, its top piece counts toward a road, and that piece
/// belongs to colour `c`.
pub open spec fn road_square(b: Board, c: Color, p: Position) -> bool {
    &&& b.spec_valid_pos(p)
    &&& top_is_road(b.stack_at(p.row as int, p.col as int))
    &&& top_color(b.stack_at(p.row as int, p.col as int)) == Some(c)
}

/// Orthogonal 4-neighbourhood.
pub open spec fn adjacent(p: Position, q: Position) -> bool {
    ||| p.row == q.row && (p.col + 1 == q.col || q.col + 1 == p.col)
    ||| p.col == q.col && (p.row + 1 == q.row || q.row + 1 == p.row)
}

/// The edge a road in direction `dir` grows from.
pub open spec fn start_edge(n: int, dir: Direction, p: Position) -> bool {
    match dir {
        Direction::North => p.row == 0,
        Direction::South => p.row == n - 1,
        Direction::East => p.col == 0,
        Direction::West => p.col == n - 1,
    }
}

/// The opposite edge, which the road must touch to win.
pub open spec fn goal_edge(n: int, dir: Direction, p: Position) -> bool {
    match dir {
        Direction::North => p.row == n - 1,
        Direction::South => p.row == 0,
        Direction::East => p.col == n - 1,
        Direction::West => p.col == 0,
    }
}

/// A chain of road squares of colour `c`: it starts on the start edge and
/// each square is orthogonally adjacent to the next.
pub open spec fn road_chain(b: Board, c: Color, dir: Direction, path: Seq<Position>) -> bool {
    &&& path.len() > 0
    &&& start_edge(b.spec_size(), dir, path[0])
    &&& forall|i: int| 0 <= i < path.len() ==> road_square(b, c, #[trigger] path[i])
    &&& forall|i: int| 0 <= i < path.len() - 1 ==> adjacent(#[trigger] path[i], path[i + 1])
}

/// Some chain from the start edge ends on square `p`.
pub open spec fn reaches(b: Board, c: Color, dir: Direction, p: Position) -> bool {
    exists|path: Seq<Position>| road_chain(b, c, dir, path) && path.last() == p
}

/// Colour `c` has a road along `dir`: a chain spanning from the start edge
/// to the goal edge.
pub open spec fn road_exists(b: Board, c: Color, dir: Direction) -> bool {
    exists|p: Position| reaches(b, c, dir, p) && goal_edge(b.spec_size(), dir, p)
}

/// Colour `c` has a road: checking North and East covers all four axes,
/// since a road is a span between two opposite edges.
pub open spec fn has_road(b: Board, c: Color) -> bool {
    road_exists(b, c, Direction::North) || road_exists(b, c, Direction::East)
}

/// The terminal result a board shows, if any: a tie when both sides hold a
/// road, otherwise a win for the one side that does.
pub open spec fn outcome_result(b: Board) -> Option<MatchResult> {
    if has_road(b, Color::Red) && has_road(b, Color::Blk) {
        Some(MatchResult::Tie)
    } else if has_road(b, Color::Red) {
        Some(MatchResult::Winner(Color::Red))
    } else if has_road(b, Color::Blk) {
        Some(MatchResult::Winner(Color::Blk))
    } else {
        None
    }
}

/// A qualifying square on the start edge is reached by the one-square chain.
proof fn lemma_reach_seed(b: Board, c: Color, dir: Direction, p: Position)
    requires
        road_square(b, c, p),
        start_edge(b.spec_size(), dir, p),
    ensures
        reaches(b, c, dir, p),
{
    let path = seq![p];
    assert(road_chain(b, c, dir, path) && path.last() == p);
}

/// Reachability extends across one adjacency step onto a qualifying square.
proof fn lemma_reach_step(b: Board, c: Color, dir: Direction, p: Position, q: Position)
    requires
        reaches(b, c, dir, p),
        road_square(b, c, q),
        adjacent(p, q),
    ensures
        reaches(b, c, dir, q),
{
    let path = choose|path: Seq<Position>| road_chain(b, c, dir, path) && path.last() == p;
    let path2 = path.push(q);
    assert(path2.last() == q);
    assert(road_chain(b, c, dir, path2)) by {
        assert(path2[0] == path[0]);
        assert forall|i: int| 0 <= i < path2.len() implies road_square(b, c, #[trigger] path2[i]) by {
            if i < path.len() {
                assert(path2[i] == path[i]);
            }
        }
        assert forall|i: int| 0 <= i < path2.len() - 1 implies adjacent(
            #[trigger] path2[i],
            path2[i + 1],
        ) by {
            if i < path.len() - 1 {
                assert(path2[i] == path[i] && path2[i + 1] == path[i + 1]);
            } else {
                assert(path2[i] == path.last() && path2[i + 1] == q);
            }
        }
    }
}

/// The `j`-th square of the straight line with cross-axis coordinate
/// `fixed`: a square of column `fixed` for a north/south road, of row
/// `fixed` for an east/west one.
pub open spec fn line_pos(dir: Direction, fixed: int, j: int) -> Position {
    match dir {
        Direction::North => Position { row: j as usize, col: fixed as usize },
        Direction::South => Position { row: j as usize, col: fixed as usize },
        Direction::East => Position { row: fixed as usize, col: j as usize },
        Direction::West => Position { row: fixed as usize, col: j as usize },
    }
}

/// A solid line of road squares of colour `c` spanning the whole board
/// along the axis of `dir` is a road for `c`.
pub proof fn lemma_solid_line_is_road(b: Board, c: Color, dir: Direction, fixed: int)
    requires
        b.wf(),
        forall|j: int|
            0 <= j < b.spec_size() ==> road_square(b, c, #[trigger] line_pos(dir, fixed, j)),
    ensures
        road_exists(b, c, dir),
{
    let n = b.spec_size();
    // walk the line from the start edge to the goal edge
    let asc = dir == Direction::North || dir == Direction::East;
    let path = Seq::new(
        n as nat,
        |j: int|
            line_pos(
                dir,
                fixed,
                if asc {
                    j
                } else {
                    n - 1 - j
                },
            ),
    );
    assert(road_square(b, c, line_pos(dir, fixed, 0)));
    assert(road_square(b, c, line_pos(dir, fixed, n - 1)));
    assert(road_chain(b, c, dir, path)) by {
        assert(start_edge(n, dir, path[0]));
        assert forall|i: int| 0 <= i < path.len() implies road_square(b, c, #[trigger] path[i]) by {
        }
        assert forall|i: int| 0 <= i < path.len() - 1 implies adjacent(
            #[trigger] path[i],
            path[i + 1],
        ) by {
            let lo = if asc {
                i
            } else {
                n - 2 - i
            };
            assert(road_square(b, c, line_pos(dir, fixed, lo)));
            assert(road_square(b, c, line_pos(dir, fixed, lo + 1)));
            assert(b.spec_valid_pos(line_pos(dir, fixed, lo)));
            assert(b.spec_valid_pos(line_pos(dir, fixed, lo + 1)));
            assert((lo as usize) as int == lo && ((lo + 1) as usize) as int == lo + 1);
            match dir {
                Direction::North => {
                    assert(path[i] == line_pos(dir, fixed, lo));
                    assert(path[i + 1] == line_pos(dir, fixed, lo + 1));
                },
                Direction::South => {
                    assert(path[i] == line_pos(dir, fixed, lo + 1));
                    assert(path[i + 1] == line_pos(dir, fixed, lo));
                },
                Direction::East => {
                    assert(path[i] == line_pos(dir, fixed, lo));
                    assert(path[i + 1] == line_pos(dir, fixed, lo + 1));
                },
                Direction::West => {
                    assert(path[i] == line_pos(dir, fixed, lo + 1));
                    assert(path[i + 1] == line_pos(dir, fixed, lo));
                },
            }
        }
    }
    assert(goal_edge(n, dir, path.last()));
    assert(reaches(b, c, dir, path.last()));
}

/// The flat key of a square: used to count visited squares.
pub open spec fn pk(n: int, p: Position) -> int {
    p.row * n + p.col
}

proof fn lemma_pk_bounds(n: int, p: Position)
    requires
        0 < n,
        p.row < n,
        p.col < n,
    ensures
        0 <= pk(n, p) < n * n,
{
    assert(p.row * n + p.col < n * n && 0 <= p.row * n + p.col) by (nonlinear_arith)
        requires
            0 < n,
            0 <= p.row < n,
            0 <= p.col < n,
    ;
}

proof fn lemma_pk_injective(n: int, p: Position, q: Position)
    requires
        0 < n,
        p.row < n,
        p.col < n,
        q.row < n,
        q.col < n,
        pk(n, p) == pk(n, q),
    ensures
        p == q,
{
    assert(p.row == q.row && p.col == q.col) by (nonlinear_arith)
        requires
            0 < n,
            0 <= p.row < n,
            0 <= p.col < n,
            0 <= q.row < n,
            0 <= q.col < n,
            p.row * n + p.col == q.row * n + q.col,
    ;
}

proof fn lemma_pk_distinct(n: int, p: Position, q: Position)
    requires
        0 < n,
        p.row < n,
        p.col < n,
        q.row < n,
        q.col < n,
        p != q,
    ensures
        pk(n, p) != pk(n, q),
{
    if pk(n, p) == pk(n, q) {
        lemma_pk_injective(n, p, q);
    }
}

/// Whether the sequence `w` holds the position `p`.
pub open spec fn seq_has(w: Seq<Position>, p: Position) -> bool {
    exists|j: int| 0 <= j < w.len() && w[j] == p
}

/// The search's running state: the visited bits mirror the key set; every
/// visited square is a reachable road square; the worklist holds visited
/// squares without repetition.
spec fn bfs_core_inv(
    b: Board,
    c: Color,
    dir: Direction,
    vis: Vec<Vec<bool>>,
    work: Seq<Position>,
    kset: Set<int>,
) -> bool {
    let n = b.spec_size();
    &&& vis@.len() == n
    &&& forall|r: int| 0 <= r < n ==> (#[trigger] vis@[r])@.len() == n
    &&& kset.finite()
    &&& forall|x: int| #[trigger] kset.contains(x) ==> 0 <= x < n * n
    &&& forall|p: Position|
        b.spec_valid_pos(p) ==> (vis@[p.row as int]@[p.col as int] == #[trigger] kset.contains(
            pk(n, p),
        ))
    &&& forall|p: Position|
        #[trigger] kset.contains(pk(n, p)) && b.spec_valid_pos(p) ==> road_square(b, c, p)
            && reaches(b, c, dir, p)
    &&& forall|j: int|
        0 <= j < work.len() ==> b.spec_valid_pos(#[trigger] work[j]) && kset.contains(
            pk(n, work[j]),
        )
    &&& forall|j1: int, j2: int| 0 <= j1 < j2 < work.len() ==> work[j1] != work[j2]
}

/// The coordinate that runs along the start edge: the column for a
/// north/south road, the row for an east/west one.
pub open spec fn edge_coord(dir: Direction, p: Position) -> int {
    match dir {
        Direction::North => p.col as int,
        Direction::South => p.col as int,
        Direction::East => p.row as int,
        Direction::West => p.row as int,
    }
}

/// Every processed square (visited but no longer queued) is not a goal and
/// has all its qualifying neighbours visited.
spec fn bfs_closed_inv(
    b: Board,
    c: Color,
    dir: Direction,
    work: Seq<Position>,
    kset: Set<int>,
) -> bool {
    let n = b.spec_size();
    &&& forall|p: Position|
        #[trigger] kset.contains(pk(n, p)) && b.spec_valid_pos(p) && !seq_has(work, p)
            ==> !goal_edge(n, dir, p)
    &&& forall|p: Position, q: Position|
        #![trigger kset.contains(pk(n, p)), adjacent(p, q)]
        kset.contains(pk(n, p)) && b.spec_valid_pos(p) && !seq_has(work, p) && adjacent(p, q)
            && road_square(b, c, q) ==> kset.contains(pk(n, q))
}

/// Every processed square (visited but no longer queued) other than `ex` is
/// not a goal and has all its qualifying neighbours visited.
spec fn bfs_closed_except(
    b: Board,
    c: Color,
    dir: Direction,
    work: Seq<Position>,
    kset: Set<int>,
    ex: Position,
) -> bool {
    let n = b.spec_size();
    &&& forall|p: Position|
        #[trigger] kset.contains(pk(n, p)) && b.spec_valid_pos(p) && p != ex && !seq_has(work, p)
            ==> !goal_edge(n, dir, p)
    &&& forall|p: Position, q: Position|
        #![trigger kset.contains(pk(n, p)), adjacent(p, q)]
        kset.contains(pk(n, p)) && b.spec_valid_pos(p) && p != ex && !seq_has(work, p) && adjacent(
            p,
            q,
        ) && road_square(b, c, q) ==> kset.contains(pk(n, q))
}

/// If the visited set holds every qualifying start-edge square and is closed
/// under qualifying adjacency, it holds every square of every chain.
proof fn lemma_chain_in_kset(
    b: Board,
    c: Color,
    dir: Direction,
    kset: Set<int>,
    path: Seq<Position>,
    m: int,
)
    requires
        forall|p: Position|
            road_square(b, c, p) && start_edge(b.spec_size(), dir, p) ==> kset.contains(
                #[trigger] pk(b.spec_size(), p),
            ),
        forall|p: Position, q: Position|
            #![trigger kset.contains(pk(b.spec_size(), p)), adjacent(p, q)]
            kset.contains(pk(b.spec_size(), p)) && b.spec_valid_pos(p) && adjacent(p, q)
                && road_square(b, c, q) ==> kset.contains(pk(b.spec_size(), q)),
        road_chain(b, c, dir, path),
        0 <= m < path.len(),
    ensures
        kset.contains(pk(b.spec_size(), path[m])),
    decreases m,
{
    if m == 0 {
        assert(road_square(b, c, path[0]));
    } else {
        lemma_chain_in_kset(b, c, dir, kset, path, m - 1);
        assert(road_square(b, c, path[m]));
        assert(adjacent(path[m - 1], path[m]));
    }
}

// ---------------------------------------------------------------------------
// The engine
// ---------------------------------------------------------------------------

/// Authoritative game state: the board (with both reserves) and the last
/// applied move.
pub struct Logic {
    board: Board,
    last_applied_move: Option<Move>,
}

impl Logic {
    pub closed spec fn spec_board(&self) -> Board {
        self.board
    }

    pub closed spec fn spec_last(&self) -> Option<Move> {
        self.last_applied_move
    }

    pub open spec fn wf(&self) -> bool {
        self.spec_board().wf()
    }

    /// A fresh game on an empty board of a supported size.
    pub fn new(size: usize) -> (l: Logic)
        requires
            supported_size(size as int),
        ensures
            l.wf(),
            l.spec_board().spec_size() == size,
            forall|r: int, c: int|
                0 <= r < size && 0 <= c < size ==> (#[trigger] l.spec_board().stack_at(
                    r,
                    c,
                )).len() == 0,
            forall|c: Color| #[trigger] l.spec_board().spec_stones(c) == stash_stones(size as int),
            forall|c: Color| #[trigger] l.spec_board().spec_caps(c) == stash_caps(size as int),
            conserves(l.spec_board()),
            l.spec_last() is None,
    {
        Logic { board: Board::new(size), last_applied_move: None }
    }

    /// An engine for a given mid-game board.  The board's reserves are taken
    /// as they stand; the last applied move is assumed unknown.
    pub fn from_board(board: Board) -> (l: Logic)
        requires
            board.wf(),
        ensures
            l.wf(),
            l.spec_board() == board,
            l.spec_last() is None,
    {
        Logic { board, last_applied_move: None }
    }

    /// A read-only snapshot of the board.
    pub fn peek(&self) -> (r: &Board)
        ensures
            *r == self.spec_board(),
    {
        &self.board
    }

    /// The move most recently applied through [`Logic::apply`], if any.
    pub fn last_applied_move(&self) -> (r: &Option<Move>)
        ensures
            *r == self.spec_last(),
    {
        &self.last_applied_move
    }

    pub fn valid_pos(&self, pos: Position) -> (r: bool)
        ensures
            r == self.spec_board().spec_valid_pos(pos),
    {
        self.board.valid_pos(pos)
    }

    pub fn piece_count(&self, c: Color, kind: PieceKind) -> (r: u16)
        ensures
            r == self.spec_board().spec_count(c, kind),
    {
        self.board.piece_count(c, kind)
    }

    /// Pure legality check: never mutates state, may be called repeatedly.
    /// Approves exactly the moves [`applicable_spec`] allows; in particular
    /// it rejects placing on an occupied square or from an exhausted stash,
    /// and it rejects a slide whose carry list is empty, holds a zero, or
    /// fails to strictly decrease, whose source the mover does not own,
    /// which lifts more than is there, which runs off the board, or which
    /// lands on an incompatible stack anywhere along the path.
    pub fn applicable(&self, mv: &Move) -> (r: bool)
        requires
            self.wf(),
        ensures
            r == applicable_spec(self.spec_board(), *mv),
    {
        match &mv.action {
            Action::Place(pos, kind) => {
                self.board.valid_pos(*pos) && self.board.piece_count(mv.player, *kind) > 0
                    && self.board.at(*pos).is_empty()
            },
            Action::Slide(pos, dir, ov) => {
                if !self.board.valid_pos(*pos) {
                    false
                } else {
                    match ov {
                        Some(v) => self.slide_applicable(mv.player, *pos, *dir, v),
                        None => {
                            let h = self.board.at(*pos).len();
                            let whole: Vec<usize> = vec![h];
                            proof {
                                assert(whole@ =~= norm_carries(
                                    self.spec_board(),
                                    *pos,
                                    None::<Vec<usize>>,
                                ));
                            }
                            self.slide_applicable(mv.player, *pos, *dir, &whole)
                        },
                    }
                }
            },
        }
    }

    /// Whether the stack on the (valid) square `p` is a road square of `c`.
    fn road_square_at(&self, c: Color, p: Position) -> (r: bool)
        requires
            self.wf(),
            self.spec_board().spec_valid_pos(p),
        ensures
            r == road_square(self.spec_board(), c, p),
    {
        let st = self.board.at(p);
        st.is_road() && match st.color() {
            Some(cc) => cc == c,
            None => false,
        }
    }

    /// Visits `cand` if it qualifies and is not visited yet: sets its bit,
    /// queues it, and accounts for it in the key set.  `from` justifies
    /// reachability: the seed edge for `None`, a visited neighbour otherwise.
    fn try_visit(
        &self,
        c: Color,
        dir: Direction,
        cand: Position,
        vis: &mut Vec<Vec<bool>>,
        work: &mut Vec<Position>,
        Ghost(kset): Ghost<Set<int>>,
        Ghost(from): Ghost<Option<Position>>,
    ) -> (out: Ghost<Set<int>>)
        requires
            self.wf(),
            self.spec_board().spec_valid_pos(cand),
            bfs_core_inv(self.spec_board(), c, dir, *old(vis), old(work)@, kset),
            match from {
                None => start_edge(self.spec_board().spec_size(), dir, cand),
                Some(p) => kset.contains(pk(self.spec_board().spec_size(), p))
                    && self.spec_board().spec_valid_pos(p) && adjacent(p, cand),
            },
        ensures
            bfs_core_inv(self.spec_board(), c, dir, *final(vis), final(work)@, out@),
            road_square(self.spec_board(), c, cand) ==> out@.contains(
                pk(self.spec_board().spec_size(), cand),
            ),
            out@ == kset || out@ == kset.insert(pk(self.spec_board().spec_size(), cand)),
            out@ != kset ==> out@.len() == kset.len() + 1,
            final(work)@ == old(work)@ || final(work)@ == old(work)@.push(cand),
            out@ != kset ==> !kset.contains(pk(self.spec_board().spec_size(), cand))
                && final(work)@ == old(work)@.push(cand),
            out@ == kset ==> final(work)@ == old(work)@,
    {
        let ghost b = self.spec_board();
        let ghost n = b.spec_size();
        proof {
            lemma_pk_bounds(n, cand);
        }
        if !self.road_square_at(c, cand) {
            return Ghost(kset);
        }
        if vis[cand.row][cand.col] {
            proof {
                assert(kset.contains(pk(n, cand)));
            }
            return Ghost(kset);
        }
        proof {
            assert(!kset.contains(pk(n, cand)));
        }
        let row = vstd::std_specs::vec::vec_index_mut(vis, cand.row);
        row.set(cand.col, true);
        work.push(cand);
        let ghost kset2 = kset.insert(pk(n, cand));
        proof {
            broadcast use vstd::set::axiom_set_insert_len;

            assert(kset2.len() == kset.len() + 1);
            match from {
                None => lemma_reach_seed(b, c, dir, cand),
                Some(p) => {
                    assert(reaches(b, c, dir, p));
                    lemma_reach_step(b, c, dir, p, cand);
                },
            }
            // the bits still mirror the key set
            assert forall|p: Position| b.spec_valid_pos(p) implies (
            vis@[p.row as int]@[p.col as int] == kset2.contains(pk(n, p))) by {
                if p == cand {
                } else {
                    lemma_pk_distinct(n, p, cand);
                    assert(vis@[p.row as int]@[p.col as int] == old(vis)@[p.row as int]@[p.col
                        as int]);
                }
            }
            // soundness extends to the new square
            assert forall|p: Position|
                #[trigger] kset2.contains(pk(n, p)) && b.spec_valid_pos(p) implies road_square(
                b,
                c,
                p,
            ) && reaches(b, c, dir, p) by {
                if p != cand {
                    lemma_pk_distinct(n, p, cand);
                }
            }
            // the worklist stays duplicate-free: the new square was unvisited
            assert forall|j1: int, j2: int| 0 <= j1 < j2 < work@.len() implies work@[j1]
                != work@[j2] by {
                if j2 == work@.len() - 1 {
                    assert(kset.contains(pk(n, work@[j1])));
                }
            }
        }
        Ghost(kset2)
    }

    /// Breadth-first road search for colour `c` along `dir`: floods outward
    /// from the qualifying squares of the start edge through qualifying
    /// 4-neighbours, and reports whether the goal edge is reached.
    #[verifier::rlimit(100)]
    pub fn is_winner_for_dir(&self, c: Color, dir: Direction) -> (r: bool)
        requires
            self.wf(),
        ensures
            r == road_exists(self.spec_board(), c, dir),
    {
        let ghost b = self.spec_board();
        let n = self.board.size();
        let ghost ni = n as int;
        // all-false visited bits
        let mut vis: Vec<Vec<bool>> = Vec::new();
        let mut r0: usize = 0;
        while r0 < n
            invariant
                r0 <= n,
                vis@.len() == r0,
                forall|i: int| 0 <= i < r0 ==> (#[trigger] vis@[i])@.len() == n,
                forall|i: int, j: int| 0 <= i < r0 && 0 <= j < n ==> !(#[trigger] vis@[i]@[j]),
            decreases n - r0,
        {
            let mut row: Vec<bool> = Vec::new();
            let mut c0: usize = 0;
            while c0 < n
                invariant
                    c0 <= n,
                    row@.len() == c0,
                    forall|j: int| 0 <= j < c0 ==> !(#[trigger] row@[j]),
                decreases n - c0,
            {
                row.push(false);
                c0 = c0 + 1;
            }
            vis.push(row);
            r0 = r0 + 1;
        }
        let mut work: Vec<Position> = Vec::new();
        let ghost mut kset: Set<int> = Set::empty();
        // seed the frontier with the qualifying squares of the start edge
        let mut idx: usize = 0;
        while idx < n
            invariant
                idx <= n,
                self.wf(),
                b == self.spec_board(),
                ni == b.spec_size(),
                n as int == ni,
                3 <= ni,
                bfs_core_inv(b, c, dir, vis, work@, kset),
                forall|p: Position|
                    #[trigger] kset.contains(pk(ni, p)) && b.spec_valid_pos(p) ==> seq_has(
                        work@,
                        p,
                    ),
                forall|p: Position|
                    road_square(b, c, p) && start_edge(ni, dir, p) && edge_coord(dir, p) < idx
                        ==> kset.contains(#[trigger] pk(ni, p)),
            decreases n - idx,
        {
            let cand = match dir {
                Direction::North => Position::new(0, idx),
                Direction::South => Position::new(n - 1, idx),
                Direction::East => Position::new(idx, 0),
                Direction::West => Position::new(idx, n - 1),
            };
            let ghost kpre = kset;
            let ghost wpre = work@;
            let out = self.try_visit(c, dir, cand, &mut vis, &mut work, Ghost(kset), Ghost(None));
            proof {
                kset = out@;
                // every visited square is still queued
                assert forall|p: Position|
                    #[trigger] kset.contains(pk(ni, p)) && b.spec_valid_pos(p) implies seq_has(
                    work@,
                    p,
                ) by {
                    if kpre.contains(pk(ni, p)) {
                        assert(seq_has(wpre, p));
                        let j = choose|j: int| 0 <= j < wpre.len() && wpre[j] == p;
                        assert(work@[j] == p);
                    } else {
                        lemma_pk_injective(ni, p, cand);
                        assert(work@[work@.len() - 1] == p);
                    }
                }
                // every seed up to and including idx is accounted for
                assert forall|p: Position|
                    road_square(b, c, p) && start_edge(ni, dir, p) && edge_coord(dir, p) < idx + 1
                    implies kset.contains(#[trigger] pk(ni, p)) by {
                    if edge_coord(dir, p) == idx {
                        assert(p == cand);
                    }
                }
            }
            idx = idx + 1;
        }
        proof {
            // at this point every visited square is still queued, so the
            // closed structure holds vacuously
            assert(bfs_closed_inv(b, c, dir, work@, kset));
        }
        // flood outward until the frontier empties or a goal square is hit
        while work.len() != 0
            invariant
                self.wf(),
                b == self.spec_board(),
                ni == b.spec_size(),
                n as int == ni,
                3 <= ni,
                bfs_core_inv(b, c, dir, vis, work@, kset),
                forall|p: Position|
                    road_square(b, c, p) && start_edge(ni, dir, p) ==> kset.contains(
                        #[trigger] pk(ni, p),
                    ),
                bfs_closed_inv(b, c, dir, work@, kset),
            decreases ni * ni - kset.len(), work@.len(),
        {
            let ghost wpre = work@;
            let popped = work.pop();
            let p = match popped {
                Some(p) => p,
                None => {
                    proof {
                        assert(false);
                    }
                    Position::new(0, 0)
                },
            };
            proof {
                // a popped square leaves the worklist for good
                assert forall|p2: Position| p2 != p implies seq_has(work@, p2) == seq_has(
                    wpre,
                    p2,
                ) by {
                    if seq_has(wpre, p2) {
                        let j = choose|j: int| 0 <= j < wpre.len() && wpre[j] == p2;
                        assert(j < wpre.len() - 1);
                        assert(work@[j] == p2);
                    }
                    if seq_has(work@, p2) {
                        let j = choose|j: int| 0 <= j < work@.len() && work@[j] == p2;
                        assert(wpre[j] == p2);
                    }
                }
                assert(!seq_has(work@, p)) by {
                    if seq_has(work@, p) {
                        let j = choose|j: int| 0 <= j < work@.len() && work@[j] == p;
                        assert(wpre[j] == wpre[wpre.len() - 1]);
                    }
                }
                assert(road_square(b, c, p) && reaches(b, c, dir, p));
            }
            // success the moment a goal square comes off the frontier
            let at_goal = match dir {
                Direction::North => p.row == n - 1,
                Direction::South => p.row == 0,
                Direction::East => p.col == n - 1,
                Direction::West => p.col == 0,
            };
            if at_goal {
                proof {
                    assert(goal_edge(ni, dir, p));
                }
                return true;
            }
            // visit the qualifying unvisited 4-neighbours
            let mut cands: Vec<Position> = Vec::new();
            if p.col > 0 {
                cands.push(Position::new(p.row, p.col - 1));
            }
            if p.col + 1 < n {
                cands.push(Position::new(p.row, p.col + 1));
            }
            if p.row > 0 {
                cands.push(Position::new(p.row - 1, p.col));
            }
            if p.row + 1 < n {
                cands.push(Position::new(p.row + 1, p.col));
            }
            proof {
                assert forall|q: Position| adjacent(p, q) && b.spec_valid_pos(q) implies seq_has(
                    cands@,
                    q,
                ) by {
                    assert forall|j: int| 0 <= j < cands@.len() implies adjacent(
                        p,
                        #[trigger] cands@[j],
                    ) && b.spec_valid_pos(cands@[j]) by {}
                    if q.row == p.row && q.col + 1 == p.col {
                        assert(cands@[0] == q);
                    } else if q.row == p.row && p.col + 1 == q.col {
                        assert(p.col > 0 ==> cands@[1] == q);
                        assert(p.col == 0 ==> cands@[0] == q);
                    } else if q.col == p.col && q.row + 1 == p.row {
                        let j = cands@.len() - (if p.row + 1 < ni { 2int } else { 1int });
                        assert(cands@[j] == q);
                    } else {
                        let j = cands@.len() - 1;
                        assert(cands@[j] == q);
                    }
                }
            }
            let ghost kpop = kset;
            let ghost len0 = wpre.len() as int;
            let mut ci: usize = 0;
            while ci < cands.len()
                invariant
                    self.wf(),
                    b == self.spec_board(),
                    ni == b.spec_size(),
                    n as int == ni,
                    3 <= ni,
                    ci <= cands@.len(),
                    cands@.len() <= 4,
                    bfs_core_inv(b, c, dir, vis, work@, kset),
                    forall|j: int|
                        0 <= j < cands@.len() ==> adjacent(p, #[trigger] cands@[j])
                            && b.spec_valid_pos(cands@[j]),
                    forall|p2: Position|
                        road_square(b, c, p2) && start_edge(ni, dir, p2) ==> kset.contains(
                            #[trigger] pk(ni, p2),
                        ),
                    bfs_closed_except(b, c, dir, work@, kset, p),
                    kset.contains(pk(ni, p)),
                    b.spec_valid_pos(p),
                    road_square(b, c, p),
                    !seq_has(work@, p),
                    !goal_edge(ni, dir, p),
                    forall|j: int|
                        0 <= j < ci && road_square(b, c, #[trigger] cands@[j]) ==> kset.contains(
                            pk(ni, cands@[j]),
                        ),
                    kpop.subset_of(kset),
                    kset.len() == kpop.len() + (work@.len() + 1 - len0),
                    work@.len() + 1 >= len0,
                decreases cands@.len() - ci,
            {
                let cand = cands[ci];
                let ghost kpre = kset;
                let ghost wpre2 = work@;
                let out = self.try_visit(
                    c,
                    dir,
                    cand,
                    &mut vis,
                    &mut work,
                    Ghost(kset),
                    Ghost(Some(p)),
                );
                proof {
                    kset = out@;
                    if kset != kpre {
                        // the popped square stays out of the worklist: the
                        // new square is the one just pushed and is not `p`
                        assert(p != cand);
                        // the one new square is freshly queued; the rest of
                        // the closed structure is untouched
                        assert forall|p2: Position| p2 != cand implies seq_has(work@, p2)
                            == seq_has(wpre2, p2) by {
                            if seq_has(wpre2, p2) {
                                let j = choose|j: int| 0 <= j < wpre2.len() && wpre2[j] == p2;
                                assert(work@[j] == p2);
                            }
                            if seq_has(work@, p2) {
                                let j = choose|j: int| 0 <= j < work@.len() && work@[j] == p2;
                                assert(j < work@.len() - 1 ==> wpre2[j] == p2);
                            }
                        }
                        assert(seq_has(work@, cand)) by {
                            assert(work@[work@.len() - 1] == cand);
                        }
                        assert(bfs_closed_except(b, c, dir, work@, kset, p)) by {
                            assert forall|p2: Position|
                                #[trigger] kset.contains(pk(ni, p2)) && b.spec_valid_pos(p2) && p2
                                    != p && !seq_has(work@, p2) implies !goal_edge(ni, dir, p2)
                                && (forall|q: Position|
                                adjacent(p2, q) && road_square(b, c, q) ==> kset.contains(
                                    pk(ni, q),
                                )) by {
                                if p2 != cand {
                                    lemma_pk_distinct(ni, p2, cand);
                                    assert(kpre.contains(pk(ni, p2)));
                                    assert(!seq_has(wpre2, p2));
                                    assert forall|q: Position|
                                        adjacent(p2, q) && road_square(b, c, q)
                                        implies kset.contains(pk(ni, q)) by {
                                        assert(kpre.contains(pk(ni, q)));
                                    }
                                } else {
                                    assert(seq_has(work@, cand));
                                }
                            }
                        }
                    }
                }
                ci = ci + 1;
            }
            proof {
                // the popped square is now fully processed: all qualifying
                // neighbours are visited, so the closed structure includes it
                assert(bfs_closed_inv(b, c, dir, work@, kset)) by {
                    assert forall|p2: Position|
                        #[trigger] kset.contains(pk(ni, p2)) && b.spec_valid_pos(p2) && !seq_has(
                            work@,
                            p2,
                        ) implies !goal_edge(ni, dir, p2) && (forall|q: Position|
                        adjacent(p2, q) && road_square(b, c, q) ==> kset.contains(
                            pk(ni, q),
                        )) by {
                        if p2 == p {
                            assert forall|q: Position|
                                adjacent(p2, q) && road_square(b, c, q) implies kset.contains(
                                pk(ni, q),
                            ) by {
                                assert(seq_has(cands@, q));
                                let j = choose|j: int| 0 <= j < cands@.len() && cands@[j] == q;
                            }
                        }
                    }
                }
                // the measure stays well-founded
                vstd::set_lib::lemma_int_range(0, ni * ni);
                assert(kset.subset_of(vstd::set_lib::set_int_range(0, ni * ni))) by {
                    assert forall|x: int| kset.contains(x) implies vstd::set_lib::set_int_range(
                        0,
                        ni * ni,
                    ).contains(x) by {}
                }
                vstd::set_lib::lemma_len_subset(kset, vstd::set_lib::set_int_range(0, ni * ni));
                assert(kset.len() <= ni * ni);
                assert(work@.len() >= wpre.len() ==> kset.len() > kpop.len());
                assert(work@.len() < wpre.len() ==> work@.len() == wpre.len() - 1 && kset.len()
                    == kpop.len());
            }
        }
        // the frontier is empty: the visited set is closed and holds every
        // seed, so no chain can end on a goal square
        proof {
            if road_exists(b, c, dir) {
                let gp = choose|gp: Position|
                    reaches(b, c, dir, gp) && goal_edge(ni, dir, gp);
                let path = choose|path: Seq<Position>|
                    road_chain(b, c, dir, path) && path.last() == gp;
                assert forall|p2: Position, q: Position|
                    #![trigger kset.contains(pk(ni, p2)), adjacent(p2, q)]
                    kset.contains(pk(ni, p2)) && b.spec_valid_pos(p2) && adjacent(p2, q)
                        && road_square(b, c, q) implies kset.contains(pk(ni, q)) by {
                    assert(!seq_has(work@, p2));
                }
                lemma_chain_in_kset(b, c, dir, kset, path, path.len() - 1);
                assert(kset.contains(pk(ni, gp)));
                assert(!seq_has(work@, gp));
                assert(!goal_edge(ni, dir, gp));
            }
        }
        false
    }

    /// Applies a slide that fits: walks the carry list, at each hop removing
    /// the carried pieces from the current square and merging them one square
    /// onward, so that hop `j` ends up with exactly `dropped_at(s, v, j)` on
    /// top of its (possibly flattened) old pile.
    fn apply_slide(&mut self, pos: Position, dir: Direction, v: &Vec<usize>)
        requires
            old(self).wf(),
            slide_fits(old(self).spec_board(), pos, dir, v@),
        ensures
            final(self).wf(),
            final(self).spec_last() == old(self).spec_last(),
            slide_applied(old(self).spec_board(), final(self).spec_board(), pos, dir, v@),
            conserves(old(self).spec_board()) ==> conserves(final(self).spec_board()),
    {
        let ghost pre = self.board;
        let ghost s = pre.stack_at(pos.row as int, pos.col as int);
        let ghost k = v@.len() as int;
        let mut cur = pos;
        let mut i: usize = 0;
        while i < v.len()
            invariant
                v@.len() == k,
                1 <= k < pre.spec_size(),
                i <= k,
                slide_fits(pre, pos, dir, v@),
                s == pre.stack_at(pos.row as int, pos.col as int),
                self.board.wf(),
                self.board.spec_size() == pre.spec_size(),
                Board::same_counts(self.board, pre),
                conserves(pre) ==> conserves(self.board),
                self.last_applied_move == old(self).last_applied_move,
                cur.row as int == path_row(pos.row as int, dir, i as int),
                cur.col as int == path_col(pos.col as int, dir, i as int),
                i == 0 ==> self.board == pre,
                i > 0 ==> self.board.stack_at(pos.row as int, pos.col as int) == s.subrange(
                    0,
                    s.len() - v@[0],
                ),
                forall|j: int|
                    1 <= j < i ==> #[trigger] self.board.stack_at(
                        path_row(pos.row as int, dir, j),
                        path_col(pos.col as int, dir, j),
                    ) == merged(
                        pre.stack_at(
                            path_row(pos.row as int, dir, j),
                            path_col(pos.col as int, dir, j),
                        ),
                        dropped_at(s, v@, j),
                    ),
                1 <= i ==> self.board.stack_at(
                    path_row(pos.row as int, dir, i as int),
                    path_col(pos.col as int, dir, i as int),
                ) == merged(
                    pre.stack_at(
                        path_row(pos.row as int, dir, i as int),
                        path_col(pos.col as int, dir, i as int),
                    ),
                    carried_at(s, v@, i as int),
                ),
                forall|r2: int, c2: int|
                    0 <= r2 < pre.spec_size() && 0 <= c2 < pre.spec_size() && !on_path(
                        pos,
                        dir,
                        i as int,
                        r2,
                        c2,
                    ) ==> #[trigger] self.board.stack_at(r2, c2) == pre.stack_at(r2, c2),
            decreases k - i,
        {
            let ghost ii = i as int;
            let ghost drow = path_row(pos.row as int, dir, ii + 1);
            let ghost dcol = path_col(pos.col as int, dir, ii + 1);
            let ghost cur_stack = self.board.stack_at(cur.row as int, cur.col as int);
            proof {
                // the path stays in bounds up to hop k, so hops i and i+1 do
                assert(0 <= path_row(pos.row as int, dir, k) < pre.spec_size());
                assert(0 <= drow < pre.spec_size());
                assert(0 <= dcol < pre.spec_size());
                // the next square is beyond the prefix walked so far
                assert(!on_path(pos, dir, ii, drow, dcol));
                assert(self.board.stack_at(drow, dcol) == pre.stack_at(drow, dcol));
                // the in-flight pile's top v[i] pieces are the original stack's
                if i == 0 {
                    assert(cur_stack == s);
                    assert(cur_stack.subrange(cur_stack.len() - v@[0], cur_stack.len() as int)
                        =~= carried_at(s, v@, 1));
                } else {
                    assert(cur_stack == merged(
                        pre.stack_at(
                            path_row(pos.row as int, dir, ii),
                            path_col(pos.col as int, dir, ii),
                        ),
                        carried_at(s, v@, ii),
                    ));
                    assert(v@[ii] < v@[ii - 1]);
                    assert(carried_at(s, v@, ii).len() == v@[ii - 1]);
                    assert(cur_stack.subrange(
                        cur_stack.len() - v@[ii],
                        cur_stack.len() as int,
                    ) =~= carried_at(s, v@, ii + 1));
                }
                assert(compatible(pre.stack_at(drow, dcol), carried_at(s, v@, ii + 1)));
            }
            let carry_n = v[i];
            self.board.slide(cur, dir, carry_n);
            proof {
                // the square just drained keeps its settled value
                if i == 0 {
                    assert(self.board.stack_at(pos.row as int, pos.col as int) == s.subrange(
                        0,
                        s.len() - v@[0],
                    ));
                } else {
                    let prow = path_row(pos.row as int, dir, ii);
                    let pcol = path_col(pos.col as int, dir, ii);
                    assert(cur_stack.subrange(0, cur_stack.len() - v@[ii]) =~= merged(
                        pre.stack_at(prow, pcol),
                        dropped_at(s, v@, ii),
                    ));
                }
                // the next square received the in-flight pile
                assert(self.board.stack_at(drow, dcol) == merged(
                    pre.stack_at(drow, dcol),
                    carried_at(s, v@, ii + 1),
                ));
            }
            cur = cur.go(dir);
            i = i + 1;
        }
        proof {
            // the last hop keeps everything it received
            assert(carried_at(s, v@, k) =~= dropped_at(s, v@, k));
            assert(self.board.stack_at(
                path_row(pos.row as int, dir, k),
                path_col(pos.col as int, dir, k),
            ) == merged(
                pre.stack_at(path_row(pos.row as int, dir, k), path_col(pos.col as int, dir, k)),
                dropped_at(s, v@, k),
            ));
        }
    }

    /// Whether colour `c` has a road: North and East suffice, the other two
    /// axes are the same spans read from the other end.
    pub fn is_winner(&self, c: Color) -> (r: bool)
        requires
            self.wf(),
        ensures
            r == has_road(self.spec_board(), c),
    {
        self.is_winner_for_dir(c, Direction::North) || self.is_winner_for_dir(c, Direction::East)
    }

    /// The terminal result the current board shows, if any, with a snapshot
    /// of that board.
    pub fn get_outcome(&self) -> (r: Option<Outcome>)
        requires
            self.wf(),
        ensures
            (r is Some) == (outcome_result(self.spec_board()) is Some),
            r matches Some(o) ==> Some(o.result) == outcome_result(self.spec_board())
                && Board::same_board(o.board, self.spec_board()) && o.board.wf(),
    {
        let red = self.is_winner(Color::Red);
        let blk = self.is_winner(Color::Blk);
        let result = if red && blk {
            MatchResult::Tie
        } else if red {
            MatchResult::Winner(Color::Red)
        } else if blk {
            MatchResult::Winner(Color::Blk)
        } else {
            return None;
        };
        Some(Outcome { result, board: self.board.clone() })
    }

    /// Applies a pre-validated move, records it, and reports the terminal
    /// outcome if the move ended the game.  Callers must check
    /// [`Logic::applicable`] first: applying an illegal move is a caller
    /// error, not a game-rule rejection.
    pub fn apply(&mut self, mv: Move) -> (r: Option<Outcome>)
        requires
            old(self).wf(),
            applicable_spec(old(self).spec_board(), mv),
        ensures
            final(self).wf(),
            move_applied(old(self).spec_board(), final(self).spec_board(), mv),
            conserves(old(self).spec_board()) ==> conserves(final(self).spec_board()),
            final(self).spec_last() == Some(mv),
            (r is Some) == (outcome_result(final(self).spec_board()) is Some),
            r matches Some(o) ==> Some(o.result) == outcome_result(final(self).spec_board())
                && Board::same_board(o.board, final(self).spec_board()),
    {
        match &mv.action {
            Action::Place(pos, kind) => {
                self.board.place(Piece::new(*kind, mv.player), *pos);
            },
            Action::Slide(pos, dir, ov) => {
                match ov {
                    Some(v) => {
                        self.apply_slide(*pos, *dir, v);
                    },
                    None => {
                        let h = self.board.at(*pos).len();
                        let whole: Vec<usize> = vec![h];
                        proof {
                            assert(whole@ =~= norm_carries(
                                old(self).spec_board(),
                                *pos,
                                None::<Vec<usize>>,
                            ));
                        }
                        self.apply_slide(*pos, *dir, &whole);
                    },
                }
            },
        }
        self.last_applied_move = Some(mv);
        self.get_outcome()
    }

    /// A side's very first placement puts a flat stone of the *opponent's*
    /// colour: the reversal is handled here by flipping the colour handed to
    /// [`Logic::apply`].
    pub fn first_turn(&mut self, pos: Position, c: Color)
        requires
            old(self).wf(),
            place_ok(old(self).spec_board(), c.spec_opposite(), pos, PieceKind::Stone),
        ensures
            final(self).wf(),
            place_applied(
                old(self).spec_board(),
                final(self).spec_board(),
                c.spec_opposite(),
                pos,
                PieceKind::Stone,
            ),
            conserves(old(self).spec_board()) ==> conserves(final(self).spec_board()),
            final(self).spec_last() == Some(
                (Move { player: c.spec_opposite(), action: Action::Place(pos, PieceKind::Stone) }),
            ),
    {
        let mv = Move { player: c.opposite(), action: Action::Place(pos, PieceKind::Stone) };
        let _ = self.apply(mv);
    }

    /// The slide arm of [`Logic::applicable`], on an explicit carry list.
    fn slide_applicable(&self, player: Color, pos: Position, dir: Direction, v: &Vec<usize>) -> (r:
        bool)
        requires
            self.wf(),
            self.spec_board().spec_valid_pos(pos),
        ensures
            r == slide_ok(self.spec_board(), player, pos, dir, v@),
    {
        let ghost b = self.spec_board();
        let ghost s = b.stack_at(pos.row as int, pos.col as int);
        if v.len() == 0 {
            return false;
        }
        // no zero entries
        let mut i: usize = 0;
        while i < v.len()
            invariant
                i <= v@.len(),
                forall|j: int| 0 <= j < i ==> (#[trigger] v@[j]) > 0,
            decreases v@.len() - i,
        {
            if v[i] == 0 {
                return false;
            }
            i = i + 1;
        }
        // strictly decreasing
        let mut i: usize = 1;
        while i < v.len()
            invariant
                1 <= i,
                i <= v@.len() || v@.len() == 0,
                forall|j: int| 0 < j < i ==> (#[trigger] v@[j]) < v@[j - 1],
            decreases v@.len() - i,
        {
            if v[i] >= v[i - 1] {
                return false;
            }
            i = i + 1;
        }
        // ownership of the source top
        let source = self.board.at(pos);
        match source.color() {
            None => {
                return false;
            },
            Some(c) => {
                if c != player {
                    return false;
                }
            },
        }
        // cannot lift more than is there
        if source.len() < v[0] {
            return false;
        }
        // the path stays on the board
        let k = v.len();
        let n = self.board.size();
        if k >= n {
            // even the nearest edge is closer than k squares
            return false;
        }
        let in_bounds = match dir {
            Direction::North => pos.row + k < n,
            Direction::East => pos.col + k < n,
            Direction::South => pos.row >= k,
            Direction::West => pos.col >= k,
        };
        if !in_bounds {
            return false;
        }
        // per-hop compatibility, peeking off the original stack
        let mut carried = source.peek_from_top(v[0]);
        let mut cur = pos;
        let mut i: usize = 0;
        while i < k
            invariant
                self.wf(),
                b == self.spec_board(),
                s == b.stack_at(pos.row as int, pos.col as int),
                b.spec_valid_pos(pos),
                k == v@.len(),
                i <= k,
                k < b.spec_size(),
                forall|j: int| 0 <= j < k ==> (#[trigger] v@[j]) > 0,
                forall|j: int| 0 < j < k ==> (#[trigger] v@[j]) < v@[j - 1],
                v@[0] <= s.len(),
                slide_in_bounds(b, pos, dir, k as int),
                cur.row as int == path_row(pos.row as int, dir, i as int),
                cur.col as int == path_col(pos.col as int, dir, i as int),
                i < k ==> carried@ == carried_at(s, v@, i + 1),
                forall|j: int|
                    1 <= j <= i ==> compatible(
                        #[trigger] b.stack_at(
                            path_row(pos.row as int, dir, j),
                            path_col(pos.col as int, dir, j),
                        ),
                        carried_at(s, v@, j),
                    ),
            decreases k - i,
        {
            let dst = cur.go(dir);
            proof {
                assert(dst.row as int == path_row(pos.row as int, dir, i + 1));
                assert(dst.col as int == path_col(pos.col as int, dir, i + 1));
                assert(b.spec_valid_pos(dst));
            }
            if !self.board.at(dst).compatible_with(&carried) {
                return false;
            }
            if i + 1 < k {
                let next = carried.peek_from_top(v[i + 1]);
                proof {
                    assert(next@ =~= carried_at(s, v@, i + 2));
                }
                carried = next;
            }
            cur = dst;
            i = i + 1;
        }
        true
    }
}

} // verus!
