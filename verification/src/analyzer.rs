//! Position analysis for search callers: per-colour metrics and exhaustive
//! enumeration of candidate actions.

use vstd::prelude::*;
use crate::actions::Action;
use crate::board::{Board, Direction};
use crate::logic::carries_shape_ok;
use crate::piece::{top_color, PieceKind};
use crate::player::Color;
use crate::position::Position;

verus! {

/// A value measured once per side.
pub struct Metric<T: Copy> {
    red: T,
    blk: T,
}

impl<T: Copy> Metric<T> {
    /// The measurement for colour `c`.
    pub closed spec fn spec_of(&self, c: Color) -> T {
        match c {
            Color::Red => self.red,
            Color::Blk => self.blk,
        }
    }

    pub(crate) fn for_values(red: T, blk: T) -> (m: Metric<T>)
        ensures
            m.spec_of(Color::Red) == red,
            m.spec_of(Color::Blk) == blk,
    {
        Metric { red, blk }
    }

    /// Reads the measurement for `player`.
    pub fn of(&self, player: Color) -> (r: T)
        ensures
            r == self.spec_of(player),
    {
        match player {
            Color::Red => self.red,
            Color::Blk => self.blk,
        }
    }

    /// Exclusive access to the measurement for `player`.
    pub fn of_mut(&mut self, player: Color) -> (r: &mut T)
        ensures
            *r == old(self).spec_of(player),
            final(self).spec_of(player) == *final(r),
            final(self).spec_of(player.spec_opposite()) == old(self).spec_of(
                player.spec_opposite(),
            ),
    {
        match player {
            Color::Red => &mut self.red,
            Color::Blk => &mut self.blk,
        }
    }
}

/// How many squares among the first `upto` of row `r` show a top of colour
/// `c`.
pub open spec fn tops_in_row(b: Board, c: Color, r: int, upto: int) -> int
    decreases upto,
{
    if upto <= 0 {
        0
    } else {
        tops_in_row(b, c, r, upto - 1) + if top_color(b.stack_at(r, upto - 1)) == Some(c) {
            1int
        } else {
            0int
        }
    }
}

/// How many squares among the first `upto` full rows show a top of colour
/// `c`.
pub open spec fn tops_in_rows(b: Board, c: Color, upto: int) -> int
    decreases upto,
{
    if upto <= 0 {
        0
    } else {
        tops_in_rows(b, c, upto - 1) + tops_in_row(b, c, upto - 1, b.spec_size())
    }
}

/// The tallest stack topped by colour `c` among the first `upto` squares of
/// row `r` (0 when none is).
pub open spec fn highest_in_row(b: Board, c: Color, r: int, upto: int) -> int
    decreases upto,
{
    if upto <= 0 {
        0
    } else {
        let rest = highest_in_row(b, c, r, upto - 1);
        let here = if top_color(b.stack_at(r, upto - 1)) == Some(c) {
            b.stack_at(r, upto - 1).len() as int
        } else {
            0int
        };
        if here > rest {
            here
        } else {
            rest
        }
    }
}

/// The tallest stack topped by colour `c` in the first `upto` full rows.
pub open spec fn highest_in_rows(b: Board, c: Color, upto: int) -> int
    decreases upto,
{
    if upto <= 0 {
        0
    } else {
        let rest = highest_in_rows(b, c, upto - 1);
        let here = highest_in_row(b, c, upto - 1, b.spec_size());
        if here > rest {
            here
        } else {
            rest
        }
    }
}

proof fn lemma_tops_in_row_bound(b: Board, c: Color, r: int, upto: int)
    requires
        upto >= 0,
    ensures
        0 <= tops_in_row(b, c, r, upto) <= upto,
    decreases upto,
{
    if upto > 0 {
        lemma_tops_in_row_bound(b, c, r, upto - 1);
    }
}

proof fn lemma_tops_in_rows_bound(b: Board, c: Color, upto: int)
    requires
        upto >= 0,
        b.spec_size() >= 0,
    ensures
        0 <= tops_in_rows(b, c, upto) <= upto * b.spec_size(),
    decreases upto,
{
    if upto > 0 {
        lemma_tops_in_rows_bound(b, c, upto - 1);
        lemma_tops_in_row_bound(b, c, upto - 1, b.spec_size());
        assert(upto * b.spec_size() == (upto - 1) * b.spec_size() + b.spec_size())
            by (nonlinear_arith);
    }
}

// ---------------------------------------------------------------------------
// The partition generator
// ---------------------------------------------------------------------------

/// The sum of the entries of a carry list.
pub open spec fn sum_of(v: Seq<usize>) -> int
    decreases v.len(),
{
    if v.len() == 0 {
        0
    } else {
        v[0] + sum_of(v.drop_first())
    }
}

/// A strictly decreasing partition of `p` into exactly `k` positive parts,
/// the first at most `bound`.
pub open spec fn dec_partition(v: Seq<usize>, p: int, k: int, bound: int) -> bool {
    &&& carries_shape_ok(v)
    &&& v.len() == k
    &&& sum_of(v) == p
    &&& v[0] <= bound
}

/// A list of positive entries sums to at least its length.
proof fn lemma_sum_at_least_len(v: Seq<usize>)
    requires
        forall|i: int| 0 <= i < v.len() ==> (#[trigger] v[i]) > 0,
    ensures
        sum_of(v) >= v.len(),
    decreases v.len(),
{
    if v.len() > 0 {
        lemma_sum_at_least_len(v.drop_first());
    }
}

/// The first entry never exceeds the sum, the rest being positive.
proof fn lemma_first_le_sum(v: Seq<usize>)
    requires
        v.len() > 0,
        forall|i: int| 0 <= i < v.len() ==> (#[trigger] v[i]) > 0,
    ensures
        v[0] <= sum_of(v),
        sum_of(v) >= 0,
    decreases v.len(),
{
    lemma_sum_at_least_len(v.drop_first());
}

/// Prepending an entry adds it to the sum.
proof fn lemma_sum_cons(t: usize, u: Seq<usize>)
    ensures
        sum_of(seq![t] + u) == t + sum_of(u),
{
    assert((seq![t] + u).drop_first() =~= u);
    assert((seq![t] + u)[0] == t);
}

/// A single-entry list is the partition of its entry.
proof fn lemma_singleton_partition(p: usize, bound: int)
    requires
        1 <= p,
        p <= bound,
    ensures
        dec_partition(seq![p], p as int, 1, bound),
{
    assert(seq![p].drop_first() =~= Seq::<usize>::empty());
    assert(seq![p][0] == p);
    assert(sum_of(seq![p].drop_first()) == 0);
}

/// Putting a part `t` in front of a partition of the remainder below `t`
/// yields a partition of the whole.
proof fn lemma_cons_partition(t: usize, u: Seq<usize>, p: int, k: int, bound: int)
    requires
        k >= 2,
        1 <= t,
        t <= bound,
        dec_partition(u, p - t, k - 1, t - 1),
    ensures
        dec_partition(seq![t] + u, p, k, bound),
{
    let w = seq![t] + u;
    lemma_sum_cons(t, u);
    assert(w[0] == t);
    assert forall|i: int| 0 <= i < w.len() implies (#[trigger] w[i]) > 0 by {
        if i > 0 {
            assert(w[i] == u[i - 1]);
        }
    }
    assert forall|i: int| 0 < i < w.len() implies (#[trigger] w[i]) < w[i - 1] by {
        if i == 1 {
            assert(w[1] == u[0] && u[0] <= t - 1);
        } else {
            assert(w[i] == u[i - 1] && w[i - 1] == u[i - 2]);
        }
    }
}

/// A partition of two or more parts splits into its first part and a
/// partition of the remainder below it.
proof fn lemma_split_partition(s: Seq<usize>, p: int, k: int, bound: int)
    requires
        k >= 2,
        dec_partition(s, p, k, bound),
    ensures
        dec_partition(s.drop_first(), p - s[0], k - 1, s[0] - 1),
        s == seq![s[0]] + s.drop_first(),
{
    let tail = s.drop_first();
    assert(sum_of(s) == s[0] + sum_of(tail));
    assert forall|i: int| 0 <= i < tail.len() implies (#[trigger] tail[i]) > 0 by {
        assert(tail[i] == s[i + 1]);
    }
    assert forall|i: int| 0 < i < tail.len() implies (#[trigger] tail[i]) < tail[i - 1] by {
        assert(tail[i] == s[i + 1] && tail[i - 1] == s[i]);
    }
    assert(tail[0] == s[1] && s[1] < s[0]);
    assert(s =~= seq![s[0]] + tail);
}

/// Lists with the same first entry and different tails differ.
proof fn lemma_cons_distinct(t: usize, u1: Seq<usize>, u2: Seq<usize>)
    requires
        u1 != u2,
    ensures
        seq![t] + u1 != seq![t] + u2,
{
    if seq![t] + u1 == seq![t] + u2 {
        assert((seq![t] + u1).skip(1) =~= u1);
        assert((seq![t] + u2).skip(1) =~= u2);
    }
}

/// Every strictly decreasing partition of `p` into exactly `k` positive
/// parts bounded by `bound`, each exactly once.  Recursion: pick the first
/// part `t`, then partition the remainder into `k - 1` parts below `t`.
#[verifier::rlimit(100)]
pub fn distribute(p: usize, k: usize, bound: usize) -> (r: Vec<Vec<usize>>)
    requires
        k >= 1,
    ensures
        forall|i: int| 0 <= i < r@.len() ==> dec_partition((#[trigger] r@[i])@, p as int, k as int, bound as int),
        forall|s: Seq<usize>|
            #[trigger] dec_partition(s, p as int, k as int, bound as int) ==> exists|i: int|
                0 <= i < r@.len() && r@[i]@ == s,
        forall|i: int, j: int| 0 <= i < j < r@.len() ==> r@[i]@ != r@[j]@,
    decreases k,
{
    if p < k || bound == 0 {
        // k positive parts sum to at least k, and the first part is positive
        proof {
            assert forall|s: Seq<usize>|
                #[trigger] dec_partition(s, p as int, k as int, bound as int) implies false by {
                lemma_sum_at_least_len(s);
            }
        }
        return Vec::new();
    }
    if k == 1 {
        let mut out: Vec<Vec<usize>> = Vec::new();
        if 1 <= p && p <= bound {
            let mut one: Vec<usize> = Vec::new();
            one.push(p);
            out.push(one);
            proof {
                assert(out@[0]@ =~= seq![p]);
                lemma_singleton_partition(p, bound as int);
            }
        }
        proof {
            assert forall|s: Seq<usize>|
                #[trigger] dec_partition(s, p as int, k as int, bound as int) implies exists|i: int|
                0 <= i < out@.len() && out@[i]@ == s by {
                assert(s.len() == 1);
                assert(sum_of(s) == s[0] + sum_of(s.drop_first()));
                assert(s.drop_first().len() == 0);
                assert(sum_of(s.drop_first()) == 0);
                assert(s[0] == p);
                assert(s =~= seq![p]);
                assert(out@[0]@ == s);
            }
        }
        return out;
    }
    // k >= 2: choose the first (largest) part t, leaving enough for k - 1
    // strictly smaller positive parts
    let tmax_p = p - k + 1;
    let tmax = if bound < tmax_p {
        bound
    } else {
        tmax_p
    };
    let mut out: Vec<Vec<usize>> = Vec::new();
    let mut t: usize = 1;
    while t <= tmax
        invariant
            k >= 2,
            k <= p,
            1 <= t,
            t <= tmax + 1,
            tmax == if bound < p - k + 1 {
                bound as int
            } else {
                p - k + 1
            },
            forall|i: int|
                0 <= i < out@.len() ==> dec_partition(
                    (#[trigger] out@[i])@,
                    p as int,
                    k as int,
                    bound as int,
                ) && out@[i]@[0] < t,
            forall|s: Seq<usize>|
                #[trigger] dec_partition(s, p as int, k as int, bound as int) && s[0] < t
                    ==> exists|i: int| 0 <= i < out@.len() && out@[i]@ == s,
            forall|i: int, j: int| 0 <= i < j < out@.len() ==> out@[i]@ != out@[j]@,
        decreases tmax + 1 - t,
    {
        let sub = distribute(p - t, k - 1, t - 1);
        let ghost out0 = out@;
        let mut j: usize = 0;
        while j < sub.len()
            invariant
                k >= 2,
                t >= 1,
                t <= p,
                t <= bound,
                j <= sub@.len(),
                forall|i: int|
                    0 <= i < sub@.len() ==> dec_partition(
                        (#[trigger] sub@[i])@,
                        p - t,
                        k - 1,
                        t - 1,
                    ),
                forall|s: Seq<usize>|
                    #[trigger] dec_partition(s, p - t, k - 1, t - 1) ==> exists|i: int|
                        0 <= i < sub@.len() && sub@[i]@ == s,
                forall|i1: int, i2: int| 0 <= i1 < i2 < sub@.len() ==> sub@[i1]@ != sub@[i2]@,
                out@.len() == out0.len() + j,
                forall|i: int| 0 <= i < out0.len() ==> #[trigger] out@[i] == out0[i],
                forall|i: int|
                    0 <= i < out0.len() ==> dec_partition(
                        (#[trigger] out@[i])@,
                        p as int,
                        k as int,
                        bound as int,
                    ) && out@[i]@[0] < t,
                forall|i: int|
                    out0.len() <= i < out@.len() ==> (#[trigger] out@[i])@ == seq![t] + sub@[i
                        - out0.len()]@,
                forall|i: int|
                    out0.len() <= i < out@.len() ==> dec_partition(
                        (#[trigger] out@[i])@,
                        p as int,
                        k as int,
                        bound as int,
                    ),
                forall|i: int, j2: int| 0 <= i < j2 < out@.len() ==> out@[i]@ != out@[j2]@,
            decreases sub@.len() - j,
        {
            let u = &sub[j];
            let mut w: Vec<usize> = Vec::new();
            w.push(t);
            let mut m: usize = 0;
            while m < u.len()
                invariant
                    m <= u@.len(),
                    w@.len() == 1 + m,
                    w@[0] == t,
                    forall|x: int| 0 <= x < m ==> w@[1 + x] == #[trigger] u@[x],
                decreases u@.len() - m,
            {
                w.push(u[m]);
                m = m + 1;
            }
            proof {
                assert(w@ =~= seq![t] + u@);
            }
            let ghost outpre = out@;
            out.push(w);
            proof {
                // the new row is a partition of p with first part t
                assert(dec_partition(sub@[j as int]@, p - t, k - 1, t - 1));
                lemma_cons_partition(t, sub@[j as int]@, p as int, k as int, bound as int);
                // distinct from everything already there
                assert forall|i: int, j2: int| 0 <= i < j2 < out@.len() implies out@[i]@
                    != out@[j2]@ by {
                    if j2 == out@.len() - 1 {
                        if i < out0.len() {
                            assert(out@[i]@[0] < t && out@[j2]@[0] == t);
                        } else {
                            assert(out@[i]@ == seq![t] + sub@[i - out0.len()]@);
                            assert(sub@[i - out0.len()]@ != sub@[j as int]@);
                            lemma_cons_distinct(t, sub@[i - out0.len()]@, sub@[j as int]@);
                        }
                    }
                }
            }
            j = j + 1;
        }
        proof {
            // everything with first part exactly t is now present
            assert forall|s: Seq<usize>|
                #[trigger] dec_partition(s, p as int, k as int, bound as int) && s[0] < t + 1
                implies exists|i: int| 0 <= i < out@.len() && out@[i]@ == s by {
                if s[0] == t {
                    lemma_split_partition(s, p as int, k as int, bound as int);
                    let tail = s.drop_first();
                    assert(dec_partition(tail, p - t, k - 1, t - 1));
                    let i = choose|i: int| 0 <= i < sub@.len() && sub@[i]@ == tail;
                    assert(out@[out0.len() + i]@ == seq![t] + sub@[i]@);
                    assert(seq![t] + sub@[i]@ =~= s);
                    assert(out@[out0.len() + i]@ == s);
                } else {
                    assert(s[0] < t);
                    let i0 = choose|i: int| 0 <= i < out0.len() && out0[i]@ == s;
                    assert(out@[i0] == out0[i0]);
                }
            }
        }
        t = t + 1;
    }
    proof {
        // a valid partition's first part is within the explored range
        assert forall|s: Seq<usize>|
            #[trigger] dec_partition(s, p as int, k as int, bound as int) implies exists|i: int|
            0 <= i < out@.len() && out@[i]@ == s by {
            let tail = s.drop_first();
            assert(sum_of(s) == s[0] + sum_of(tail));
            assert forall|i: int| 0 <= i < tail.len() implies (#[trigger] tail[i]) > 0 by {
                assert(tail[i] == s[i + 1]);
            }
            lemma_sum_at_least_len(tail);
            assert(s[0] <= p - k + 1);
            assert(s[0] < t);
        }
    }
    out
}

/// The partition generator property: a listing of the strictly decreasing
/// partitions of `p` into exactly `k` positive parts (first part at most
/// `bound`) that is sound, complete and free of duplicates — as
/// [`distribute`]'s contract guarantees of its result — lists exactly the
/// set of such partitions, and its length is their number.
pub proof fn lemma_partition_count(rs: Seq<Seq<usize>>, p: int, k: int, bound: int)
    requires
        forall|i: int| 0 <= i < rs.len() ==> dec_partition(#[trigger] rs[i], p, k, bound),
        forall|s: Seq<usize>| #[trigger] dec_partition(s, p, k, bound) ==> rs.contains(s),
        forall|i: int, j: int| 0 <= i < j < rs.len() ==> rs[i] != rs[j],
    ensures
        rs.to_set() == Set::new(|s: Seq<usize>| dec_partition(s, p, k, bound)),
        rs.len() == Set::new(|s: Seq<usize>| dec_partition(s, p, k, bound)).len(),
{
    assert(rs.no_duplicates());
    rs.unique_seq_to_set();
    assert(rs.to_set() =~= Set::new(|s: Seq<usize>| dec_partition(s, p, k, bound))) by {
        assert forall|s: Seq<usize>| rs.to_set().contains(s) implies dec_partition(
            s,
            p,
            k,
            bound,
        ) by {
            let i = choose|i: int| 0 <= i < rs.len() && rs[i] == s;
            assert(dec_partition(rs[i], p, k, bound));
        }
    }
}

// ---------------------------------------------------------------------------
// The action enumerator
// ---------------------------------------------------------------------------

pub open spec fn min_i(a: int, b: int) -> int {
    if a < b {
        a
    } else {
        b
    }
}

/// Squares available ahead of `pos` towards the board edge in `dir`.
pub open spec fn dist_to_edge(n: int, dir: Direction, pos: Position) -> int {
    match dir {
        Direction::North => n - 1 - pos.row,
        Direction::South => pos.row as int,
        Direction::East => n - 1 - pos.col,
        Direction::West => pos.col as int,
    }
}

/// The placements the enumerator emits: a fresh piece of a kind still in
/// reserve on any free square.
pub open spec fn place_gen(b: Board, player: Color, pos: Position, kind: PieceKind) -> bool {
    &&& b.spec_valid_pos(pos)
    &&& b.stack_at(pos.row as int, pos.col as int).len() == 0
    &&& b.spec_count(player, kind) > 0
}

/// The slides the enumerator emits from `pos` along `dir`: the mover tops
/// the source stack, and the carry list is a strictly decreasing positive
/// list whose total stays under `h = min(height, N)` and whose length stays
/// under `min(h, d)`, `d` being the room to the edge.  These are
/// structurally valid candidates; compatibility against opposing stacks is
/// not rechecked here.
pub open spec fn slide_gen(
    b: Board,
    player: Color,
    pos: Position,
    dir: Direction,
    s: Seq<usize>,
) -> bool {
    let stack = b.stack_at(pos.row as int, pos.col as int);
    let h = min_i(stack.len() as int, b.spec_size());
    let d = dist_to_edge(b.spec_size(), dir, pos);
    &&& b.spec_valid_pos(pos)
    &&& top_color(stack) == Some(player)
    &&& carries_shape_ok(s)
    &&& sum_of(s) < h
    &&& s.len() < min_i(h, d)
}

/// What the enumerator promises of each emitted action.
pub open spec fn gen_action(b: Board, player: Color, a: Action) -> bool {
    match a {
        Action::Place(pos, kind) => place_gen(b, player, pos, kind),
        Action::Slide(pos, dir, ov) => match ov {
            Some(v) => slide_gen(b, player, pos, dir, v@),
            None => false,
        },
    }
}

/// `a` is the slide from `pos` along `dir` with exactly the carry list `s`.
pub open spec fn is_slide_with(a: Action, pos: Position, dir: Direction, s: Seq<usize>) -> bool {
    match a {
        Action::Slide(p2, d2, ov) => p2 == pos && d2 == dir && match ov {
            Some(v) => v@ == s,
            None => false,
        },
        _ => false,
    }
}

/// The square `pos` comes before `(r, c)` in row-major order.
pub open spec fn rm_before(pos: Position, r: int, c: int) -> bool {
    pos.row < r || (pos.row == r && pos.col < c)
}

/// Read-only analysis over a board snapshot.
pub struct Analyzer<'a> {
    board: &'a Board,
}

impl<'a> Analyzer<'a> {
    pub closed spec fn spec_board(&self) -> Board {
        *self.board
    }

    pub fn for_board(board: &'a Board) -> (a: Analyzer<'a>)
        ensures
            a.spec_board() == *board,
    {
        Analyzer { board }
    }

    /// How many squares each side's colour tops, whatever the piece kind.
    pub fn absolute_road_dominance(&self) -> (m: Metric<u16>)
        requires
            self.spec_board().wf(),
        ensures
            m.spec_of(Color::Red) == tops_in_rows(
                self.spec_board(),
                Color::Red,
                self.spec_board().spec_size(),
            ),
            m.spec_of(Color::Blk) == tops_in_rows(
                self.spec_board(),
                Color::Blk,
                self.spec_board().spec_size(),
            ),
    {
        let ghost b = self.spec_board();
        let n = self.board.size();
        let mut red: u16 = 0;
        let mut blk: u16 = 0;
        let mut r: usize = 0;
        while r < n
            invariant
                r <= n,
                n as int == b.spec_size(),
                b.wf(),
                b == self.spec_board(),
                red == tops_in_rows(b, Color::Red, r as int),
                blk == tops_in_rows(b, Color::Blk, r as int),
                red as int <= r as int * n as int,
                blk as int <= r as int * n as int,
            decreases n - r,
        {
            let mut c0: usize = 0;
            while c0 < n
                invariant
                    r < n,
                    c0 <= n,
                    n as int == b.spec_size(),
                    b.wf(),
                    b == self.spec_board(),
                    red == tops_in_rows(b, Color::Red, r as int) + tops_in_row(
                        b,
                        Color::Red,
                        r as int,
                        c0 as int,
                    ),
                    blk == tops_in_rows(b, Color::Blk, r as int) + tops_in_row(
                        b,
                        Color::Blk,
                        r as int,
                        c0 as int,
                    ),
                    red as int <= r as int * n as int + c0 as int,
                    blk as int <= r as int * n as int + c0 as int,
                decreases n - c0,
            {
                proof {
                    lemma_tops_in_rows_bound(b, Color::Red, r as int);
                    lemma_tops_in_rows_bound(b, Color::Blk, r as int);
                    assert((r as int) * (n as int) <= 8 * 8) by (nonlinear_arith)
                        requires
                            0 <= (r as int) < (n as int),
                            (n as int) <= 8,
                    ;
                }
                let pos = Position::new(r, c0);
                match self.board.at(pos).color() {
                    Some(Color::Red) => {
                        red = red + 1;
                    },
                    Some(Color::Blk) => {
                        blk = blk + 1;
                    },
                    None => {},
                }
                c0 = c0 + 1;
            }
            proof {
                assert((r as int + 1) * n as int == r as int * n as int + n as int)
                    by (nonlinear_arith);
            }
            r = r + 1;
        }
        Metric::for_values(red, blk)
    }

    /// Flat-and-standing stones each side still has in reserve.
    pub fn stones_left(&self) -> (m: Metric<u16>)
        ensures
            m.spec_of(Color::Red) == self.spec_board().spec_count(Color::Red, PieceKind::Stone),
            m.spec_of(Color::Blk) == self.spec_board().spec_count(Color::Blk, PieceKind::Stone),
    {
        let red = self.board.piece_count(Color::Red, PieceKind::Stone);
        let blk = self.board.piece_count(Color::Blk, PieceKind::Stone);
        Metric::for_values(red, blk)
    }

    /// Capstones each side still has in reserve.
    pub fn caps_left(&self) -> (m: Metric<u16>)
        ensures
            m.spec_of(Color::Red) == self.spec_board().spec_count(Color::Red, PieceKind::CapStone),
            m.spec_of(Color::Blk) == self.spec_board().spec_count(Color::Blk, PieceKind::CapStone),
    {
        let red = self.board.piece_count(Color::Red, PieceKind::CapStone);
        let blk = self.board.piece_count(Color::Blk, PieceKind::CapStone);
        Metric::for_values(red, blk)
    }

    /// Every structurally valid slide from `pos` along `dir`, one action
    /// per strictly decreasing carry list within the height and edge limits.
    #[verifier::rlimit(100)]
    fn make_slides(&self, player: Color, pos: Position, dir: Direction) -> (r: Vec<Action>)
        requires
            self.spec_board().wf(),
            self.spec_board().spec_valid_pos(pos),
            top_color(self.spec_board().stack_at(pos.row as int, pos.col as int)) == Some(player),
        ensures
            forall|i: int|
                0 <= i < r@.len() ==> gen_action(self.spec_board(), player, #[trigger] r@[i]),
            forall|s: Seq<usize>|
                #[trigger] slide_gen(self.spec_board(), player, pos, dir, s) ==> exists|i: int|
                    0 <= i < r@.len() && is_slide_with(r@[i], pos, dir, s),
    {
        let ghost b = self.spec_board();
        let n = self.board.size();
        let stack_len = self.board.at(pos).len();
        let h = if stack_len < n {
            stack_len
        } else {
            n
        };
        let d = match dir {
            Direction::North => n - 1 - pos.row,
            Direction::South => pos.row,
            Direction::East => n - 1 - pos.col,
            Direction::West => pos.col,
        };
        let kmax = if h < d {
            h
        } else {
            d
        };
        proof {
            assert(h as int == min_i(b.stack_at(pos.row as int, pos.col as int).len() as int, b.spec_size()));
            assert(kmax as int == min_i(h as int, dist_to_edge(b.spec_size(), dir, pos)));
        }
        let mut out: Vec<Action> = Vec::new();
        proof {
            assert forall|s: Seq<usize>|
                #[trigger] slide_gen(b, player, pos, dir, s) && sum_of(s) < 1 implies false by {
                lemma_sum_at_least_len(s);
            }
        }
        let mut p: usize = 1;
        while p < h
            invariant
                1 <= p,
                p <= h || h == 0,
                b == self.spec_board(),
                b.wf(),
                b.spec_valid_pos(pos),
                top_color(b.stack_at(pos.row as int, pos.col as int)) == Some(player),
                h as int == min_i(b.stack_at(pos.row as int, pos.col as int).len() as int, b.spec_size()),
                kmax as int == min_i(h as int, dist_to_edge(b.spec_size(), dir, pos)),
                forall|i: int| 0 <= i < out@.len() ==> gen_action(b, player, #[trigger] out@[i]),
                forall|s: Seq<usize>|
                    #[trigger] slide_gen(b, player, pos, dir, s) && sum_of(s) < p ==> exists|i: int|
                        0 <= i < out@.len() && is_slide_with(out@[i], pos, dir, s),
            decreases h - p,
        {
            let mut kk: usize = 1;
            while kk < kmax
                invariant
                    1 <= kk,
                    kk <= kmax || kmax == 0,
                    1 <= p < h,
                    b == self.spec_board(),
                    b.wf(),
                    b.spec_valid_pos(pos),
                    top_color(b.stack_at(pos.row as int, pos.col as int)) == Some(player),
                    h as int == min_i(b.stack_at(pos.row as int, pos.col as int).len() as int, b.spec_size()),
                    kmax as int == min_i(h as int, dist_to_edge(b.spec_size(), dir, pos)),
                    forall|i: int| 0 <= i < out@.len() ==> gen_action(b, player, #[trigger] out@[i]),
                    forall|s: Seq<usize>|
                        #[trigger] slide_gen(b, player, pos, dir, s) && sum_of(s) < p ==> exists|i: int|
                            0 <= i < out@.len() && is_slide_with(out@[i], pos, dir, s),
                    forall|s: Seq<usize>|
                        #[trigger] slide_gen(b, player, pos, dir, s) && sum_of(s) == p && s.len()
                            < kk ==> exists|i: int|
                            0 <= i < out@.len() && is_slide_with(out@[i], pos, dir, s),
                decreases kmax - kk,
            {
                let mut parts = distribute(p, kk, p);
                let ghost parts0 = parts@;
                while parts.len() != 0
                    invariant
                        1 <= kk < kmax,
                        1 <= p < h,
                        b == self.spec_board(),
                        b.wf(),
                        b.spec_valid_pos(pos),
                        top_color(b.stack_at(pos.row as int, pos.col as int)) == Some(player),
                        h as int == min_i(b.stack_at(pos.row as int, pos.col as int).len() as int, b.spec_size()),
                        kmax as int == min_i(h as int, dist_to_edge(b.spec_size(), dir, pos)),
                        parts@.len() <= parts0.len(),
                        forall|x: int| 0 <= x < parts@.len() ==> #[trigger] parts@[x] == parts0[x],
                        forall|x: int|
                            0 <= x < parts0.len() ==> dec_partition(
                                (#[trigger] parts0[x])@,
                                p as int,
                                kk as int,
                                p as int,
                            ),
                        forall|s: Seq<usize>|
                            #[trigger] dec_partition(s, p as int, kk as int, p as int)
                                ==> exists|x: int| 0 <= x < parts0.len() && parts0[x]@ == s,
                        forall|i: int|
                            0 <= i < out@.len() ==> gen_action(b, player, #[trigger] out@[i]),
                        forall|s: Seq<usize>|
                            #[trigger] slide_gen(b, player, pos, dir, s) && sum_of(s) < p
                                ==> exists|i: int|
                                0 <= i < out@.len() && is_slide_with(out@[i], pos, dir, s),
                        forall|s: Seq<usize>|
                            #[trigger] slide_gen(b, player, pos, dir, s) && sum_of(s) == p
                                && s.len() < kk ==> exists|i: int|
                                0 <= i < out@.len() && is_slide_with(out@[i], pos, dir, s),
                        forall|x: int|
                            parts@.len() <= x < parts0.len() ==> exists|i: int|
                                0 <= i < out@.len() && is_slide_with(
                                    out@[i],
                                    pos,
                                    dir,
                                    (#[trigger] parts0[x])@,
                                ),
                    decreases parts@.len(),
                {
                    let popped = parts.pop();
                    let v = match popped {
                        Some(v) => v,
                        None => {
                            proof {
                                assert(false);
                            }
                            Vec::new()
                        },
                    };
                    let ghost x = parts@.len() as int;
                    proof {
                        assert(v == parts0[x]);
                        assert(dec_partition(parts0[x]@, p as int, kk as int, p as int));
                    }
                    let ghost outp = out@;
                    out.push(Action::Slide(pos, dir, Some(v)));
                    proof {
                        assert(is_slide_with(out@[out@.len() - 1], pos, dir, parts0[x]@));
                        assert(gen_action(b, player, out@[out@.len() - 1]));
                        assert(forall|i: int| 0 <= i < outp.len() ==> #[trigger] out@[i] == outp[i]);
                        assert forall|s2: Seq<usize>|
                            #[trigger] slide_gen(b, player, pos, dir, s2) && sum_of(s2) < p
                            implies exists|i: int|
                            0 <= i < out@.len() && is_slide_with(out@[i], pos, dir, s2) by {
                            let i = choose|i: int|
                                0 <= i < outp.len() && is_slide_with(outp[i], pos, dir, s2);
                            assert(out@[i] == outp[i]);
                        }
                        assert forall|s2: Seq<usize>|
                            #[trigger] slide_gen(b, player, pos, dir, s2) && sum_of(s2) == p
                                && s2.len() < kk implies exists|i: int|
                            0 <= i < out@.len() && is_slide_with(out@[i], pos, dir, s2) by {
                            let i = choose|i: int|
                                0 <= i < outp.len() && is_slide_with(outp[i], pos, dir, s2);
                            assert(out@[i] == outp[i]);
                        }
                        assert forall|x2: int|
                            parts@.len() <= x2 < parts0.len() implies exists|i: int|
                            0 <= i < out@.len() && is_slide_with(
                                out@[i],
                                pos,
                                dir,
                                (#[trigger] parts0[x2])@,
                            ) by {
                            if x2 == x {
                                assert(is_slide_with(out@[out@.len() - 1], pos, dir, parts0[x2]@));
                            } else {
                                let i = choose|i: int|
                                    0 <= i < outp.len() && is_slide_with(
                                        outp[i],
                                        pos,
                                        dir,
                                        parts0[x2]@,
                                    );
                                assert(out@[i] == outp[i]);
                            }
                        }
                    }
                }
                proof {
                    // every partition of p into kk parts is now an action
                    assert forall|s: Seq<usize>|
                        #[trigger] slide_gen(b, player, pos, dir, s) && sum_of(s) == p && s.len()
                            < kk + 1 implies exists|i: int|
                        0 <= i < out@.len() && is_slide_with(out@[i], pos, dir, s) by {
                        if s.len() == kk {
                            lemma_first_le_sum(s);
                            assert(dec_partition(s, p as int, kk as int, p as int));
                            let x = choose|x: int| 0 <= x < parts0.len() && parts0[x]@ == s;
                        }
                    }
                }
                kk = kk + 1;
            }
            proof {
                // every carry list totalling p fits within kmax parts
                assert forall|s: Seq<usize>|
                    #[trigger] slide_gen(b, player, pos, dir, s) && sum_of(s) < p + 1
                    implies exists|i: int| 0 <= i < out@.len() && is_slide_with(
                    out@[i],
                    pos,
                    dir,
                    s,
                ) by {
                    if sum_of(s) == p {
                        assert(s.len() < min_i(h as int, dist_to_edge(b.spec_size(), dir, pos)));
                        assert(s.len() < kmax);
                    }
                }
            }
            p = p + 1;
        }
        proof {
            // a generated carry list totals at least 1 and under h
            assert forall|s: Seq<usize>|
                #[trigger] slide_gen(b, player, pos, dir, s) implies exists|i: int|
                0 <= i < out@.len() && is_slide_with(out@[i], pos, dir, s) by {
                lemma_sum_at_least_len(s);
                assert(1 <= sum_of(s));
                assert(sum_of(s) < h);
            }
        }
        out
    }

    /// Every candidate action for `player`: a stone and a standing stone on
    /// each free square while stones remain, a capstone on each free square
    /// while one remains, and every structurally valid slide from each stack
    /// the player tops.  Callers needing full legality against opposing
    /// stacks still filter through the legality checker.
    #[verifier::rlimit(100)]
    pub fn applicable_actions(&self, player: Color) -> (r: Vec<Action>)
        requires
            self.spec_board().wf(),
        ensures
            forall|i: int|
                0 <= i < r@.len() ==> gen_action(self.spec_board(), player, #[trigger] r@[i]),
            forall|pos: Position, kind: PieceKind|
                #[trigger] place_gen(self.spec_board(), player, pos, kind) ==> exists|i: int|
                    0 <= i < r@.len() && r@[i] == Action::Place(pos, kind),
            forall|pos: Position, dir: Direction, s: Seq<usize>|
                #[trigger] slide_gen(self.spec_board(), player, pos, dir, s) ==> exists|i: int|
                    0 <= i < r@.len() && is_slide_with(r@[i], pos, dir, s),
    {
        let ghost b = self.spec_board();
        let n = self.board.size();
        let have_stones = self.board.piece_count(player, PieceKind::Stone) > 0;
        let have_caps = self.board.piece_count(player, PieceKind::CapStone) > 0;
        let mut out: Vec<Action> = Vec::new();
        let mut r: usize = 0;
        while r < n
            invariant
                r <= n,
                b == self.spec_board(),
                b.wf(),
                n as int == b.spec_size(),
                have_stones == (b.spec_count(player, PieceKind::Stone) > 0),
                have_caps == (b.spec_count(player, PieceKind::CapStone) > 0),
                forall|i: int| 0 <= i < out@.len() ==> gen_action(b, player, #[trigger] out@[i]),
                forall|pos: Position, kind: PieceKind|
                    #[trigger] place_gen(b, player, pos, kind) && rm_before(pos, r as int, 0)
                        ==> exists|i: int|
                        0 <= i < out@.len() && out@[i] == Action::Place(pos, kind),
                forall|pos: Position, dir: Direction, s: Seq<usize>|
                    #[trigger] slide_gen(b, player, pos, dir, s) && rm_before(pos, r as int, 0)
                        ==> exists|i: int|
                        0 <= i < out@.len() && is_slide_with(out@[i], pos, dir, s),
            decreases n - r,
        {
            let mut c0: usize = 0;
            while c0 < n
                invariant
                    r < n,
                    c0 <= n,
                    b == self.spec_board(),
                    b.wf(),
                    n as int == b.spec_size(),
                    have_stones == (b.spec_count(player, PieceKind::Stone) > 0),
                    have_caps == (b.spec_count(player, PieceKind::CapStone) > 0),
                    forall|i: int|
                        0 <= i < out@.len() ==> gen_action(b, player, #[trigger] out@[i]),
                    forall|pos: Position, kind: PieceKind|
                        #[trigger] place_gen(b, player, pos, kind) && rm_before(
                            pos,
                            r as int,
                            c0 as int,
                        ) ==> exists|i: int|
                            0 <= i < out@.len() && out@[i] == Action::Place(pos, kind),
                    forall|pos: Position, dir: Direction, s: Seq<usize>|
                        #[trigger] slide_gen(b, player, pos, dir, s) && rm_before(
                            pos,
                            r as int,
                            c0 as int,
                        ) ==> exists|i: int|
                            0 <= i < out@.len() && is_slide_with(out@[i], pos, dir, s),
                decreases n - c0,
            {
                let pos = Position::new(r, c0);
                let ghost out_head = out@;
                let stack = self.board.at(pos);
                let ghost base = out@.len() as int;
                if stack.is_empty() {
                    if have_stones {
                        out.push(Action::Place(pos, PieceKind::Stone));
                        out.push(Action::Place(pos, PieceKind::StandingStone));
                    }
                    if have_caps {
                        out.push(Action::Place(pos, PieceKind::CapStone));
                    }
                    proof {
                        assert forall|kind: PieceKind|
                            place_gen(b, player, pos, kind) implies exists|i: int|
                            0 <= i < out@.len() && out@[i] == Action::Place(pos, kind) by {
                            if kind == PieceKind::CapStone {
                                let i = base + if have_stones {
                                    2int
                                } else {
                                    0int
                                };
                                assert(out@[i] == Action::Place(pos, kind));
                            } else if kind == PieceKind::Stone {
                                assert(out@[base] == Action::Place(pos, kind));
                            } else {
                                assert(out@[base + 1] == Action::Place(pos, kind));
                            }
                        }
                    }
                } else {
                    let owned = match stack.color() {
                        Some(cc) => cc == player,
                        None => false,
                    };
                    if owned {
                        let mut ms = self.make_slides(player, pos, Direction::North);
                        let ghost base_n = out@.len() as int;
                        let ghost msn = ms@;
                        out.append(&mut ms);
                        let mut ms = self.make_slides(player, pos, Direction::South);
                        let ghost base_s = out@.len() as int;
                        let ghost mss = ms@;
                        out.append(&mut ms);
                        let mut ms = self.make_slides(player, pos, Direction::East);
                        let ghost base_e = out@.len() as int;
                        let ghost mse = ms@;
                        out.append(&mut ms);
                        let mut ms = self.make_slides(player, pos, Direction::West);
                        let ghost base_w = out@.len() as int;
                        let ghost msw = ms@;
                        out.append(&mut ms);
                        proof {
                            assert forall|dir: Direction, s: Seq<usize>|
                                #[trigger] slide_gen(b, player, pos, dir, s) implies exists|i: int|
                                0 <= i < out@.len() && is_slide_with(out@[i], pos, dir, s) by {
                                match dir {
                                    Direction::North => {
                                        let i = choose|i: int|
                                            0 <= i < msn.len() && is_slide_with(
                                                msn[i],
                                                pos,
                                                dir,
                                                s,
                                            );
                                        assert(out@[base_n + i] == msn[i]);
                                    },
                                    Direction::South => {
                                        let i = choose|i: int|
                                            0 <= i < mss.len() && is_slide_with(
                                                mss[i],
                                                pos,
                                                dir,
                                                s,
                                            );
                                        assert(out@[base_s + i] == mss[i]);
                                    },
                                    Direction::East => {
                                        let i = choose|i: int|
                                            0 <= i < mse.len() && is_slide_with(
                                                mse[i],
                                                pos,
                                                dir,
                                                s,
                                            );
                                        assert(out@[base_e + i] == mse[i]);
                                    },
                                    Direction::West => {
                                        let i = choose|i: int|
                                            0 <= i < msw.len() && is_slide_with(
                                                msw[i],
                                                pos,
                                                dir,
                                                s,
                                            );
                                        assert(out@[base_w + i] == msw[i]);
                                    },
                                }
                            }
                        }
                    }
                }
                proof {
                    // earlier squares keep their witnesses; the freshly
                    // handled square joins the covered prefix
                    assert(forall|i: int|
                        0 <= i < out_head.len() ==> #[trigger] out@[i] == out_head[i]);
                    assert forall|pos2: Position, kind: PieceKind|
                        #[trigger] place_gen(b, player, pos2, kind) && rm_before(
                            pos2,
                            r as int,
                            c0 + 1,
                        ) implies exists|i: int|
                        0 <= i < out@.len() && out@[i] == Action::Place(pos2, kind) by {
                        if pos2.row == r as int && pos2.col == c0 as int {
                            assert(pos2 == pos);
                        } else {
                            assert(rm_before(pos2, r as int, c0 as int));
                            let i = choose|i: int|
                                0 <= i < out_head.len() && out_head[i] == Action::Place(
                                    pos2,
                                    kind,
                                );
                            assert(out@[i] == out_head[i]);
                        }
                    }
                    assert forall|pos2: Position, dir: Direction, s: Seq<usize>|
                        #[trigger] slide_gen(b, player, pos2, dir, s) && rm_before(
                            pos2,
                            r as int,
                            c0 + 1,
                        ) implies exists|i: int|
                        0 <= i < out@.len() && is_slide_with(out@[i], pos2, dir, s) by {
                        if pos2.row == r as int && pos2.col == c0 as int {
                            assert(pos2 == pos);
                        } else {
                            assert(rm_before(pos2, r as int, c0 as int));
                            let i = choose|i: int|
                                0 <= i < out_head.len() && is_slide_with(
                                    out_head[i],
                                    pos2,
                                    dir,
                                    s,
                                );
                            assert(out@[i] == out_head[i]);
                        }
                    }
                }
                c0 = c0 + 1;
            }
            r = r + 1;
        }
        proof {
            assert forall|pos: Position, kind: PieceKind|
                #[trigger] place_gen(b, player, pos, kind) implies rm_before(
                pos,
                n as int,
                0,
            ) by {}
            assert forall|pos: Position, dir: Direction, s: Seq<usize>|
                #[trigger] slide_gen(b, player, pos, dir, s) implies rm_before(
                pos,
                n as int,
                0,
            ) by {}
        }
        out
    }

    /// The tallest stack each side tops (0 where a side tops no stack).
    pub fn highest_stack(&self) -> (m: Metric<usize>)
        requires
            self.spec_board().wf(),
        ensures
            m.spec_of(Color::Red) == highest_in_rows(
                self.spec_board(),
                Color::Red,
                self.spec_board().spec_size(),
            ),
            m.spec_of(Color::Blk) == highest_in_rows(
                self.spec_board(),
                Color::Blk,
                self.spec_board().spec_size(),
            ),
    {
        let ghost b = self.spec_board();
        let n = self.board.size();
        let mut red: usize = 0;
        let mut blk: usize = 0;
        let mut r: usize = 0;
        while r < n
            invariant
                r <= n,
                n as int == b.spec_size(),
                b.wf(),
                b == self.spec_board(),
                red == highest_in_rows(b, Color::Red, r as int),
                blk == highest_in_rows(b, Color::Blk, r as int),
            decreases n - r,
        {
            let mut c0: usize = 0;
            while c0 < n
                invariant
                    r < n,
                    c0 <= n,
                    n as int == b.spec_size(),
                    b.wf(),
                    b == self.spec_board(),
                    red as int == if highest_in_row(b, Color::Red, r as int, c0 as int)
                        > highest_in_rows(b, Color::Red, r as int) {
                        highest_in_row(b, Color::Red, r as int, c0 as int)
                    } else {
                        highest_in_rows(b, Color::Red, r as int)
                    },
                    blk as int == if highest_in_row(b, Color::Blk, r as int, c0 as int)
                        > highest_in_rows(b, Color::Blk, r as int) {
                        highest_in_row(b, Color::Blk, r as int, c0 as int)
                    } else {
                        highest_in_rows(b, Color::Blk, r as int)
                    },
                decreases n - c0,
            {
                let pos = Position::new(r, c0);
                let stack = self.board.at(pos);
                let h = stack.len();
                match stack.color() {
                    Some(Color::Red) => {
                        if h > red {
                            red = h;
                        }
                    },
                    Some(Color::Blk) => {
                        if h > blk {
                            blk = h;
                        }
                    },
                    None => {},
                }
                c0 = c0 + 1;
            }
            r = r + 1;
        }
        Metric::for_values(red, blk)
    }
}

} // verus!
