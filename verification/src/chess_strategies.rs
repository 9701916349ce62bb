//! Strategies for the chess variants of Sudoku, in which cells a king's or
//! a knight's move apart may not hold the same digit.

use crate::grid::{Cell, CellView, Grid, GridView};
use crate::progress::lemma_change_adds_up;
use crate::strike::{
    lemma_strike_cell, lemma_strike_nothing, lemma_strike_refines, lemma_strike_same,
    lemma_strike_twice, single_hit,
};
use vstd::prelude::*;

verus! {

/// The two chess pieces whose moves can bind cells.
#[derive(Clone, Copy, Debug)]
pub enum ChessMove {
    King,
    Knight,
}

/// Positions `p` and `q` are a king's move apart: they differ, and by at
/// most one row and one column.
pub open spec fn king_adjacent(p: int, q: int) -> bool {
    let dr = p / 9 - q / 9;
    let dc = p % 9 - q % 9;
    p != q && -1 <= dr <= 1 && -1 <= dc <= 1
}

/// Positions `p` and `q` are a knight's move apart: one row and two columns,
/// or two rows and one column.
pub open spec fn knight_adjacent(p: int, q: int) -> bool {
    let dr = p / 9 - q / 9;
    let dc = p % 9 - q % 9;
    ((dr == 1 || dr == -1) && (dc == 2 || dc == -2)) || ((dr == 2 || dr == -2) && (dc == 1 || dc
        == -1))
}

impl ChessMove {
    /// Positions `p` and `q` are one move of this piece apart.
    pub open spec fn reaches(self, p: int, q: int) -> bool {
        match self {
            ChessMove::King => king_adjacent(p, q),
            ChessMove::Knight => knight_adjacent(p, q),
        }
    }
}

/// The cell at position `q` is solved with digit `d`.
pub open spec fn solved_with(g: GridView, q: int, d: int) -> bool {
    g.cells[q] == CellView::Solved(d)
}

/// One of the first `upto` cells is solved with digit `d` and a move away
/// from position `p`.
pub open spec fn attacked(g: GridView, piece: ChessMove, upto: int, p: int, d: int) -> bool {
    exists|q: int| 0 <= q < upto && piece.reaches(p, q) && #[trigger] solved_with(g, q, d)
}

/// What the solved cells among the first `upto` cells rule out.
pub open spec fn chess_hit(g: GridView, piece: ChessMove, upto: int) -> spec_fn(int, int) -> bool {
    |p: int, d: int| attacked(g, piece, upto, p, d)
}

/// The rule that names digit `n` one move away from position `q`.
spec fn move_hit(piece: ChessMove, q: int, n: int) -> spec_fn(int, int) -> bool {
    |p: int, e: int| e == n && piece.reaches(p, q)
}

/// `x` is `Some` of the number `v`.
spec fn names(x: Option<usize>, v: int) -> bool {
    x matches Some(w) && w == v
}

/// One of the first `upto` entries of `xs` names `v`.
spec fn listed(xs: Seq<Option<usize>>, v: int, upto: int) -> bool {
    exists|t: int| 0 <= t < upto && #[trigger] names(xs[t], v)
}

/// The rule that names digit `n` at the positions other than `q` whose row
/// is listed in the first `i` rows and whose column is listed, or whose row
/// is row `i` of the list and whose column is listed in the first `j` columns.
spec fn block_hit(
    rows: Seq<Option<usize>>,
    cols: Seq<Option<usize>>,
    q: int,
    n: int,
    i: int,
    j: int,
) -> spec_fn(int, int) -> bool {
    |p: int, e: int|
        e == n && p != q && ((listed(rows, p / 9, i) && listed(cols, p % 9, cols.len() as int))
            || (0 <= i < rows.len() && names(rows[i], p / 9) && listed(cols, p % 9, j)))
}

impl GridView {
    /// The grid in which every cell has lost the digits of the solved cells
    /// one move of the piece away from it.
    pub open spec fn exclude_by(self, piece: ChessMove) -> GridView {
        self.strike(chess_hit(self, piece, 81))
    }

    /// The grid after the king's-move rule has been applied.
    pub open spec fn kings(self) -> GridView {
        self.exclude_by(ChessMove::King)
    }

    /// The grid after the knight's-move rule has been applied.
    pub open spec fn knights(self) -> GridView {
        self.exclude_by(ChessMove::Knight)
    }
}

/// `x + other` if that is a row or column of the board.
pub fn sudoku_add(x: usize, other: usize) -> (sum: Option<usize>)
    ensures
        sum == if x + other < 9 {
            Some((x + other) as usize)
        } else {
            None
        },
{
    if x < 9 && other < 9 - x {
        Some(x + other)
    } else {
        None
    }
}

/// Clears digit `n` from every cell other than (`r`, `c`) whose row is
/// listed in `rows` and whose column is listed in `cols`.
fn strike_block(
    grid: &mut Grid,
    rows: &[Option<usize>],
    cols: &[Option<usize>],
    r: usize,
    c: usize,
    n: usize,
) -> (changed: bool)
    requires
        old(grid).wf(),
        r < 9,
        c < 9,
        n < 9,
        forall|t: int| 0 <= t < rows@.len() ==> (#[trigger] rows@[t] matches Some(v) ==> v < 9),
        forall|t: int| 0 <= t < cols@.len() ==> (#[trigger] cols@[t] matches Some(v) ==> v < 9),
    ensures
        final(grid).wf(),
        final(grid)@ == old(grid)@.strike(
            block_hit(rows@, cols@, r * 9 + c, n as int, rows@.len() as int, 0),
        ),
        changed == (final(grid)@ != old(grid)@),
{
    let ghost q = r * 9 + c;
    let ghost start = grid@;
    let mut changed = false;
    proof {
        let none = block_hit(rows@, cols@, q, n as int, 0, 0);
        assert forall|p: int, e: int| 0 <= p < 81 && 0 <= e < 9 && start.cells[p].has(e) implies !(
        #[trigger] none(p, e)) by {}
        lemma_strike_nothing(start, none);
    }
    let mut i: usize = 0;
    while i < rows.len()
        invariant
            i <= rows@.len(),
            n < 9,
            r < 9,
            c < 9,
            q == r * 9 + c,
            start == old(grid)@,
            start.wf(),
            grid.wf(),
            forall|t: int| 0 <= t < rows@.len() ==> (#[trigger] rows@[t] matches Some(v) ==> v < 9),
            forall|t: int| 0 <= t < cols@.len() ==> (#[trigger] cols@[t] matches Some(v) ==> v < 9),
            grid@ == start.strike(block_hit(rows@, cols@, q, n as int, i as int, 0)),
            changed == (grid@ != start),
        decreases rows@.len() - i,
    {
        let mut j: usize = 0;
        while j < cols.len()
            invariant
                i < rows@.len(),
                j <= cols@.len(),
                n < 9,
                r < 9,
                c < 9,
                q == r * 9 + c,
                start.wf(),
                grid.wf(),
                forall|t: int|
                    0 <= t < rows@.len() ==> (#[trigger] rows@[t] matches Some(v) ==> v < 9),
                forall|t: int|
                    0 <= t < cols@.len() ==> (#[trigger] cols@[t] matches Some(v) ==> v < 9),
                grid@ == start.strike(block_hit(rows@, cols@, q, n as int, i as int, j as int)),
                changed == (grid@ != start),
            decreases cols@.len() - j,
        {
            let ghost before = grid@;
            let ghost cur = block_hit(rows@, cols@, q, n as int, i as int, j as int);
            let ghost next = block_hit(rows@, cols@, q, n as int, i as int, j + 1);
            let mut target: Option<(usize, usize)> = None;
            if let Some(rr) = rows[i] {
                if let Some(cc) = cols[j] {
                    if !(rr == r && cc == c) {
                        target = Some((rr, cc));
                    }
                }
            }
            proof {
                assert forall|v: int| listed(cols@, v, j + 1) == (listed(cols@, v, j as int)
                    || names(cols@[j as int], v)) by {
                    if listed(cols@, v, j + 1) {
                        let t = choose|t: int| 0 <= t < j + 1 && #[trigger] names(cols@[t], v);
                        if t < j {
                            assert(listed(cols@, v, j as int));
                        }
                    }
                    if listed(cols@, v, j as int) {
                        let t = choose|t: int| 0 <= t < j && #[trigger] names(cols@[t], v);
                        assert(0 <= t < j + 1 && names(cols@[t], v));
                    }
                    if names(cols@[j as int], v) {
                        assert(listed(cols@, v, j + 1));
                    }
                }
            }
            match target {
                Some((rr, cc)) => {
                    assert(rows@[i as int] == Some(rr));
                    assert(cols@[j as int] == Some(cc));
                    let cleared = grid.strike_at(rr, cc, n);
                    proof {
                        let one = single_hit(rr * 9 + cc, n as int);
                        assert forall|p: int, e: int|
                            0 <= p < 81 && 0 <= e < 9 && start.cells[p].has(e) implies (
                        #[trigger] next(p, e)) == (cur(p, e) || one(p, e)) by {
                            assert(listed(cols@, p % 9, j + 1) == (listed(cols@, p % 9, j as int)
                                || names(cols@[j as int], p % 9)));
                            assert(p == (p / 9) * 9 + p % 9);
                        }
                        lemma_strike_twice(start, cur, one, next);
                        lemma_strike_refines(start, cur);
                        lemma_strike_refines(before, one);
                        lemma_change_adds_up(start, before, grid@);
                    }
                    changed = changed || cleared;
                },
                None => {
                    proof {
                        assert forall|p: int, e: int|
                            0 <= p < 81 && 0 <= e < 9 && start.cells[p].has(e) implies (
                        #[trigger] cur(p, e)) == next(p, e) by {
                            assert(listed(cols@, p % 9, j + 1) == (listed(cols@, p % 9, j as int)
                                || names(cols@[j as int], p % 9)));
                            assert(p == (p / 9) * 9 + p % 9);
                        }
                        lemma_strike_same(start, cur, next);
                    }
                },
            }
            j = j + 1;
        }
        proof {
            let done = block_hit(rows@, cols@, q, n as int, i as int, cols@.len() as int);
            let next = block_hit(rows@, cols@, q, n as int, i + 1, 0);
            assert forall|p: int, e: int|
                0 <= p < 81 && 0 <= e < 9 && start.cells[p].has(e) implies (#[trigger] done(p, e))
                == next(p, e) by {
                let v = p / 9;
                if listed(rows@, v, i + 1) {
                    let t = choose|t: int| 0 <= t < i + 1 && #[trigger] names(rows@[t], v);
                    if t < i {
                        assert(listed(rows@, v, i as int));
                    }
                }
                if listed(rows@, v, i as int) {
                    let t = choose|t: int| 0 <= t < i && #[trigger] names(rows@[t], v);
                    assert(0 <= t < i + 1 && names(rows@[t], v));
                }
                if names(rows@[i as int], v) {
                    assert(listed(rows@, v, i + 1));
                }
                assert(!listed(cols@, p % 9, 0));
            }
            lemma_strike_same(start, done, next);
        }
        i = i + 1;
    }
    changed
}

/// What a list of two entries lists.
proof fn lemma_listed_two(xs: Seq<Option<usize>>)
    requires
        xs.len() == 2,
    ensures
        forall|v: int| #[trigger] listed(xs, v, 2) == (names(xs[0], v) || names(xs[1], v)),
{
    assert forall|v: int| #[trigger] listed(xs, v, 2) == (names(xs[0], v) || names(xs[1], v)) by {
        if names(xs[0], v) || names(xs[1], v) {
            assert(listed(xs, v, 2));
        }
    }
}

/// What a list of three entries lists.
proof fn lemma_listed_three(xs: Seq<Option<usize>>)
    requires
        xs.len() == 3,
    ensures
        forall|v: int|
            #[trigger] listed(xs, v, 3) == (names(xs[0], v) || names(xs[1], v) || names(xs[2], v)),
{
    assert forall|v: int| #[trigger] listed(xs, v, 3) == (names(xs[0], v) || names(xs[1], v)
        || names(xs[2], v)) by {
        if names(xs[0], v) || names(xs[1], v) || names(xs[2], v) {
            assert(listed(xs, v, 3));
        }
    }
}

/// Clears digit `n` from the cells one move of the piece away from the cell
/// in row `r`, column `c`.
fn strike_moves(grid: &mut Grid, r: usize, c: usize, n: usize, piece: ChessMove) -> (changed: bool)
    requires
        old(grid).wf(),
        r < 9,
        c < 9,
        n < 9,
    ensures
        final(grid).wf(),
        final(grid)@ == old(grid)@.strike(move_hit(piece, r * 9 + c, n as int)),
        changed == (final(grid)@ != old(grid)@),
{
    let ghost start = grid@;
    let ghost q = r * 9 + c;
    let ghost all = move_hit(piece, q, n as int);
    match piece {
        ChessMove::King => {
            let rows = [r.checked_sub(1), Some(r), sudoku_add(r, 1)];
            let cols = [c.checked_sub(1), Some(c), sudoku_add(c, 1)];
            let changed = strike_block(grid, &rows, &cols, r, c, n);
            proof {
                let block = block_hit(rows@, cols@, q, n as int, 3, 0);
                lemma_listed_three(rows@);
                lemma_listed_three(cols@);
                assert forall|p: int, e: int|
                    0 <= p < 81 && 0 <= e < 9 && start.cells[p].has(e) implies (#[trigger] block(
                    p,
                    e,
                )) == all(p, e) by {
                    assert(!listed(cols@, p % 9, 0));
                    assert(listed(rows@, p / 9, 3) == (names(rows@[0], p / 9) || names(
                        rows@[1],
                        p / 9,
                    ) || names(rows@[2], p / 9)));
                    assert(listed(cols@, p % 9, 3) == (names(cols@[0], p % 9) || names(
                        cols@[1],
                        p % 9,
                    ) || names(cols@[2], p % 9)));
                }
                lemma_strike_same(start, block, all);
            }
            changed
        },
        ChessMove::Knight => {
            let far_rows = [r.checked_sub(2), sudoku_add(r, 2)];
            let near_cols = [c.checked_sub(1), sudoku_add(c, 1)];
            let near_rows = [r.checked_sub(1), sudoku_add(r, 1)];
            let far_cols = [c.checked_sub(2), sudoku_add(c, 2)];
            let tall = strike_block(grid, &far_rows, &near_cols, r, c, n);
            let ghost middle = grid@;
            let wide = strike_block(grid, &near_rows, &far_cols, r, c, n);
            proof {
                let first = block_hit(far_rows@, near_cols@, q, n as int, 2, 0);
                let second = block_hit(near_rows@, far_cols@, q, n as int, 2, 0);
                lemma_listed_two(far_rows@);
                lemma_listed_two(near_cols@);
                lemma_listed_two(near_rows@);
                lemma_listed_two(far_cols@);
                assert forall|p: int, e: int|
                    0 <= p < 81 && 0 <= e < 9 && start.cells[p].has(e) implies (#[trigger] all(p, e))
                    == (first(p, e) || second(p, e)) by {
                    assert(!listed(near_cols@, p % 9, 0));
                    assert(!listed(far_cols@, p % 9, 0));
                    assert(listed(far_rows@, p / 9, 2) == (names(far_rows@[0], p / 9) || names(
                        far_rows@[1],
                        p / 9,
                    )));
                    assert(listed(near_rows@, p / 9, 2) == (names(near_rows@[0], p / 9) || names(
                        near_rows@[1],
                        p / 9,
                    )));
                    assert(listed(far_cols@, p % 9, 2) == (names(far_cols@[0], p % 9) || names(
                        far_cols@[1],
                        p % 9,
                    )));
                    assert(listed(near_cols@, p % 9, 2) == (names(near_cols@[0], p % 9) || names(
                        near_cols@[1],
                        p % 9,
                    )));
                }
                lemma_strike_twice(start, first, second, all);
                lemma_strike_refines(start, first);
                lemma_strike_refines(middle, second);
                lemma_change_adds_up(start, middle, grid@);
            }
            tall || wide
        },
    }
}

/// For every solved cell, clears its digit from the cells one move of the
/// piece away from it.
fn exclude_by_moves(grid: &mut Grid, piece: ChessMove) -> (changed: bool)
    requires
        old(grid).wf(),
    ensures
        final(grid).wf(),
        final(grid)@ == old(grid)@.exclude_by(piece),
        changed == (final(grid)@ != old(grid)@),
{
    let ghost g = grid@;
    let mut changed = false;
    proof {
        let none = chess_hit(g, piece, 0);
        assert forall|p: int, d: int| 0 <= p < 81 && 0 <= d < 9 && g.cells[p].has(d) implies !(
        #[trigger] none(p, d)) by {}
        lemma_strike_nothing(g, none);
    }
    let mut q: usize = 0;
    while q < 81
        invariant
            q <= 81,
            g == old(grid)@,
            g.wf(),
            grid.wf(),
            grid@ == g.strike(chess_hit(g, piece, q as int)),
            changed == (grid@ != g),
        decreases 81 - q,
    {
        let ghost before = grid@;
        let ghost cur = chess_hit(g, piece, q as int);
        let ghost next = chess_hit(g, piece, q + 1);
        let cell = grid.0[q / 9][q % 9];
        proof {
            lemma_strike_cell(g, cur, q as int);
            assert(cell@ == before.cells[q as int]);
            assert(g.cells[q as int].wf());
            assert forall|p: int, d: int|
                attacked(g, piece, q + 1, p, d) == (attacked(g, piece, q as int, p, d) || (
                piece.reaches(p, q as int) && solved_with(g, q as int, d))) by {
                if attacked(g, piece, q + 1, p, d) {
                    let w = choose|w: int|
                        0 <= w < q + 1 && piece.reaches(p, w) && #[trigger] solved_with(g, w, d);
                    if w < q {
                        assert(attacked(g, piece, q as int, p, d));
                    }
                }
                if attacked(g, piece, q as int, p, d) {
                    let w = choose|w: int|
                        0 <= w < q && piece.reaches(p, w) && #[trigger] solved_with(g, w, d);
                    assert(0 <= w < q + 1 && piece.reaches(p, w) && solved_with(g, w, d));
                }
                if piece.reaches(p, q as int) && solved_with(g, q as int, d) {
                    assert(attacked(g, piece, q + 1, p, d));
                }
            }
        }
        match cell {
            Cell::Solved(n) => {
                let cleared = strike_moves(grid, q / 9, q % 9, n, piece);
                proof {
                    let one = move_hit(piece, q as int, n as int);
                    assert(g.cells[q as int] == CellView::Solved(n as int));
                    assert forall|p: int, d: int|
                        0 <= p < 81 && 0 <= d < 9 && g.cells[p].has(d) implies (#[trigger] next(p, d))
                        == (cur(p, d) || one(p, d)) by {
                        assert(attacked(g, piece, q + 1, p, d) == (attacked(g, piece, q as int, p, d)
                            || (piece.reaches(p, q as int) && solved_with(g, q as int, d))));
                    }
                    lemma_strike_twice(g, cur, one, next);
                    lemma_strike_refines(g, cur);
                    lemma_strike_refines(before, one);
                    lemma_change_adds_up(g, before, grid@);
                }
                changed = changed || cleared;
            },
            Cell::Unsolved(_) => {
                proof {
                    assert forall|p: int, d: int|
                        0 <= p < 81 && 0 <= d < 9 && g.cells[p].has(d) implies (#[trigger] cur(p, d))
                        == next(p, d) by {
                        assert(attacked(g, piece, q + 1, p, d) == (attacked(g, piece, q as int, p, d)
                            || (piece.reaches(p, q as int) && solved_with(g, q as int, d))));
                    }
                    lemma_strike_same(g, cur, next);
                }
            },
        }
        q = q + 1;
    }
    changed
}

/// The king's-move rule: for every solved cell, its digit is cleared from
/// the up to eight cells next to it, diagonals included.
pub fn kings(grid: &mut Grid) -> (changed: bool)
    requires
        old(grid).wf(),
    ensures
        final(grid).wf(),
        final(grid)@ == old(grid)@.kings(),
        changed == (final(grid)@ != old(grid)@),
{
    exclude_by_moves(grid, ChessMove::King)
}

/// The knight's-move rule: for every solved cell, its digit is cleared from
/// the up to eight cells a knight's move away from it.
pub fn knights(grid: &mut Grid) -> (changed: bool)
    requires
        old(grid).wf(),
    ensures
        final(grid).wf(),
        final(grid)@ == old(grid)@.knights(),
        changed == (final(grid)@ != old(grid)@),
{
    exclude_by_moves(grid, ChessMove::Knight)
}

} // verus!
