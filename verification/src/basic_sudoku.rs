//! The deduction strategies of plain Sudoku. Each takes a grid, applies one
//! technique across the board, and returns whether it changed anything.

use crate::grid::{
    cell_views, count_true, first_true, group_cell, group_position, in_group, index_in_group,
    lemma_first_true, lemma_group_cell, lemma_group_index, Cell, CellView, Grid, GridView,
};
use crate::progress::{lemma_change_adds_up, lemma_count_subset, lemma_refines_trans};
use crate::strike::{
    digits_hit, lemma_strike_cell, lemma_strike_nothing, lemma_strike_refines, lemma_strike_same,
    lemma_strike_twice, line_hit,
};
use vstd::prelude::*;

verus! {

impl CellView {
    /// A cell with exactly one candidate becomes solved with it; any other
    /// cell stays as it is.
    pub open spec fn promote(self) -> CellView {
        if self is Unsolved && self.count() == 1 {
            CellView::Solved(self.least())
        } else {
            self
        }
    }
}

impl GridView {
    /// The grid with every naked single solved.
    pub open spec fn naked_singles(self) -> GridView {
        GridView { cells: Seq::new(81, |p: int| self.cells[p].promote()) }
    }
}

/// Solving the naked singles keeps a grid well formed and refines it.
pub proof fn lemma_naked_singles(g: GridView)
    requires
        g.wf(),
    ensures
        g.naked_singles().wf(),
        g.naked_singles().refines(g),
{
    assert forall|p: int| 0 <= p < 81 implies (#[trigger] g.naked_singles().cells[p]).wf()
        && g.naked_singles().cells[p].refines(g.cells[p]) by {
        let cell = g.cells[p];
        assert(cell.wf());
        if cell is Unsolved {
            lemma_first_true(cell->Unsolved_0, 9);
        }
    }
}

/// Turns every unsolved cell that has exactly one candidate into a solved
/// cell with that digit, and touches no other cell.
pub fn naked_singles(grid: &mut Grid) -> (changed: bool)
    requires
        old(grid).wf(),
    ensures
        final(grid).wf(),
        final(grid)@ == old(grid)@.naked_singles(),
        changed == (final(grid)@ != old(grid)@),
{
    let mut changed = false;
    let mut p: usize = 0;
    while p < 81
        invariant
            p <= 81,
            old(grid).wf(),
            grid.wf(),
            forall|q: int| 0 <= q < p ==> #[trigger] grid@.cells[q] == old(grid)@.cells[q].promote(),
            forall|q: int| p <= q < 81 ==> #[trigger] grid@.cells[q] == old(grid)@.cells[q],
            changed == (exists|q: int| 0 <= q < p && #[trigger] grid@.cells[q] != old(grid)@.cells[q]),
        decreases 81 - p,
    {
        let cell = grid.0[p / 9][p % 9];
        let ghost before = grid@;
        assert(cell@ == before.cells[p as int]);
        if cell.candidate_count() == 1 {
            match cell.first_candidate() {
                Some(n) => {
                    grid.0[p / 9][p % 9] = Cell::Solved(n);
                    changed = true;
                    proof {
                        assert forall|q: int| 0 <= q < 81 implies #[trigger] grid@.cells[q] == if q
                            == p {
                            CellView::Solved(n as int)
                        } else {
                            before.cells[q]
                        } by {}
                        assert(grid@.cells[p as int] != old(grid)@.cells[p as int]);
                    }
                },
                None => {},
            }
        }
        proof {
            if changed {
                let w = choose|q: int|
                    0 <= q < p + 1 && #[trigger] grid@.cells[q] != old(grid)@.cells[q];
                assert(0 <= w < p + 1 && grid@.cells[w] != old(grid)@.cells[w]);
            }
        }
        p = p + 1;
    }
    proof {
        assert(grid@.cells =~= old(grid)@.naked_singles().cells);
        if !changed {
            assert forall|q: int| 0 <= q < 81 implies grid@.cells[q] == old(grid)@.cells[q] by {
                assert(!(grid@.cells[q] != old(grid)@.cells[q]));
            }
            assert(grid@.cells =~= old(grid)@.cells);
        }
    }
    changed
}

/// Group `grp` holds a solved cell with digit `d` among its first `upto` cells.
pub open spec fn solved_in_group(g: GridView, grp: int, d: int, upto: int) -> bool {
    exists|k: int| 0 <= k < upto && #[trigger] g.group(grp)[k] == CellView::Solved(d)
}

/// Position `p` lies in one of the first `groups` groups that holds a solved `d`.
pub open spec fn sees_solved(g: GridView, groups: int, p: int, d: int) -> bool {
    exists|grp: int|
        0 <= grp < groups && in_group(grp, p) && #[trigger] solved_in_group(g, grp, d, 9)
}

/// What has been ruled out once the groups before `grp` are done, and of
/// group `grp` the digits of its first `upto` cells.
spec fn elimination_hit(g: GridView, grp: int, upto: int) -> spec_fn(int, int) -> bool {
    |p: int, d: int|
        sees_solved(g, grp, p, d) || (in_group(grp, p) && solved_in_group(g, grp, d, upto))
}

/// What the solved cells of `g` rule out: digit `d` at every position that
/// shares a row, column or box with a solved `d`.
pub open spec fn solved_hit(g: GridView) -> spec_fn(int, int) -> bool {
    |p: int, d: int| sees_solved(g, 27, p, d)
}

impl GridView {
    /// The grid after basic elimination: a cell loses digit `d` when a row,
    /// column or box that it lies in holds a solved cell with `d`.
    pub open spec fn basic_elimination(self) -> GridView {
        self.strike(solved_hit(self))
    }
}

/// For each row, then each column, then each box: clears the digits of the
/// group's solved cells from the candidates of its other cells.
pub fn basic_elimination(grid: &mut Grid) -> (changed: bool)
    requires
        old(grid).wf(),
    ensures
        final(grid).wf(),
        final(grid)@ == old(grid)@.basic_elimination(),
        changed == (final(grid)@ != old(grid)@),
{
    let ghost g = grid@;
    let mut changed = false;
    proof {
        lemma_strike_nothing(g, elimination_hit(g, 0, 0));
    }
    let mut grp: usize = 0;
    while grp < 27
        invariant
            grp <= 27,
            g == old(grid)@,
            g.wf(),
            grid.wf(),
            grid@ == g.strike(elimination_hit(g, grp as int, 0)),
            changed == (grid@ != g),
        decreases 27 - grp,
    {
        let cells = grid.group(grp);
        proof {
            assert forall|k: int| 0 <= k < 9 implies (cells@[k]@ is Solved ==> g.group(
                grp as int,
            )[k] == #[trigger] cells@[k]@) && (cells@[k]@ is Unsolved ==> g.group(
                grp as int,
            )[k] is Unsolved) && cells@[k]@.wf() by {
                lemma_group_cell(grp as int, k);
                lemma_strike_cell(g, elimination_hit(g, grp as int, 0), group_cell(grp as int, k));
                assert(cell_views(cells@)[k] == grid@.group(grp as int)[k]);
            }
        }
        let mut k: usize = 0;
        while k < 9
            invariant
                grp < 27,
                k <= 9,
                g.wf(),
                grid.wf(),
                cells@.len() == 9,
                forall|j: int|
                    0 <= j < 9 ==> (cells@[j]@ is Solved ==> g.group(grp as int)[j]
                        == #[trigger] cells@[j]@) && (cells@[j]@ is Unsolved ==> g.group(
                        grp as int,
                    )[j] is Unsolved) && cells@[j]@.wf(),
                grid@ == g.strike(elimination_hit(g, grp as int, k as int)),
                changed == (grid@ != g),
            decreases 9 - k,
        {
            let ghost cur = elimination_hit(g, grp as int, k as int);
            let ghost next = elimination_hit(g, grp as int, k + 1);
            let ghost before = grid@;
            assert(cells@[k as int]@.wf());
            match cells[k] {
                Cell::Solved(n) => {
                    let cleared = grid.clear_line(grp, n, 3);
                    proof {
                        let along = line_hit(grp as int, n as int, 3, 9);
                        assert(g.group(grp as int)[k as int] == CellView::Solved(n as int));
                        assert forall|p: int, d: int|
                            0 <= p < 81 && 0 <= d < 9 && g.cells[p].has(d) implies (#[trigger] next(
                            p,
                            d,
                        )) == (cur(p, d) || along(p, d)) by {
                            if in_group(grp as int, p) {
                                lemma_group_index(grp as int, p);
                                if d == n {
                                    assert(solved_in_group(g, grp as int, d, k + 1));
                                }
                                if solved_in_group(g, grp as int, d, k + 1) {
                                    let w = choose|w: int|
                                        0 <= w < k + 1 && #[trigger] g.group(grp as int)[w]
                                            == CellView::Solved(d);
                                    if w < k {
                                        assert(solved_in_group(g, grp as int, d, k as int));
                                    }
                                }
                                if solved_in_group(g, grp as int, d, k as int) {
                                    let w = choose|w: int|
                                        0 <= w < k && #[trigger] g.group(grp as int)[w]
                                            == CellView::Solved(d);
                                    assert(0 <= w < k + 1 && g.group(grp as int)[w]
                                        == CellView::Solved(d));
                                }
                            }
                        }
                        lemma_strike_twice(g, cur, along, next);
                        lemma_strike_refines(g, cur);
                        lemma_strike_refines(before, along);
                        lemma_change_adds_up(g, before, grid@);
                    }
                    changed = changed || cleared;
                },
                Cell::Unsolved(_) => {
                    proof {
                        assert forall|p: int, d: int|
                            0 <= p < 81 && 0 <= d < 9 && g.cells[p].has(d) implies (#[trigger] cur(
                            p,
                            d,
                        )) == next(p, d) by {
                            if solved_in_group(g, grp as int, d, k + 1) {
                                let w = choose|w: int|
                                    0 <= w < k + 1 && #[trigger] g.group(grp as int)[w]
                                        == CellView::Solved(d);
                                assert(w < k);
                                assert(solved_in_group(g, grp as int, d, k as int));
                            }
                            if solved_in_group(g, grp as int, d, k as int) {
                                let w = choose|w: int|
                                    0 <= w < k && #[trigger] g.group(grp as int)[w]
                                        == CellView::Solved(d);
                                assert(0 <= w < k + 1 && g.group(grp as int)[w]
                                    == CellView::Solved(d));
                            }
                        }
                        lemma_strike_same(g, cur, next);
                    }
                },
            }
            k = k + 1;
        }
        proof {
            let done = elimination_hit(g, grp as int, 9);
            let next = elimination_hit(g, grp + 1, 0);
            assert forall|p: int, d: int|
                0 <= p < 81 && 0 <= d < 9 && g.cells[p].has(d) implies (#[trigger] done(p, d))
                == next(p, d) by {
                if in_group(grp as int, p) && solved_in_group(g, grp as int, d, 9) {
                    assert(sees_solved(g, grp + 1, p, d));
                }
                if sees_solved(g, grp + 1, p, d) {
                    let w = choose|w: int|
                        0 <= w < grp + 1 && in_group(w, p) && #[trigger] solved_in_group(
                            g,
                            w,
                            d,
                            9,
                        );
                    if w < grp {
                        assert(sees_solved(g, grp as int, p, d));
                    }
                }
                if sees_solved(g, grp as int, p, d) {
                    let w = choose|w: int|
                        0 <= w < grp && in_group(w, p) && #[trigger] solved_in_group(g, w, d, 9);
                    assert(0 <= w < grp + 1 && in_group(w, p) && solved_in_group(g, w, d, 9));
                }
                assert(!solved_in_group(g, grp + 1, d, 0));
            }
            lemma_strike_same(g, done, next);
        }
        grp = grp + 1;
    }
    proof {
        let done = elimination_hit(g, 27, 0);
        let all = solved_hit(g);
        assert forall|p: int, d: int|
            0 <= p < 81 && 0 <= d < 9 && g.cells[p].has(d) implies (#[trigger] done(p, d)) == all(
            p,
            d,
        ) by {
            assert(!solved_in_group(g, 27, d, 0));
        }
        lemma_strike_same(g, done, all);
    }
    changed
}

/// Whether digit `d` is a candidate somewhere in row `i` (of three) of box `b`.
pub open spec fn box_row_has(g: GridView, b: int, d: int, i: int) -> bool {
    let cells = g.group(18 + b);
    cells[3 * i].has(d) || cells[3 * i + 1].has(d) || cells[3 * i + 2].has(d)
}

/// Whether digit `d` is a candidate somewhere in column `j` (of three) of box `b`.
pub open spec fn box_col_has(g: GridView, b: int, d: int, j: int) -> bool {
    let cells = g.group(18 + b);
    cells[j].has(d) || cells[3 + j].has(d) || cells[6 + j].has(d)
}

/// Digit `d` is a candidate in box `b`, and only in row `i` of the box.
pub open spec fn confined_to_row(g: GridView, b: int, d: int, i: int) -> bool {
    &&& 0 <= i < 3
    &&& box_row_has(g, b, d, 0) == (i == 0)
    &&& box_row_has(g, b, d, 1) == (i == 1)
    &&& box_row_has(g, b, d, 2) == (i == 2)
}

/// Digit `d` is a candidate in box `b`, and only in column `j` of the box.
pub open spec fn confined_to_col(g: GridView, b: int, d: int, j: int) -> bool {
    &&& 0 <= j < 3
    &&& box_col_has(g, b, d, 0) == (j == 0)
    &&& box_col_has(g, b, d, 1) == (j == 1)
    &&& box_col_has(g, b, d, 2) == (j == 2)
}

/// Position `p` lies in a row of the board that crosses box `b`, outside the
/// box, and within the box digit `d` is confined to that row.
pub open spec fn box_points_along_row(g: GridView, b: int, d: int, p: int) -> bool {
    (p / 9) / 3 == b / 3 && (p % 9) / 3 != b % 3 && confined_to_row(g, b, d, (p / 9) % 3)
}

/// Position `p` lies in a column of the board that crosses box `b`, outside
/// the box, and within the box digit `d` is confined to that column.
pub open spec fn box_points_along_col(g: GridView, b: int, d: int, p: int) -> bool {
    (p % 9) / 3 == b % 3 && (p / 9) / 3 != b / 3 && confined_to_col(g, b, d, (p % 9) % 3)
}

/// Box `b` rules digit `d` out at position `p`.
pub open spec fn box_points_at(g: GridView, b: int, d: int, p: int) -> bool {
    box_points_along_row(g, b, d, p) || box_points_along_col(g, b, d, p)
}

/// One of the first `boxes` boxes rules digit `d` out at position `p`.
pub open spec fn pointed_at(g: GridView, boxes: int, p: int, d: int) -> bool {
    exists|b: int| 0 <= b < boxes && #[trigger] box_points_at(g, b, d, p)
}

/// What has been ruled out once the boxes before `b` are done, and in box
/// `b` the digits before `d`, and, if `half`, the row of digit `d`.
spec fn pointing_hit(g: GridView, b: int, d: int, half: bool) -> spec_fn(int, int) -> bool {
    |p: int, e: int|
        pointed_at(g, b, p, e) || (e < d && box_points_at(g, b, e, p)) || (half && e == d
            && box_points_along_row(g, b, e, p))
}

/// What the boxes of `g` rule out: digit `d` at every position at which
/// some box points with `d`.
pub open spec fn pointing_tuples_hit(g: GridView) -> spec_fn(int, int) -> bool {
    |p: int, d: int| pointed_at(g, 9, p, d)
}

impl GridView {
    /// The grid after box-line reduction: a cell loses digit `d` where some
    /// box other than its own confines `d` to the cell's row or column.
    pub open spec fn pointing_tuples(self) -> GridView {
        self.strike(pointing_tuples_hit(self))
    }
}

/// Where the cell in row `i`, column `j` of box `b` lies on the board.
pub proof fn lemma_box_cell(b: int, i: int, j: int)
    requires
        0 <= b < 9,
        0 <= i < 3,
        0 <= j < 3,
    ensures
        group_cell(18 + b, 3 * i + j) == ((b / 3) * 3 + i) * 9 + (b % 3) * 3 + j,
{
    let k = 3 * i + j;
    assert(k / 3 == i);
    assert(k % 3 == j);
}

/// Whether digit `d` is a candidate in row `i` of box `b`.
fn row_of_box_has(grid: &Grid, b: usize, d: usize, i: usize) -> (has: bool)
    requires
        b < 9,
        d < 9,
        i < 3,
    ensures
        has == box_row_has(grid@, b as int, d as int, i as int),
{
    let r = (b / 3) * 3 + i;
    let c = (b % 3) * 3;
    proof {
        lemma_box_cell(b as int, i as int, 0);
        lemma_box_cell(b as int, i as int, 1);
        lemma_box_cell(b as int, i as int, 2);
        grid.lemma_cell_view(r as int, c as int);
        grid.lemma_cell_view(r as int, c + 1);
        grid.lemma_cell_view(r as int, c + 2);
    }
    grid.0[r][c].has_candidate(d) || grid.0[r][c + 1].has_candidate(d) || grid.0[r][c
        + 2].has_candidate(d)
}

/// Whether digit `d` is a candidate in column `j` of box `b`.
fn col_of_box_has(grid: &Grid, b: usize, d: usize, j: usize) -> (has: bool)
    requires
        b < 9,
        d < 9,
        j < 3,
    ensures
        has == box_col_has(grid@, b as int, d as int, j as int),
{
    let r = (b / 3) * 3;
    let c = (b % 3) * 3 + j;
    proof {
        lemma_box_cell(b as int, 0, j as int);
        lemma_box_cell(b as int, 1, j as int);
        lemma_box_cell(b as int, 2, j as int);
        grid.lemma_cell_view(r as int, c as int);
        grid.lemma_cell_view(r + 1, c as int);
        grid.lemma_cell_view(r + 2, c as int);
    }
    grid.0[r][c].has_candidate(d) || grid.0[r + 1][c].has_candidate(d) || grid.0[r
        + 2][c].has_candidate(d)
}

/// The one of three flags that is set, if exactly one is.
fn the_one(zero: bool, one: bool, two: bool) -> (which: Option<usize>)
    ensures
        which == if zero && !one && !two {
            Some(0usize)
        } else if !zero && one && !two {
            Some(1usize)
        } else if !zero && !one && two {
            Some(2usize)
        } else {
            None
        },
{
    if zero && !one && !two {
        Some(0)
    } else if !zero && one && !two {
        Some(1)
    } else if !zero && !one && two {
        Some(2)
    } else {
        None
    }
}

/// The row of box `b` to which digit `d` is confined, if there is one.
pub fn pointing_row(grid: &Grid, b: usize, d: usize) -> (row: Option<usize>)
    requires
        b < 9,
        d < 9,
    ensures
        row matches Some(i) ==> i < 3 && confined_to_row(grid@, b as int, d as int, i as int),
        row is None ==> forall|i: int| !confined_to_row(grid@, b as int, d as int, i),
{
    the_one(
        row_of_box_has(grid, b, d, 0),
        row_of_box_has(grid, b, d, 1),
        row_of_box_has(grid, b, d, 2),
    )
}

/// The column of box `b` to which digit `d` is confined, if there is one.
pub fn pointing_col(grid: &Grid, b: usize, d: usize) -> (col: Option<usize>)
    requires
        b < 9,
        d < 9,
    ensures
        col matches Some(j) ==> j < 3 && confined_to_col(grid@, b as int, d as int, j as int),
        col is None ==> forall|j: int| !confined_to_col(grid@, b as int, d as int, j),
{
    the_one(
        col_of_box_has(grid, b, d, 0),
        col_of_box_has(grid, b, d, 1),
        col_of_box_has(grid, b, d, 2),
    )
}

/// Box-line reduction. For each box and digit, where the digit's candidates
/// inside the box all lie in one row of the box, the digit is cleared from
/// the rest of that row of the board; likewise for columns. What is confined
/// is judged on the grid as it was handed in.
pub fn pointing_tuples(grid: &mut Grid) -> (changed: bool)
    requires
        old(grid).wf(),
    ensures
        final(grid).wf(),
        final(grid)@ == old(grid)@.pointing_tuples(),
        changed == (final(grid)@ != old(grid)@),
{
    let given = Grid(grid.0);
    let ghost g = given@;
    assert(g.cells =~= grid@.cells);
    let mut changed = false;
    proof {
        lemma_strike_nothing(g, pointing_hit(g, 0, 0, false));
    }
    let mut b: usize = 0;
    while b < 9
        invariant
            b <= 9,
            g == given@,
            g == old(grid)@,
            g.wf(),
            grid.wf(),
            grid@ == g.strike(pointing_hit(g, b as int, 0, false)),
            changed == (grid@ != g),
        decreases 9 - b,
    {
        let mut d: usize = 0;
        while d < 9
            invariant
                b < 9,
                d <= 9,
                g == given@,
                g.wf(),
                grid.wf(),
                grid@ == g.strike(pointing_hit(g, b as int, d as int, false)),
                changed == (grid@ != g),
            decreases 9 - d,
        {
            let ghost cur = pointing_hit(g, b as int, d as int, false);
            let ghost half = pointing_hit(g, b as int, d as int, true);
            let ghost next = pointing_hit(g, b as int, d + 1, false);
            let ghost before = grid@;
            proof {
                lemma_strike_refines(g, cur);
            }
            match pointing_row(&given, b, d) {
                Some(i) => {
                    let line = (b / 3) * 3 + i;
                    let cleared = grid.clear_line(line, d, b % 3);
                    proof {
                        let along = line_hit(line as int, d as int, (b % 3) as int, 9);
                        assert(confined_to_row(g, b as int, d as int, i as int));
                        assert forall|p: int, e: int|
                            0 <= p < 81 && 0 <= e < 9 && g.cells[p].has(e) implies (#[trigger] half(
                            p,
                            e,
                        )) == (cur(p, e) || along(p, e)) by {
                            if e == d {
                                let r = p / 9;
                                assert(r == (r / 3) * 3 + r % 3);
                                if box_points_along_row(g, b as int, e, p) {
                                    assert(confined_to_row(g, b as int, d as int, r % 3));
                                    assert(r % 3 == i);
                                }
                            }
                        }
                        lemma_strike_twice(g, cur, along, half);
                        lemma_strike_refines(before, along);
                        lemma_change_adds_up(g, before, grid@);
                    }
                    changed = changed || cleared;
                },
                None => {
                    proof {
                        assert forall|p: int, e: int|
                            0 <= p < 81 && 0 <= e < 9 && g.cells[p].has(e) implies (#[trigger] cur(
                            p,
                            e,
                        )) == half(p, e) by {
                            if e == d && box_points_along_row(g, b as int, e, p) {
                                assert(confined_to_row(g, b as int, d as int, (p / 9) % 3));
                            }
                        }
                        lemma_strike_same(g, cur, half);
                    }
                },
            }
            let ghost middle = grid@;
            proof {
                lemma_strike_refines(g, half);
            }
            match pointing_col(&given, b, d) {
                Some(j) => {
                    let line = 9 + (b % 3) * 3 + j;
                    let cleared = grid.clear_line(line, d, b / 3);
                    proof {
                        let along = line_hit(line as int, d as int, (b / 3) as int, 9);
                        assert(confined_to_col(g, b as int, d as int, j as int));
                        assert forall|p: int, e: int|
                            0 <= p < 81 && 0 <= e < 9 && g.cells[p].has(e) implies (#[trigger] next(
                            p,
                            e,
                        )) == (half(p, e) || along(p, e)) by {
                            if e == d {
                                let c = p % 9;
                                assert(c == (c / 3) * 3 + c % 3);
                                if box_points_along_col(g, b as int, e, p) {
                                    assert(confined_to_col(g, b as int, d as int, c % 3));
                                    assert(c % 3 == j);
                                }
                            }
                        }
                        lemma_strike_twice(g, half, along, next);
                        lemma_strike_refines(middle, along);
                        lemma_change_adds_up(g, middle, grid@);
                    }
                    changed = changed || cleared;
                },
                None => {
                    proof {
                        assert forall|p: int, e: int|
                            0 <= p < 81 && 0 <= e < 9 && g.cells[p].has(e) implies (#[trigger] half(
                            p,
                            e,
                        )) == next(p, e) by {
                            if e == d && box_points_along_col(g, b as int, e, p) {
                                assert(confined_to_col(g, b as int, d as int, (p % 9) % 3));
                            }
                        }
                        lemma_strike_same(g, half, next);
                    }
                },
            }
            d = d + 1;
        }
        proof {
            let done = pointing_hit(g, b as int, 9, false);
            let next = pointing_hit(g, b + 1, 0, false);
            assert forall|p: int, e: int|
                0 <= p < 81 && 0 <= e < 9 && g.cells[p].has(e) implies (#[trigger] done(p, e))
                == next(p, e) by {
                if box_points_at(g, b as int, e, p) {
                    assert(pointed_at(g, b + 1, p, e));
                }
                if pointed_at(g, b + 1, p, e) {
                    let w = choose|w: int| 0 <= w < b + 1 && #[trigger] box_points_at(g, w, e, p);
                    if w < b {
                        assert(pointed_at(g, b as int, p, e));
                    }
                }
            }
            lemma_strike_same(g, done, next);
        }
        b = b + 1;
    }
    proof {
        let done = pointing_hit(g, 9, 0, false);
        let all = pointing_tuples_hit(g);
        assert forall|p: int, e: int|
            0 <= p < 81 && 0 <= e < 9 && g.cells[p].has(e) implies (#[trigger] done(p, e)) == all(
            p,
            e,
        ) by {
            assert(!confined_to_row(g, 9, e, (p / 9) % 3) || !((p / 9) / 3 == 3));
        }
        lemma_strike_same(g, done, all);
    }
    changed
}

/// For each of the nine cells, whether it equals `cell`.
pub open spec fn same_flags(cells: Seq<CellView>, cell: CellView) -> Seq<bool> {
    Seq::new(9, |k: int| cells[k] == cell)
}

/// How many of the nine cells equal `cell`.
pub open spec fn occurrences(cells: Seq<CellView>, cell: CellView) -> nat {
    count_true(same_flags(cells, cell), 9)
}

/// Cell `j` is unsolved and its candidate set is shared by exactly as many
/// cells of the group as it has candidates.
pub open spec fn is_naked_tuple(cells: Seq<CellView>, j: int) -> bool {
    cells[j] is Unsolved && occurrences(cells, cells[j]) == cells[j].count()
}

/// One of the first `upto` cells is part of a naked tuple that has digit
/// `d`, and cell `k` is not part of that tuple.
pub open spec fn naked_tuple_rules_out(cells: Seq<CellView>, upto: int, k: int, d: int) -> bool {
    exists|j: int|
        0 <= j < upto && #[trigger] is_naked_tuple(cells, j) && cells[j] != cells[k]
            && cells[j].has(d)
}

/// What the naked tuples among the first `upto` cells of group `grp`, whose
/// cells are `given`, rule out.
pub open spec fn naked_tuples_hit(grp: int, given: Seq<CellView>, upto: int) -> spec_fn(
    int,
    int,
) -> bool {
    |p: int, e: int|
        in_group(grp, p) && naked_tuple_rules_out(given, upto, index_in_group(grp, p), e)
}

/// What the tuple of cell `j` rules out in those of the first `upto` cells
/// of group `grp` that are not part of it.
spec fn tuple_hit(grp: int, given: Seq<CellView>, j: int, upto: int) -> spec_fn(
    int,
    int,
) -> bool {
    |p: int, e: int|
        in_group(grp, p) && index_in_group(grp, p) < upto && given[index_in_group(grp, p)]
            != given[j] && given[j].has(e)
}

impl GridView {
    /// The grid after the naked tuples of group `grp` have been applied:
    /// every cell of the group loses the digits of each naked tuple of the
    /// group that it is not part of.
    pub open spec fn naked_tuples_in(self, grp: int) -> GridView {
        self.strike(naked_tuples_hit(grp, self.group(grp), 9))
    }
}

/// How many of the nine cells hold the same as cell `j`.
fn count_same(cells: &Vec<Cell>, j: usize) -> (count: usize)
    requires
        cells@.len() == 9,
        j < 9,
    ensures
        count == occurrences(cell_views(cells@), cells@[j as int]@),
        count <= 9,
{
    let ghost flags = same_flags(cell_views(cells@), cells@[j as int]@);
    let mut count: usize = 0;
    let mut k: usize = 0;
    while k < 9
        invariant
            k <= 9,
            j < 9,
            cells@.len() == 9,
            flags == same_flags(cell_views(cells@), cells@[j as int]@),
            count <= k,
            count == count_true(flags, k as int),
        decreases 9 - k,
    {
        if cells[k].same_as(&cells[j]) {
            count = count + 1;
        }
        k = k + 1;
    }
    count
}

/// Clears the candidates of cell `j` of the group from every cell of the
/// group that does not hold the same as cell `j`.
fn clear_tuple(grid: &mut Grid, grp: usize, given: &Vec<Cell>, j: usize) -> (changed: bool)
    requires
        old(grid).wf(),
        grp < 27,
        given@.len() == 9,
        j < 9,
    ensures
        final(grid).wf(),
        final(grid)@ == old(grid)@.strike(tuple_hit(grp as int, cell_views(given@), j as int, 9)),
        changed == (final(grid)@ != old(grid)@),
{
    let ghost gv = cell_views(given@);
    let mut changed = false;
    proof {
        lemma_strike_nothing(grid@, tuple_hit(grp as int, gv, j as int, 0));
    }
    match given[j] {
        Cell::Unsolved(digits) => {
            let mut k: usize = 0;
            while k < 9
                invariant
                    k <= 9,
                    j < 9,
                    grp < 27,
                    given@.len() == 9,
                    gv == cell_views(given@),
                    given@[j as int] == Cell::Unsolved(digits),
                    old(grid).wf(),
                    grid.wf(),
                    grid@ == old(grid)@.strike(tuple_hit(grp as int, gv, j as int, k as int)),
                    changed == (grid@ != old(grid)@),
                decreases 9 - k,
            {
                let ghost start = old(grid)@;
                let ghost before = grid@;
                let ghost cur = tuple_hit(grp as int, gv, j as int, k as int);
                let ghost next = tuple_hit(grp as int, gv, j as int, k + 1);
                proof {
                    lemma_group_cell(grp as int, k as int);
                    assert forall|p: int| 0 <= p < 81 && in_group(grp as int, p) implies 0
                        <= index_in_group(grp as int, p) < 9 && group_cell(
                        grp as int,
                        index_in_group(grp as int, p),
                    ) == p by {
                        lemma_group_index(grp as int, p);
                    }
                }
                if !given[k].same_as(&given[j]) {
                    let (r, c) = group_position(grp, k);
                    let cleared = grid.clear_digits(r, c, &digits);
                    proof {
                        let one = digits_hit(r * 9 + c, digits@, 9);
                        assert forall|p: int, e: int|
                            0 <= p < 81 && 0 <= e < 9 && start.cells[p].has(e) implies (
                        #[trigger] next(p, e)) == (cur(p, e) || one(p, e)) by {}
                        lemma_strike_twice(start, cur, one, next);
                        lemma_strike_refines(start, cur);
                        lemma_strike_refines(before, one);
                        lemma_change_adds_up(start, before, grid@);
                    }
                    changed = changed || cleared;
                } else {
                    proof {
                        assert forall|p: int, e: int|
                            0 <= p < 81 && 0 <= e < 9 && start.cells[p].has(e) implies (
                        #[trigger] cur(p, e)) == next(p, e) by {}
                        lemma_strike_same(start, cur, next);
                    }
                }
                k = k + 1;
            }
        },
        Cell::Solved(_) => {
            proof {
                let none = tuple_hit(grp as int, gv, j as int, 0);
                let all = tuple_hit(grp as int, gv, j as int, 9);
                assert forall|p: int, e: int|
                    0 <= p < 81 && 0 <= e < 9 && grid@.cells[p].has(e) implies (#[trigger] none(
                    p,
                    e,
                )) == all(p, e) by {}
                lemma_strike_same(grid@, none, all);
            }
        },
    }
    changed
}

/// Applies the naked tuples of group `grp`: where a candidate set of size
/// `k` is shared by exactly `k` cells of the group, its digits are cleared
/// from every other cell of the group. Which sets are shared is judged on
/// the group as it was handed in.
pub fn naked_tuples_in_group(grid: &mut Grid, grp: usize) -> (changed: bool)
    requires
        old(grid).wf(),
        grp < 27,
    ensures
        final(grid).wf(),
        final(grid)@ == old(grid)@.naked_tuples_in(grp as int),
        changed == (final(grid)@ != old(grid)@),
{
    let given = grid.group(grp);
    let ghost g = grid@;
    let ghost gv = cell_views(given@);
    let mut changed = false;
    proof {
        lemma_strike_nothing(g, naked_tuples_hit(grp as int, gv, 0));
    }
    let mut j: usize = 0;
    while j < 9
        invariant
            j <= 9,
            grp < 27,
            given@.len() == 9,
            gv == cell_views(given@),
            gv == g.group(grp as int),
            g == old(grid)@,
            g.wf(),
            grid.wf(),
            grid@ == g.strike(naked_tuples_hit(grp as int, gv, j as int)),
            changed == (grid@ != g),
        decreases 9 - j,
    {
        let ghost before = grid@;
        let ghost cur = naked_tuples_hit(grp as int, gv, j as int);
        let ghost next = naked_tuples_hit(grp as int, gv, j + 1);
        let mut applies = false;
        if let Cell::Unsolved(_) = given[j] {
            applies = count_same(&given, j) == given[j].candidate_count();
        }
        assert(gv[j as int] == given@[j as int]@);
        assert(applies == is_naked_tuple(gv, j as int));
        if applies {
            let cleared = clear_tuple(grid, grp, &given, j);
            proof {
                let one = tuple_hit(grp as int, gv, j as int, 9);
                assert forall|p: int, e: int|
                    0 <= p < 81 && 0 <= e < 9 && g.cells[p].has(e) implies (#[trigger] next(p, e))
                    == (cur(p, e) || one(p, e)) by {
                    if in_group(grp as int, p) {
                        lemma_group_index(grp as int, p);
                        let k = index_in_group(grp as int, p);
                        if naked_tuple_rules_out(gv, j + 1, k, e) {
                            let w = choose|w: int|
                                0 <= w < j + 1 && #[trigger] is_naked_tuple(gv, w) && gv[w] != gv[k]
                                    && gv[w].has(e);
                            if w < j {
                                assert(naked_tuple_rules_out(gv, j as int, k, e));
                            }
                        }
                        if naked_tuple_rules_out(gv, j as int, k, e) {
                            let w = choose|w: int|
                                0 <= w < j && #[trigger] is_naked_tuple(gv, w) && gv[w] != gv[k]
                                    && gv[w].has(e);
                            assert(0 <= w < j + 1 && is_naked_tuple(gv, w) && gv[w] != gv[k]
                                && gv[w].has(e));
                        }
                        if one(p, e) {
                            assert(is_naked_tuple(gv, j as int) && gv[j as int] != gv[k]
                                && gv[j as int].has(e));
                        }
                    }
                }
                lemma_strike_twice(g, cur, one, next);
                lemma_strike_refines(g, cur);
                lemma_strike_refines(before, one);
                lemma_change_adds_up(g, before, grid@);
            }
            changed = changed || cleared;
        } else {
            proof {
                assert forall|p: int, e: int|
                    0 <= p < 81 && 0 <= e < 9 && g.cells[p].has(e) implies (#[trigger] cur(p, e))
                    == next(p, e) by {
                    if in_group(grp as int, p) {
                        let k = index_in_group(grp as int, p);
                        if naked_tuple_rules_out(gv, j + 1, k, e) {
                            let w = choose|w: int|
                                0 <= w < j + 1 && #[trigger] is_naked_tuple(gv, w) && gv[w] != gv[k]
                                    && gv[w].has(e);
                            assert(w < j);
                            assert(naked_tuple_rules_out(gv, j as int, k, e));
                        }
                        if naked_tuple_rules_out(gv, j as int, k, e) {
                            let w = choose|w: int|
                                0 <= w < j && #[trigger] is_naked_tuple(gv, w) && gv[w] != gv[k]
                                    && gv[w].has(e);
                            assert(0 <= w < j + 1 && is_naked_tuple(gv, w) && gv[w] != gv[k]
                                && gv[w].has(e));
                        }
                    }
                }
                lemma_strike_same(g, cur, next);
            }
        }
        j = j + 1;
    }
    changed
}

/// For each cell of a group, whether it has digit `d` as a candidate.
pub open spec fn holder_flags(cells: Seq<CellView>, d: int) -> Seq<bool> {
    Seq::new(9, |k: int| cells[k].has(d))
}

/// Number of cells of a group that have digit `d` as a candidate.
pub open spec fn holders(cells: Seq<CellView>, d: int) -> nat {
    count_true(holder_flags(cells, d), 9)
}

/// Index of the first cell of a group that has digit `d` as a candidate.
pub open spec fn first_holder(cells: Seq<CellView>, d: int) -> int {
    first_true(holder_flags(cells, d), 9)
}

impl GridView {
    /// If digit `d` is a candidate in exactly one cell of group `grp`, that
    /// cell keeps `d` as its only candidate; else nothing changes.
    pub open spec fn single_out(self, grp: int, d: int) -> GridView {
        let cells = self.group(grp);
        if holders(cells, d) == 1 {
            self.with_cell(group_cell(grp, first_holder(cells, d)), CellView::only(d))
        } else {
            self
        }
    }

    /// Group `grp` after the digits below `digits` have been singled out,
    /// one after the other in ascending order.
    pub open spec fn hidden_singles_upto(self, grp: int, digits: int) -> GridView
        decreases digits,
    {
        if digits <= 0 {
            self
        } else {
            self.hidden_singles_upto(grp, digits - 1).single_out(grp, digits - 1)
        }
    }

    /// The grid after the hidden singles of group `grp` have been applied,
    /// digit by digit in ascending order.
    pub open spec fn hidden_singles_in(self, grp: int) -> GridView {
        self.hidden_singles_upto(grp, 9)
    }
}

/// A cell whose one candidate is `d` is the cell `only(d)`, and that cell
/// has one candidate.
pub proof fn lemma_only(cell: CellView, d: int)
    requires
        cell.wf(),
        0 <= d < 9,
    ensures
        CellView::only(d).wf(),
        CellView::only(d).count() == 1,
        CellView::only(d).has(d),
        cell.has(d) ==> CellView::only(d).refines(cell),
        cell.has(d) ==> (cell.count() == 1 <==> cell == CellView::only(d)),
{
    let one = CellView::only(d)->Unsolved_0;
    assert(count_true(one, 9) == 1) by {
        reveal_with_fuel(count_true, 10);
    }
    if cell.has(d) {
        let flags = cell->Unsolved_0;
        lemma_count_subset(one, flags, 9);
        if cell.count() == 1 {
            assert forall|e: int| 0 <= e < 9 implies flags[e] == one[e] by {
                if flags[e] && !one[e] {
                    assert(exists|x: int| 0 <= x < 9 && flags[x] && !one[x]);
                }
            }
            assert(flags =~= one);
        }
    }
}

/// Singling out a digit keeps a grid well formed and refines it; it changes
/// the grid exactly when the one holder of the digit had other candidates.
pub proof fn lemma_single_out(g: GridView, grp: int, d: int)
    requires
        g.wf(),
        0 <= grp < 27,
        0 <= d < 9,
    ensures
        g.single_out(grp, d).wf(),
        g.single_out(grp, d).refines(g),
        g.single_out(grp, d) != g <==> holders(g.group(grp), d) == 1 && g.group(grp)[first_holder(
            g.group(grp),
            d,
        )].count() != 1,
        holders(g.group(grp), d) == 1 ==> 0 <= first_holder(g.group(grp), d) < 9 && g.group(
            grp,
        )[first_holder(g.group(grp), d)].has(d),
{
    let cells = g.group(grp);
    if holders(cells, d) == 1 {
        let k = first_holder(cells, d);
        lemma_first_true(holder_flags(cells, d), 9);
        lemma_group_cell(grp, k);
        let q = group_cell(grp, k);
        assert(g.cells[q].wf());
        lemma_only(g.cells[q], d);
        let h = g.single_out(grp, d);
        assert forall|p: int| 0 <= p < 81 implies (#[trigger] h.cells[p]).wf() && h.cells[p].refines(
            g.cells[p],
        ) by {
            assert(g.cells[p].wf());
        }
        if g.cells[q].count() == 1 {
            assert(h.cells =~= g.cells);
        } else {
            assert(h.cells[q] != g.cells[q]);
        }
    }
}

/// Number of cells of the group that have digit `d`, and the first of them.
fn count_holders(cells: &Vec<Cell>, d: usize) -> (found: (usize, usize))
    requires
        cells@.len() == 9,
    ensures
        found.0 == holders(cell_views(cells@), d as int),
        found.1 == first_holder(cell_views(cells@), d as int),
        found.0 <= 9,
        found.1 <= 9,
{
    let ghost flags = holder_flags(cell_views(cells@), d as int);
    let mut count: usize = 0;
    let mut first: usize = 0;
    let mut k: usize = 0;
    while k < 9
        invariant
            k <= 9,
            cells@.len() == 9,
            flags == holder_flags(cell_views(cells@), d as int),
            count <= k,
            first <= k,
            count == count_true(flags, k as int),
            first == first_true(flags, k as int),
        decreases 9 - k,
    {
        let held = cells[k].has_candidate(d);
        assert(held == flags[k as int]);
        if held {
            count = count + 1;
        }
        if first == k && !held {
            first = k + 1;
        }
        k = k + 1;
    }
    (count, first)
}

/// Applies the hidden singles of group `grp`: for each digit in ascending
/// order, if exactly one cell of the group has it as a candidate, that cell
/// keeps it as its only candidate.
pub fn hidden_singles_in_group(grid: &mut Grid, grp: usize) -> (changed: bool)
    requires
        old(grid).wf(),
        grp < 27,
    ensures
        final(grid).wf(),
        final(grid)@ == old(grid)@.hidden_singles_in(grp as int),
        changed == (final(grid)@ != old(grid)@),
{
    let ghost g = grid@;
    let mut changed = false;
    let mut d: usize = 0;
    while d < 9
        invariant
            d <= 9,
            grp < 27,
            g == old(grid)@,
            g.wf(),
            grid.wf(),
            grid@ == g.hidden_singles_upto(grp as int, d as int),
            grid@.refines(g),
            changed == (grid@ != g),
        decreases 9 - d,
    {
        let ghost before = grid@;
        let cells = grid.group(grp);
        let (count, first) = count_holders(&cells, d);
        proof {
            lemma_single_out(before, grp as int, d as int);
        }
        if count == 1 {
            let (r, c) = group_position(grp, first);
            let was_single = cells[first].candidate_count() == 1;
            let mut only = [false; 9];
            only[d] = true;
            grid.0[r][c] = Cell::Unsolved(only);
            proof {
                let q = r * 9 + c;
                assert(only@ =~= CellView::only(d as int)->Unsolved_0);
                assert(Cell::Unsolved(only)@ == CellView::only(d as int));
                assert(cell_views(cells@)[first as int] == cells@[first as int]@);
                assert forall|p: int| 0 <= p < 81 implies #[trigger] grid@.cells[p] == if p == q {
                    CellView::only(d as int)
                } else {
                    before.cells[p]
                } by {}
                assert(grid@.cells =~= before.cells.update(q, CellView::only(d as int)));
            }
            if !was_single {
                changed = true;
            }
        }
        proof {
            lemma_change_adds_up(g, before, grid@);
        }
        d = d + 1;
    }
    changed
}

/// The digits that are a candidate in at least one and at most `len` cells
/// of the group.
pub open spec fn rare_digits(given: Seq<CellView>, len: int) -> Seq<bool> {
    Seq::new(9, |d: int| 1 <= holders(given, d) <= len)
}

/// Whether the cell has a candidate below `upto` that `digits` flags.
pub open spec fn touches(cell: CellView, digits: Seq<bool>, upto: int) -> bool {
    exists|d: int| 0 <= d < upto && digits[d] && #[trigger] cell.has(d)
}

/// For each cell of the group, whether it has a candidate that `digits` flags.
pub open spec fn touched(cells: Seq<CellView>, digits: Seq<bool>) -> Seq<bool> {
    Seq::new(9, |k: int| touches(cells[k], digits, 9))
}

/// There are `len` digits flagged, and `len` cells of the group that have a
/// candidate among them.
pub open spec fn is_hidden_tuple(cells: Seq<CellView>, digits: Seq<bool>, len: int) -> bool {
    count_true(touched(cells, digits), 9) == len && count_true(digits, 9) == len
}

/// The rule that names, in those of the first `upto` cells of group `grp`
/// that are marked, every digit that `digits` does not flag.
pub open spec fn hidden_tuple_hit(grp: int, marked: Seq<bool>, digits: Seq<bool>, upto: int)
    -> spec_fn(int, int) -> bool {
    |p: int, e: int|
        in_group(grp, p) && index_in_group(grp, p) < upto && marked[index_in_group(grp, p)]
            && !digits[e]
}

/// The flags that `digits` does not set.
pub open spec fn complement(digits: Seq<bool>) -> Seq<bool> {
    Seq::new(9, |d: int| !digits[d])
}

impl GridView {
    /// One round of hidden tuples of size `len` in group `grp`. The digits
    /// are those that were a candidate in at most `len` cells of `given`,
    /// the group as it was when its rounds began; the cells are those that
    /// now have one of these digits. If there are `len` of each, these cells
    /// keep only these digits.
    pub open spec fn hidden_tuple(self, grp: int, given: Seq<CellView>, len: int) -> GridView {
        let digits = rare_digits(given, len);
        let cells = self.group(grp);
        if is_hidden_tuple(cells, digits, len) {
            self.strike(hidden_tuple_hit(grp, touched(cells, digits), digits, 9))
        } else {
            self
        }
    }

    /// The grid after the rounds of hidden tuples of sizes 2, 3 and 4 in
    /// group `grp`.
    pub open spec fn hidden_tuples_in(self, grp: int) -> GridView {
        let given = self.group(grp);
        self.hidden_tuple(grp, given, 2).hidden_tuple(grp, given, 3).hidden_tuple(grp, given, 4)
    }
}

/// A round of hidden tuples keeps a grid well formed and refines it.
pub proof fn lemma_hidden_tuple(g: GridView, grp: int, given: Seq<CellView>, len: int)
    requires
        g.wf(),
    ensures
        g.hidden_tuple(grp, given, len).wf(),
        g.hidden_tuple(grp, given, len).refines(g),
{
    let digits = rare_digits(given, len);
    let cells = g.group(grp);
    lemma_strike_refines(g, hidden_tuple_hit(grp, touched(cells, digits), digits, 9));
}

/// For each digit, the number of cells of the group that have it.
fn holder_counts(given: &Vec<Cell>) -> (counts: [usize; 9])
    requires
        given@.len() == 9,
    ensures
        forall|d: int| 0 <= d < 9 ==> counts@[d] == holders(cell_views(given@), d),
{
    let mut counts: [usize; 9] = [0; 9];
    let mut d: usize = 0;
    while d < 9
        invariant
            d <= 9,
            given@.len() == 9,
            forall|e: int| 0 <= e < d ==> counts@[e] == holders(cell_views(given@), e),
        decreases 9 - d,
    {
        let (count, _) = count_holders(given, d);
        counts[d] = count;
        d = d + 1;
    }
    counts
}

/// Flags the digits whose count is at least one and at most `len`.
fn digits_at_most(counts: &[usize; 9], len: usize, Ghost(given): Ghost<Seq<CellView>>) -> (digits:
    [bool; 9])
    requires
        forall|d: int| 0 <= d < 9 ==> counts@[d] == holders(given, d),
    ensures
        digits@ == rare_digits(given, len as int),
{
    let mut digits: [bool; 9] = [false; 9];
    let mut d: usize = 0;
    while d < 9
        invariant
            d <= 9,
            forall|e: int| 0 <= e < 9 ==> counts@[e] == holders(given, e),
            forall|e: int| 0 <= e < d ==> digits@[e] == (1 <= holders(given, e) <= len),
        decreases 9 - d,
    {
        digits[d] = 1 <= counts[d] && counts[d] <= len;
        d = d + 1;
    }
    assert(digits@ =~= rare_digits(given, len as int));
    digits
}

/// The flags that `digits` does not set.
fn complement_of(digits: &[bool; 9]) -> (others: [bool; 9])
    ensures
        others@ == complement(digits@),
{
    let mut others: [bool; 9] = [false; 9];
    let mut d: usize = 0;
    while d < 9
        invariant
            d <= 9,
            forall|e: int| 0 <= e < d ==> others@[e] == !digits@[e],
        decreases 9 - d,
    {
        others[d] = !digits[d];
        d = d + 1;
    }
    assert(others@ =~= complement(digits@));
    others
}

/// Number of flags set.
fn count_flags(flags: &[bool; 9]) -> (count: usize)
    ensures
        count == count_true(flags@, 9),
        count <= 9,
{
    let mut count: usize = 0;
    let mut d: usize = 0;
    while d < 9
        invariant
            d <= 9,
            count <= d,
            count == count_true(flags@, d as int),
        decreases 9 - d,
    {
        if flags[d] {
            count = count + 1;
        }
        d = d + 1;
    }
    count
}

/// Whether the cell has a candidate that `digits` flags.
fn touches_any(cell: &Cell, digits: &[bool; 9]) -> (any: bool)
    ensures
        any == touches(cell@, digits@, 9),
{
    let mut d: usize = 0;
    while d < 9
        invariant
            d <= 9,
            !touches(cell@, digits@, d as int),
        decreases 9 - d,
    {
        if digits[d] && cell.has_candidate(d) {
            assert(0 <= d < 9 && digits@[d as int] && cell@.has(d as int));
            return true;
        }
        proof {
            if touches(cell@, digits@, d + 1) {
                let w = choose|w: int| 0 <= w < d + 1 && digits@[w] && #[trigger] cell@.has(w);
                assert(w < d);
                assert(touches(cell@, digits@, d as int));
            }
        }
        d = d + 1;
    }
    false
}

/// For each cell of the group, whether it has a candidate that `digits` flags.
fn mark_touched(cells: &Vec<Cell>, digits: &[bool; 9]) -> (marked: [bool; 9])
    requires
        cells@.len() == 9,
    ensures
        marked@ == touched(cell_views(cells@), digits@),
{
    let mut marked: [bool; 9] = [false; 9];
    let mut k: usize = 0;
    while k < 9
        invariant
            k <= 9,
            cells@.len() == 9,
            forall|j: int|
                0 <= j < k ==> marked@[j] == touches(cell_views(cells@)[j], digits@, 9),
        decreases 9 - k,
    {
        marked[k] = touches_any(&cells[k], digits);
        k = k + 1;
    }
    assert(marked@ =~= touched(cell_views(cells@), digits@));
    marked
}

/// Clears, in each marked cell of group `grp`, every candidate that
/// `digits` does not flag.
fn restrict_marked(grid: &mut Grid, grp: usize, marked: &[bool; 9], digits: &[bool; 9]) -> (changed:
    bool)
    requires
        old(grid).wf(),
        grp < 27,
    ensures
        final(grid).wf(),
        final(grid)@ == old(grid)@.strike(hidden_tuple_hit(grp as int, marked@, digits@, 9)),
        changed == (final(grid)@ != old(grid)@),
{
    let others = complement_of(digits);
    let mut changed = false;
    proof {
        lemma_strike_nothing(grid@, hidden_tuple_hit(grp as int, marked@, digits@, 0));
    }
    let mut k: usize = 0;
    while k < 9
        invariant
            k <= 9,
            grp < 27,
            others@ == complement(digits@),
            old(grid).wf(),
            grid.wf(),
            grid@ == old(grid)@.strike(hidden_tuple_hit(grp as int, marked@, digits@, k as int)),
            changed == (grid@ != old(grid)@),
        decreases 9 - k,
    {
        let ghost start = old(grid)@;
        let ghost before = grid@;
        let ghost cur = hidden_tuple_hit(grp as int, marked@, digits@, k as int);
        let ghost next = hidden_tuple_hit(grp as int, marked@, digits@, k + 1);
        proof {
            lemma_group_cell(grp as int, k as int);
            assert forall|p: int| 0 <= p < 81 && in_group(grp as int, p) implies 0 <= index_in_group(
                grp as int,
                p,
            ) < 9 && group_cell(grp as int, index_in_group(grp as int, p)) == p by {
                lemma_group_index(grp as int, p);
            }
        }
        if marked[k] {
            let (r, c) = group_position(grp, k);
            let cleared = grid.clear_digits(r, c, &others);
            proof {
                let one = digits_hit(r * 9 + c, others@, 9);
                assert forall|p: int, e: int|
                    0 <= p < 81 && 0 <= e < 9 && start.cells[p].has(e) implies (#[trigger] next(p, e))
                    == (cur(p, e) || one(p, e)) by {}
                lemma_strike_twice(start, cur, one, next);
                lemma_strike_refines(start, cur);
                lemma_strike_refines(before, one);
                lemma_change_adds_up(start, before, grid@);
            }
            changed = changed || cleared;
        } else {
            proof {
                assert forall|p: int, e: int|
                    0 <= p < 81 && 0 <= e < 9 && start.cells[p].has(e) implies (#[trigger] cur(p, e))
                    == next(p, e) by {}
                lemma_strike_same(start, cur, next);
            }
        }
        k = k + 1;
    }
    changed
}

/// One round of hidden tuples of size `len` in group `grp`, with the
/// holder counts of the group as it was when its rounds began.
fn hidden_tuple_round(
    grid: &mut Grid,
    grp: usize,
    counts: &[usize; 9],
    len: usize,
    Ghost(given): Ghost<Seq<CellView>>,
) -> (changed: bool)
    requires
        old(grid).wf(),
        grp < 27,
        forall|d: int| 0 <= d < 9 ==> counts@[d] == holders(given, d),
    ensures
        final(grid).wf(),
        final(grid)@ == old(grid)@.hidden_tuple(grp as int, given, len as int),
        changed == (final(grid)@ != old(grid)@),
{
    let digits = digits_at_most(counts, len, Ghost(given));
    let cells = grid.group(grp);
    let marked = mark_touched(&cells, &digits);
    if count_flags(&marked) == len && count_flags(&digits) == len {
        restrict_marked(grid, grp, &marked, &digits)
    } else {
        false
    }
}

/// Applies the hidden tuples of group `grp`, in rounds for the sizes 2, 3
/// and 4. A round takes the digits that were a candidate in at most that
/// many cells when the rounds began, and the cells that now have one of
/// them; if there are as many of each as the size, those cells keep only
/// those digits.
pub fn hidden_tuples_in_group(grid: &mut Grid, grp: usize) -> (changed: bool)
    requires
        old(grid).wf(),
        grp < 27,
    ensures
        final(grid).wf(),
        final(grid)@ == old(grid)@.hidden_tuples_in(grp as int),
        changed == (final(grid)@ != old(grid)@),
{
    let given = grid.group(grp);
    let counts = holder_counts(&given);
    let ghost gv = cell_views(given@);
    let ghost g0 = grid@;
    let pairs = hidden_tuple_round(grid, grp, &counts, 2, Ghost(gv));
    let ghost g1 = grid@;
    let triples = hidden_tuple_round(grid, grp, &counts, 3, Ghost(gv));
    let ghost g2 = grid@;
    let quads = hidden_tuple_round(grid, grp, &counts, 4, Ghost(gv));
    proof {
        lemma_hidden_tuple(g0, grp as int, gv, 2);
        lemma_hidden_tuple(g1, grp as int, gv, 3);
        lemma_hidden_tuple(g2, grp as int, gv, 4);
        lemma_change_adds_up(g0, g1, g2);
        lemma_change_adds_up(g0, g2, grid@);
    }
    pairs || triples || quads
}

/// The deductions that work on one group at a time.
#[derive(Clone, Copy, Debug)]
pub enum GroupRule {
    HiddenSingles,
    NakedTuples,
    HiddenTuples,
}

impl GroupRule {
    /// What the rule makes of grid `g` when it is applied to group `grp`.
    pub open spec fn apply(self, g: GridView, grp: int) -> GridView {
        match self {
            GroupRule::HiddenSingles => g.hidden_singles_in(grp),
            GroupRule::NakedTuples => g.naked_tuples_in(grp),
            GroupRule::HiddenTuples => g.hidden_tuples_in(grp),
        }
    }

    /// Applying a rule to a group keeps a grid well formed and refines it.
    pub proof fn lemma_apply(self, g: GridView, grp: int)
        requires
            g.wf(),
            0 <= grp < 27,
        ensures
            self.apply(g, grp).wf(),
            self.apply(g, grp).refines(g),
    {
        match self {
            GroupRule::HiddenSingles => {
                lemma_hidden_singles_upto(g, grp, 9);
            },
            GroupRule::NakedTuples => {
                lemma_strike_refines(g, naked_tuples_hit(grp, g.group(grp), 9));
            },
            GroupRule::HiddenTuples => {
                let given = g.group(grp);
                let g1 = g.hidden_tuple(grp, given, 2);
                let g2 = g1.hidden_tuple(grp, given, 3);
                let g3 = g2.hidden_tuple(grp, given, 4);
                lemma_hidden_tuple(g, grp, given, 2);
                lemma_hidden_tuple(g1, grp, given, 3);
                lemma_hidden_tuple(g2, grp, given, 4);
                lemma_refines_trans(g2, g1, g);
                lemma_refines_trans(g3, g2, g);
            },
        }
    }

    /// Applies the rule to group `grp`.
    fn run(&self, grid: &mut Grid, grp: usize) -> (changed: bool)
        requires
            old(grid).wf(),
            grp < 27,
        ensures
            final(grid).wf(),
            final(grid)@ == self.apply(old(grid)@, grp as int),
            changed == (final(grid)@ != old(grid)@),
    {
        match self {
            GroupRule::HiddenSingles => hidden_singles_in_group(grid, grp),
            GroupRule::NakedTuples => naked_tuples_in_group(grid, grp),
            GroupRule::HiddenTuples => hidden_tuples_in_group(grid, grp),
        }
    }
}

/// Singling out the digits of a group one after the other keeps a grid well
/// formed and refines it.
pub proof fn lemma_hidden_singles_upto(g: GridView, grp: int, digits: int)
    requires
        g.wf(),
        0 <= grp < 27,
        0 <= digits <= 9,
    ensures
        g.hidden_singles_upto(grp, digits).wf(),
        g.hidden_singles_upto(grp, digits).refines(g),
    decreases digits,
{
    if digits > 0 {
        lemma_hidden_singles_upto(g, grp, digits - 1);
        let h = g.hidden_singles_upto(grp, digits - 1);
        lemma_single_out(h, grp, digits - 1);
        lemma_refines_trans(h.single_out(grp, digits - 1), h, g);
    }
}

impl GridView {
    /// The grid after `rule` has been applied to the first `groups` groups in
    /// turn: the rows, then the columns, then the boxes. Each group is
    /// judged as the groups before it have left it.
    pub open spec fn sweep(self, rule: GroupRule, groups: int) -> GridView
        decreases groups,
    {
        if groups <= 0 {
            self
        } else {
            rule.apply(self.sweep(rule, groups - 1), groups - 1)
        }
    }

    /// The grid after a pass of hidden singles over all groups.
    pub open spec fn hidden_singles(self) -> GridView {
        self.sweep(GroupRule::HiddenSingles, 27)
    }

    /// The grid after a pass of naked tuples over all groups.
    pub open spec fn naked_tuples(self) -> GridView {
        self.sweep(GroupRule::NakedTuples, 27)
    }

    /// The grid after a pass of hidden tuples over all groups.
    pub open spec fn hidden_tuples(self) -> GridView {
        self.sweep(GroupRule::HiddenTuples, 27)
    }
}

/// A pass of a rule over groups keeps a grid well formed and refines it.
pub proof fn lemma_sweep(g: GridView, rule: GroupRule, groups: int)
    requires
        g.wf(),
        0 <= groups <= 27,
    ensures
        g.sweep(rule, groups).wf(),
        g.sweep(rule, groups).refines(g),
    decreases groups,
{
    if groups > 0 {
        lemma_sweep(g, rule, groups - 1);
        let h = g.sweep(rule, groups - 1);
        rule.lemma_apply(h, groups - 1);
        lemma_refines_trans(rule.apply(h, groups - 1), h, g);
    }
}

/// Applies `rule` to each row, then each column, then each box.
fn sweep_groups(grid: &mut Grid, rule: GroupRule) -> (changed: bool)
    requires
        old(grid).wf(),
    ensures
        final(grid).wf(),
        final(grid)@ == old(grid)@.sweep(rule, 27),
        changed == (final(grid)@ != old(grid)@),
{
    let ghost g = grid@;
    let mut changed = false;
    let mut grp: usize = 0;
    while grp < 27
        invariant
            grp <= 27,
            g == old(grid)@,
            g.wf(),
            grid.wf(),
            grid@ == g.sweep(rule, grp as int),
            changed == (grid@ != g),
        decreases 27 - grp,
    {
        let ghost before = grid@;
        let moved = rule.run(grid, grp);
        proof {
            lemma_sweep(g, rule, grp as int);
            rule.lemma_apply(before, grp as int);
            lemma_change_adds_up(g, before, grid@);
        }
        changed = changed || moved;
        grp = grp + 1;
    }
    changed
}

/// Hidden singles. For each row, column and box in turn, and each digit in
/// ascending order: if exactly one cell of the group has the digit as a
/// candidate, that cell keeps it as its only candidate. The cell is not
/// marked solved here.
pub fn hidden_singles(grid: &mut Grid) -> (changed: bool)
    requires
        old(grid).wf(),
    ensures
        final(grid).wf(),
        final(grid)@ == old(grid)@.hidden_singles(),
        changed == (final(grid)@ != old(grid)@),
{
    sweep_groups(grid, GroupRule::HiddenSingles)
}

/// Naked tuples. For each row, column and box in turn: where a candidate
/// set of size `k` is shared by exactly `k` cells of the group, its digits
/// are cleared from every other cell of the group.
pub fn naked_tuples(grid: &mut Grid) -> (changed: bool)
    requires
        old(grid).wf(),
    ensures
        final(grid).wf(),
        final(grid)@ == old(grid)@.naked_tuples(),
        changed == (final(grid)@ != old(grid)@),
{
    sweep_groups(grid, GroupRule::NakedTuples)
}

/// Hidden tuples. For each row, column and box in turn, and each size 2, 3
/// and 4: if the digits that are a candidate in at most that many cells of
/// the group, and the cells that have one of them, both number exactly the
/// size, those cells keep only those digits.
pub fn hidden_tuples(grid: &mut Grid) -> (changed: bool)
    requires
        old(grid).wf(),
    ensures
        final(grid).wf(),
        final(grid)@ == old(grid)@.hidden_tuples(),
        changed == (final(grid)@ != old(grid)@),
{
    sweep_groups(grid, GroupRule::HiddenTuples)
}

} // verus!
