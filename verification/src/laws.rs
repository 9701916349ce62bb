//! What holds of the strategies and of the search, on every grid.

use crate::basic_sudoku::{
    box_points_at, confined_to_col, confined_to_row, first_holder, hidden_tuple_hit,
    holder_flags, holders, is_hidden_tuple, is_naked_tuple, lemma_hidden_singles_upto,
    lemma_only, lemma_single_out, lemma_sweep, naked_tuple_rules_out, naked_tuples_hit,
    pointed_at, pointing_tuples_hit, rare_digits, sees_solved, solved_hit, solved_in_group,
    touched, GroupRule,
};
use crate::chess_strategies::{attacked, chess_hit, solved_with, ChessMove};
use crate::grid::{
    count_true, digits_set, group_cell, in_group, index_in_group, lemma_first_true,
    lemma_group_cell, CellView, GridView,
};
use crate::pigeonhole::{lemma_count_one, lemma_count_two};
use crate::progress::{lemma_count_subset, lemma_refines_trans};
use crate::solver::{
    guess, lemma_guess, lemma_propagate, propagate, search, target, try_digits, Strategy,
};
use crate::strike::{lemma_strike_cell, lemma_strike_nothing, lemma_strike_refines};
use vstd::prelude::*;

verus! {

/// The set digits below `n`, listed in ascending order: the list ascends,
/// it holds exactly the digits below `n` whose flag is set, and it is as
/// long as there are such flags.
pub proof fn lemma_digits_set(flags: Seq<bool>, n: int)
    requires
        0 <= n <= flags.len(),
    ensures
        digits_set(flags, n).len() == count_true(flags, n),
        forall|i: int|
            0 <= i < digits_set(flags, n).len() ==> 0 <= #[trigger] digits_set(flags, n)[i] < n
                && flags[digits_set(flags, n)[i]],
        forall|i: int, j: int|
            0 <= i < j < digits_set(flags, n).len() ==> #[trigger] digits_set(flags, n)[i]
                < #[trigger] digits_set(flags, n)[j],
        forall|d: int| 0 <= d < n && flags[d] ==> digits_set(flags, n).contains(d),
    decreases n,
{
    if n > 0 {
        lemma_digits_set(flags, n - 1);
        let before = digits_set(flags, n - 1);
        let now = digits_set(flags, n);
        assert forall|d: int| 0 <= d < n && flags[d] implies now.contains(d) by {
            if d < n - 1 {
                let i = choose|i: int| 0 <= i < before.len() && before[i] == d;
                assert(now[i] == d);
            } else {
                assert(now[now.len() - 1] == d);
            }
        }
    }
}

/// The candidates of a cell, listed: the list ascends, it holds exactly the
/// candidates of the cell, and it is as long as the cell has candidates.
pub proof fn law_candidates(cell: CellView)
    requires
        cell.wf(),
    ensures
        cell.candidates().len() == cell.count(),
        forall|d: int| cell.candidates().contains(d) <==> cell.has(d),
        forall|i: int, j: int|
            0 <= i < j < cell.candidates().len() ==> #[trigger] cell.candidates()[i]
                < #[trigger] cell.candidates()[j],
{
    match cell {
        CellView::Unsolved(flags) => {
            lemma_digits_set(flags, 9);
            assert forall|d: int| cell.candidates().contains(d) implies cell.has(d) by {
                let i = choose|i: int|
                    0 <= i < cell.candidates().len() && cell.candidates()[i] == d;
                assert(0 <= digits_set(flags, 9)[i] < 9 && flags[digits_set(flags, 9)[i]]);
            }
        },
        CellView::Solved(_) => {},
    }
}

/// A cell with exactly one candidate has its least candidate and no other.
pub proof fn lemma_single_candidate(cell: CellView)
    requires
        cell.wf(),
        cell is Unsolved,
        cell.count() == 1,
    ensures
        0 <= cell.least() < 9,
        cell.has(cell.least()),
        forall|d: int| cell.has(d) ==> d == cell.least(),
{
    lemma_first_true(cell->Unsolved_0, 9);
    lemma_only(cell, cell.least());
    assert forall|d: int| cell.has(d) implies d == cell.least() by {
        assert(CellView::only(cell.least()).has(d));
    }
}

/// Naked singles: every unsolved cell with exactly one candidate becomes
/// solved with that candidate, and no other cell is touched.
pub proof fn law_naked_singles(g: GridView, p: int, d: int)
    requires
        g.wf(),
        0 <= p < 81,
    ensures
        g.cells[p] is Unsolved && g.cells[p].count() == 1 && g.cells[p].has(d)
            ==> g.naked_singles().cells[p] == CellView::Solved(d),
        !(g.cells[p] is Unsolved && g.cells[p].count() == 1) ==> g.naked_singles().cells[p]
            == g.cells[p],
{
    assert(g.cells[p].wf());
    if g.cells[p] is Unsolved && g.cells[p].count() == 1 {
        lemma_single_candidate(g.cells[p]);
    }
}

/// Basic elimination, what it clears: where a group holds a solved cell
/// with digit `n`, afterwards no cell of that group has `n` as a candidate,
/// and the solved cell is as it was.
pub proof fn law_basic_elimination_clears(g: GridView, grp: int, k: int, j: int, n: int)
    requires
        g.wf(),
        0 <= grp < 27,
        0 <= k < 9,
        0 <= j < 9,
        g.group(grp)[k] == CellView::Solved(n),
    ensures
        !g.basic_elimination().group(grp)[j].has(n),
        g.basic_elimination().group(grp)[k] == CellView::Solved(n),
{
    lemma_group_cell(grp, k);
    lemma_group_cell(grp, j);
    let p = group_cell(grp, j);
    lemma_strike_cell(g, solved_hit(g), p);
    lemma_strike_cell(g, solved_hit(g), group_cell(grp, k));
    assert(g.cells[group_cell(grp, k)].wf());
    assert(solved_in_group(g, grp, n, 9));
    assert(sees_solved(g, 27, p, n));
}

/// Basic elimination, what it keeps: a solved cell stays as it is, an
/// unsolved cell stays unsolved, and it keeps each candidate that is not the
/// digit of a solved cell in one of its groups.
pub proof fn law_basic_elimination_keeps(g: GridView, p: int, d: int)
    requires
        g.wf(),
        0 <= p < 81,
        0 <= d < 9,
    ensures
        g.cells[p] is Solved ==> g.basic_elimination().cells[p] == g.cells[p],
        g.cells[p] is Unsolved ==> g.basic_elimination().cells[p] is Unsolved,
        g.basic_elimination().cells[p].has(d) == (g.cells[p].has(d) && !sees_solved(g, 27, p, d)),
{
    lemma_strike_cell(g, solved_hit(g), p);
}

/// Box-line reduction along a row: where digit `d` is confined to row `i`
/// of box `b`, afterwards no cell of that row of the board outside the box
/// has `d` as a candidate.
pub proof fn law_pointing_row(g: GridView, b: int, d: int, i: int, c: int)
    requires
        g.wf(),
        0 <= b < 9,
        0 <= d < 9,
        0 <= c < 9,
        c / 3 != b % 3,
        confined_to_row(g, b, d, i),
    ensures
        !g.pointing_tuples().cells[((b / 3) * 3 + i) * 9 + c].has(d),
{
    let p = ((b / 3) * 3 + i) * 9 + c;
    assert(p / 9 == (b / 3) * 3 + i);
    assert(p % 9 == c);
    lemma_strike_cell(g, pointing_tuples_hit(g), p);
    assert(box_points_at(g, b, d, p));
    assert(pointed_at(g, 9, p, d));
}

/// Box-line reduction along a column: where digit `d` is confined to
/// column `j` of box `b`, afterwards no cell of that column of the board
/// outside the box has `d` as a candidate.
pub proof fn law_pointing_col(g: GridView, b: int, d: int, j: int, r: int)
    requires
        g.wf(),
        0 <= b < 9,
        0 <= d < 9,
        0 <= r < 9,
        r / 3 != b / 3,
        confined_to_col(g, b, d, j),
    ensures
        !g.pointing_tuples().cells[r * 9 + (b % 3) * 3 + j].has(d),
{
    let p = r * 9 + (b % 3) * 3 + j;
    assert(p / 9 == r);
    assert(p % 9 == (b % 3) * 3 + j);
    lemma_strike_cell(g, pointing_tuples_hit(g), p);
    assert(box_points_at(g, b, d, p));
    assert(pointed_at(g, 9, p, d));
}

/// Box-line reduction, what it keeps: a solved cell stays as it is, an
/// unsolved cell stays unsolved, and it keeps each candidate at which no
/// box points.
pub proof fn law_pointing_keeps(g: GridView, p: int, d: int)
    requires
        g.wf(),
        0 <= p < 81,
        0 <= d < 9,
    ensures
        g.cells[p] is Solved ==> g.pointing_tuples().cells[p] == g.cells[p],
        g.cells[p] is Unsolved ==> g.pointing_tuples().cells[p] is Unsolved,
        g.pointing_tuples().cells[p].has(d) == (g.cells[p].has(d) && !pointed_at(g, 9, p, d)),
{
    lemma_strike_cell(g, pointing_tuples_hit(g), p);
}

/// The chess rules, what they clear and keep: a solved cell stays as it is,
/// an unsolved cell stays unsolved, and it keeps each candidate that is not
/// the digit of a solved cell one move of the piece away.
pub proof fn law_chess_rule(g: GridView, piece: ChessMove, p: int, d: int)
    requires
        g.wf(),
        0 <= p < 81,
        0 <= d < 9,
    ensures
        g.cells[p] is Solved ==> g.exclude_by(piece).cells[p] == g.cells[p],
        g.cells[p] is Unsolved ==> g.exclude_by(piece).cells[p] is Unsolved,
        g.exclude_by(piece).cells[p].has(d) == (g.cells[p].has(d) && !attacked(g, piece, 81, p, d)),
{
    lemma_strike_cell(g, chess_hit(g, piece, 81), p);
}

impl Strategy {
    /// The strategies that judge by the solved cells alone, or solve cells
    /// without regard to others: one pass of them leaves nothing for a second.
    pub open spec fn settles(self) -> bool {
        self is NakedSingles || self is BasicElimination || self is Kings || self is Knights
    }
}

/// Solving the naked singles twice is solving them once.
pub proof fn law_naked_singles_settle(g: GridView)
    requires
        g.wf(),
    ensures
        g.naked_singles().naked_singles() == g.naked_singles(),
{
    let h = g.naked_singles();
    assert forall|p: int| 0 <= p < 81 implies h.cells[p].promote() == h.cells[p] by {}
    assert(h.naked_singles().cells =~= h.cells);
}

/// Basic elimination twice is basic elimination once.
pub proof fn law_basic_elimination_settles(g: GridView)
    requires
        g.wf(),
    ensures
        g.basic_elimination().basic_elimination() == g.basic_elimination(),
{
    let h = g.basic_elimination();
    lemma_strike_refines(g, solved_hit(g));
    assert forall|p: int, d: int| 0 <= p < 81 && 0 <= d < 9 && h.cells[p].has(d) implies !(
    #[trigger] solved_hit(h)(p, d)) by {
        lemma_strike_cell(g, solved_hit(g), p);
        if sees_solved(h, 27, p, d) {
            let grp = choose|grp: int|
                0 <= grp < 27 && in_group(grp, p) && #[trigger] solved_in_group(h, grp, d, 9);
            let k = choose|k: int|
                0 <= k < 9 && #[trigger] h.group(grp)[k] == CellView::Solved(d);
            lemma_group_cell(grp, k);
            lemma_strike_cell(g, solved_hit(g), group_cell(grp, k));
            assert(g.group(grp)[k] == CellView::Solved(d));
            assert(solved_in_group(g, grp, d, 9));
            assert(sees_solved(g, 27, p, d));
        }
    }
    lemma_strike_nothing(h, solved_hit(h));
}

/// A chess rule applied twice is the rule applied once.
pub proof fn law_chess_rule_settles(g: GridView, piece: ChessMove)
    requires
        g.wf(),
    ensures
        g.exclude_by(piece).exclude_by(piece) == g.exclude_by(piece),
{
    let h = g.exclude_by(piece);
    lemma_strike_refines(g, chess_hit(g, piece, 81));
    assert forall|p: int, d: int| 0 <= p < 81 && 0 <= d < 9 && h.cells[p].has(d) implies !(
    #[trigger] chess_hit(h, piece, 81)(p, d)) by {
        lemma_strike_cell(g, chess_hit(g, piece, 81), p);
        if attacked(h, piece, 81, p, d) {
            let q = choose|q: int|
                0 <= q < 81 && piece.reaches(p, q) && #[trigger] solved_with(h, q, d);
            lemma_strike_cell(g, chess_hit(g, piece, 81), q);
            assert(solved_with(g, q, d));
            assert(attacked(g, piece, 81, p, d));
        }
    }
    lemma_strike_nothing(h, chess_hit(h, piece, 81));
}

/// Idempotence: after one call of a strategy that settles, a second call
/// finds the grid as the first left it, so it changes nothing and reports
/// no change.
pub proof fn law_second_call_changes_nothing(strategy: Strategy, g: GridView)
    requires
        g.wf(),
        strategy.settles(),
    ensures
        strategy.result(strategy.result(g)) == strategy.result(g),
{
    match strategy {
        Strategy::NakedSingles => law_naked_singles_settle(g),
        Strategy::BasicElimination => law_basic_elimination_settles(g),
        Strategy::Kings => law_chess_rule_settles(g, ChessMove::King),
        Strategy::Knights => law_chess_rule_settles(g, ChessMove::Knight),
        _ => {},
    }
}

/// A strategy that reports no change on a grid reports none on the next
/// call either: its result depends on the grid alone.
pub proof fn law_no_change_stays(strategy: Strategy, g: GridView)
    requires
        strategy.result(g) == g,
    ensures
        strategy.result(strategy.result(g)) == strategy.result(g),
{
}

/// If exactly one cell of a group has digit `d`, it is that cell which
/// `first_holder` finds.
pub proof fn lemma_one_holder(cells: Seq<CellView>, d: int, k: int)
    requires
        0 <= k < 9,
        holders(cells, d) == 1,
        cells[k].has(d),
    ensures
        first_holder(cells, d) == k,
{
    let flags = holder_flags(cells, d);
    lemma_first_true(flags, 9);
    let f = first_holder(cells, d);
    if f < k {
        lemma_count_two(flags, f, k, 9);
    } else if k < f {
        assert(!flags[k]);
    }
}

/// Hidden singles, one group and one digit: if the digit is a candidate in
/// exactly one cell of the group, that cell's candidates become exactly the
/// digit, and no other cell is touched.
pub proof fn law_hidden_single(g: GridView, grp: int, d: int, k: int)
    requires
        g.wf(),
        0 <= grp < 27,
        0 <= d < 9,
        0 <= k < 9,
        holders(g.group(grp), d) == 1,
        g.group(grp)[k].has(d),
    ensures
        g.single_out(grp, d).group(grp)[k] == CellView::only(d),
        forall|p: int|
            0 <= p < 81 && p != group_cell(grp, k) ==> #[trigger] g.single_out(grp, d).cells[p]
                == g.cells[p],
{
    lemma_one_holder(g.group(grp), d, k);
    lemma_group_cell(grp, k);
}

/// Singling out a digit leaves a cell that has a single candidate as it is.
proof fn lemma_single_out_keeps(h: GridView, grp: int, e: int, q: int, d: int)
    requires
        h.wf(),
        0 <= grp < 27,
        0 <= e < 9,
        0 <= q < 81,
        h.cells[q] == CellView::only(d),
    ensures
        h.single_out(grp, e).cells[q] == CellView::only(d),
{
    lemma_single_out(h, grp, e);
    let cells = h.group(grp);
    if holders(cells, e) == 1 {
        let k = first_holder(cells, e);
        lemma_group_cell(grp, k);
        if group_cell(grp, k) == q {
            assert(h.cells[q].has(e));
            assert(e == d);
        }
    }
}

/// Singling out further digits of a group leaves a cell that has a single
/// candidate as it is.
proof fn lemma_upto_keeps(h: GridView, grp: int, from: int, to: int, q: int, d: int)
    requires
        h.wf(),
        0 <= grp < 27,
        0 <= from <= to <= 9,
        0 <= q < 81,
        h.hidden_singles_upto(grp, from).cells[q] == CellView::only(d),
    ensures
        h.hidden_singles_upto(grp, to).cells[q] == CellView::only(d),
    decreases to - from,
{
    if from < to {
        lemma_upto_keeps(h, grp, from, to - 1, q, d);
        lemma_hidden_singles_upto(h, grp, to - 1);
        lemma_single_out_keeps(h.hidden_singles_upto(grp, to - 1), grp, to - 1, q, d);
    }
}

/// The rest of a pass of hidden singles leaves a cell that has a single
/// candidate as it is.
proof fn lemma_pass_keeps(g: GridView, from: int, to: int, q: int, d: int)
    requires
        g.wf(),
        0 <= from <= to <= 27,
        0 <= q < 81,
        g.sweep(GroupRule::HiddenSingles, from).cells[q] == CellView::only(d),
    ensures
        g.sweep(GroupRule::HiddenSingles, to).cells[q] == CellView::only(d),
    decreases to - from,
{
    if from < to {
        lemma_pass_keeps(g, from, to - 1, q, d);
        lemma_sweep(g, GroupRule::HiddenSingles, to - 1);
        lemma_upto_keeps(g.sweep(GroupRule::HiddenSingles, to - 1), to - 1, 0, 9, q, d);
    }
}

impl GridView {
    /// The grid as a pass of hidden singles finds it when it comes to group
    /// `grp` and digit `d`.
    pub open spec fn hidden_singles_before(self, grp: int, d: int) -> GridView {
        self.sweep(GroupRule::HiddenSingles, grp).hidden_singles_upto(grp, d)
    }
}

/// Hidden singles, the whole pass: if digit `d` is a candidate in exactly
/// one cell of a group, and that cell still has `d` when the pass comes to
/// the group and the digit, then after the pass the cell's candidates are
/// exactly `d`. (A cell loses `d` before that only where it is the one
/// place left for another digit as well.)
pub proof fn law_hidden_singles(g: GridView, grp: int, d: int, k: int)
    requires
        g.wf(),
        0 <= grp < 27,
        0 <= d < 9,
        0 <= k < 9,
        holders(g.group(grp), d) == 1,
        g.group(grp)[k].has(d),
        g.hidden_singles_before(grp, d).group(grp)[k].has(d),
    ensures
        g.hidden_singles().group(grp)[k] == CellView::only(d),
{
    let start = g.sweep(GroupRule::HiddenSingles, grp);
    let reached = g.hidden_singles_before(grp, d);
    let q = group_cell(grp, k);
    lemma_group_cell(grp, k);
    lemma_sweep(g, GroupRule::HiddenSingles, grp);
    lemma_hidden_singles_upto(start, grp, d);
    lemma_refines_trans(reached, start, g);
    let then = holder_flags(reached.group(grp), d);
    let given = holder_flags(g.group(grp), d);
    assert forall|j: int| 0 <= j < 9 && then[j] implies given[j] by {
        lemma_group_cell(grp, j);
        assert(reached.cells[group_cell(grp, j)].refines(g.cells[group_cell(grp, j)]));
    }
    lemma_count_subset(then, given, 9);
    lemma_count_one(then, k, 9);
    law_hidden_single(reached, grp, d, k);
    assert(start.hidden_singles_upto(grp, d + 1).cells[q] == CellView::only(d));
    lemma_upto_keeps(start, grp, d + 1, 9, q, d);
    assert(g.sweep(GroupRule::HiddenSingles, grp + 1).cells[q] == CellView::only(d));
    lemma_pass_keeps(g, grp + 1, 27, q, d);
}

/// Naked tuples, one group: if a candidate set of size `k` is shared by
/// exactly `k` cells of the group, every cell of the group that does not
/// hold that set loses all its digits.
pub proof fn law_naked_tuple(g: GridView, grp: int, j: int, i: int, d: int)
    requires
        g.wf(),
        0 <= grp < 27,
        0 <= j < 9,
        0 <= i < 9,
        is_naked_tuple(g.group(grp), j),
        g.group(grp)[i] != g.group(grp)[j],
        g.group(grp)[j].has(d),
    ensures
        !g.naked_tuples_in(grp).group(grp)[i].has(d),
{
    let p = group_cell(grp, i);
    lemma_group_cell(grp, i);
    lemma_strike_cell(g, naked_tuples_hit(grp, g.group(grp), 9), p);
    assert(naked_tuple_rules_out(g.group(grp), 9, i, d));
}

/// Naked tuples, one group, what is kept: the cells outside the group stay
/// as they are, and a cell of the group keeps each candidate that no naked
/// tuple of the group, other than its own, has.
pub proof fn law_naked_tuple_keeps(g: GridView, grp: int, p: int, d: int)
    requires
        g.wf(),
        0 <= grp < 27,
        0 <= p < 81,
        0 <= d < 9,
    ensures
        !in_group(grp, p) ==> g.naked_tuples_in(grp).cells[p] == g.cells[p],
        g.naked_tuples_in(grp).cells[p].has(d) == (g.cells[p].has(d) && !(in_group(grp, p)
            && naked_tuple_rules_out(g.group(grp), 9, index_in_group(grp, p), d))),
{
    let hit = naked_tuples_hit(grp, g.group(grp), 9);
    lemma_strike_cell(g, hit, p);
    lemma_strike_refines(g, hit);
    if !in_group(grp, p) {
        assert(g.cells[p].wf());
        assert forall|e: int| 0 <= e < 9 implies g.naked_tuples_in(grp).cells[p].has(e)
            == g.cells[p].has(e) by {
            assert(g.strike(hit).cells[p].has(e) == (g.cells[p].has(e) && !hit(p, e)));
        }
        crate::grid::lemma_cell_ext(g.naked_tuples_in(grp).cells[p], g.cells[p]);
    }
}

/// Hidden tuples, one round in one group: if there are `len` digits that
/// were a candidate in at most `len` cells of the group, and `len` cells
/// that have one of them, each of these cells keeps exactly those of its
/// candidates that are among these digits; every other cell stays as it is.
pub proof fn law_hidden_tuple(g: GridView, grp: int, given: Seq<CellView>, len: int, p: int, e: int)
    requires
        g.wf(),
        0 <= grp < 27,
        0 <= p < 81,
        0 <= e < 9,
        is_hidden_tuple(g.group(grp), rare_digits(given, len), len),
    ensures
        g.hidden_tuple(grp, given, len).cells[p].has(e) == (g.cells[p].has(e) && !(in_group(grp, p)
            && touched(g.group(grp), rare_digits(given, len))[index_in_group(grp, p)]
            && !rare_digits(given, len)[e])),
        g.cells[p] is Solved ==> g.hidden_tuple(grp, given, len).cells[p] == g.cells[p],
{
    let digits = rare_digits(given, len);
    let hit = hidden_tuple_hit(grp, touched(g.group(grp), digits), digits, 9);
    lemma_strike_cell(g, hit, p);
    if in_group(grp, p) {
        crate::grid::lemma_group_index(grp, p);
    }
}

/// A pass of a rule over more groups refines the pass over fewer.
pub proof fn lemma_sweep_goes_on(g: GridView, rule: GroupRule, from: int, to: int)
    requires
        g.wf(),
        0 <= from <= to <= 27,
    ensures
        g.sweep(rule, to).refines(g.sweep(rule, from)),
    decreases to - from,
{
    if from < to {
        lemma_sweep_goes_on(g, rule, from, to - 1);
        lemma_sweep(g, rule, to - 1);
        rule.lemma_apply(g.sweep(rule, to - 1), to - 1);
        lemma_refines_trans(g.sweep(rule, to), g.sweep(rule, to - 1), g.sweep(rule, from));
    } else {
        lemma_sweep(g, rule, from);
        assert forall|p: int| 0 <= p < 81 implies (#[trigger] g.sweep(rule, from).cells[p]).refines(
            g.sweep(rule, from).cells[p],
        ) by {}
    }
}

/// Naked tuples, the whole pass: if, when the pass comes to a group, a
/// candidate set of size `k` is shared by exactly `k` of its cells, then
/// after the pass every cell of the group that did not hold that set has
/// none of its digits.
pub proof fn law_naked_tuples(g: GridView, grp: int, j: int, i: int, d: int)
    requires
        g.wf(),
        0 <= grp < 27,
        0 <= j < 9,
        0 <= i < 9,
        is_naked_tuple(g.sweep(GroupRule::NakedTuples, grp).group(grp), j),
        g.sweep(GroupRule::NakedTuples, grp).group(grp)[i] != g.sweep(
            GroupRule::NakedTuples,
            grp,
        ).group(grp)[j],
        g.sweep(GroupRule::NakedTuples, grp).group(grp)[j].has(d),
    ensures
        !g.naked_tuples().group(grp)[i].has(d),
{
    let reached = g.sweep(GroupRule::NakedTuples, grp);
    lemma_sweep(g, GroupRule::NakedTuples, grp);
    law_naked_tuple(reached, grp, j, i, d);
    lemma_sweep_goes_on(g, GroupRule::NakedTuples, grp + 1, 27);
    lemma_group_cell(grp, i);
    let p = group_cell(grp, i);
    assert(g.naked_tuples().cells[p].refines(g.sweep(GroupRule::NakedTuples, grp + 1).cells[p]));
}

/// The search, what it finds: a grid that the search returns is solved, and
/// it refines the grid that the search began with, so every cell that was
/// solved is as it was and every other cell holds one of the candidates
/// that it had.
pub proof fn law_search_finds_solved(strategies: Seq<Strategy>, g: GridView)
    requires
        g.wf(),
    ensures
        search(strategies, g) matches Some(s) ==> s.wf() && s.solved() && s.refines(g),
    decreases g.weight(), 10int,
{
    if !g.solved() {
        law_try_digits_finds_solved(strategies, g, target(g), 0);
    }
}

/// What trying the candidates of a cell finds is solved and refines the grid.
pub proof fn law_try_digits_finds_solved(strategies: Seq<Strategy>, g: GridView, t: int, d: int)
    requires
        g.wf(),
    ensures
        try_digits(strategies, g, t, d) matches Some(s) ==> s.wf() && s.solved() && s.refines(g),
    decreases g.weight(), 9 - d,
{
    if 0 <= t < 81 && 0 <= d < 9 && g.cells[t] is Unsolved {
        if !g.cells[t].has(d) {
            law_try_digits_finds_solved(strategies, g, t, d + 1);
        } else {
            let first = guess(g, t, d);
            let h = propagate(strategies, first);
            lemma_guess(g, t, d);
            lemma_propagate(strategies, first);
            lemma_refines_trans(h, first, g);
            if h.solved() {
            } else if h.broken() {
                law_try_digits_finds_solved(strategies, g, t, d + 1);
            } else {
                law_search_finds_solved(strategies, h);
                match search(strategies, h) {
                    Some(s) => {
                        lemma_refines_trans(s, h, g);
                    },
                    None => {
                        law_try_digits_finds_solved(strategies, g, t, d + 1);
                    },
                }
            }
        }
    }
}

} // verus!
