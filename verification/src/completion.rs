//! Fillings of the board, and why the search finds a solved grid whenever
//! the grid it starts from can be completed.
//!
//! A filling gives every position a digit. It is valid if no row, column or
//! box holds a digit twice, and it completes a grid if it agrees with every
//! solved cell and picks a candidate of every unsolved cell. A deduction is
//! sound if every valid filling that completes the grid before it completes
//! the grid after it.

use crate::basic_sudoku::{
    box_col_has, box_points_along_col, box_points_along_row, box_points_at, box_row_has,
    confined_to_col, confined_to_row, first_holder, hidden_tuple_hit, holder_flags, holders,
    is_hidden_tuple, is_naked_tuple, lemma_box_cell, lemma_hidden_tuple, lemma_single_out,
    naked_tuple_rules_out, naked_tuples_hit, pointed_at, pointing_tuples_hit, rare_digits,
    same_flags, sees_solved, solved_hit, solved_in_group, touched, touches, GroupRule,
};
use crate::chess_strategies::{attacked, chess_hit, solved_with, ChessMove};
use crate::grid::{
    group_cell, in_group, index_in_group, lemma_group_cell, lemma_group_index, CellView,
    GridView,
};
use crate::laws::{lemma_one_holder, lemma_single_candidate};
use crate::pigeonhole::{lemma_count_one, lemma_onto};
use crate::solver::{
    guess, lemma_guess, lemma_propagate, lemma_step_from, propagate, search, step_from,
    step_result, target, try_digits, is_target, Strategy,
};
use crate::strike::{lemma_strike_cell, lemma_strike_refines};
use vstd::prelude::*;

verus! {

impl CellView {
    /// The cell can hold digit `n`: it is solved with `n`, or `n` is one of
    /// its candidates.
    pub open spec fn admits(self, n: int) -> bool {
        match self {
            CellView::Solved(m) => m == n,
            CellView::Unsolved(_) => self.has(n),
        }
    }
}

/// `s` gives each of the 81 positions a digit in `0..9`.
pub open spec fn is_filling(s: Seq<int>) -> bool {
    &&& s.len() == 81
    &&& forall|p: int| 0 <= p < 81 ==> 0 <= #[trigger] s[p] < 9
}

/// The digit that filling `s` puts in the `k`-th cell of group `grp`.
pub open spec fn digit_in(s: Seq<int>, grp: int, k: int) -> int {
    s[group_cell(grp, k)]
}

/// `s` is a filling in which no row, column or box holds a digit twice.
pub open spec fn is_valid(s: Seq<int>) -> bool {
    &&& is_filling(s)
    &&& forall|grp: int, i: int, j: int|
        0 <= grp < 27 && 0 <= i < 9 && 0 <= j < 9 && i != j ==> #[trigger] digit_in(s, grp, i)
            != #[trigger] digit_in(s, grp, j)
}

/// In filling `s` no two positions one move of the piece apart hold the
/// same digit.
pub open spec fn obeys(s: Seq<int>, piece: ChessMove) -> bool {
    forall|p: int, q: int|
        0 <= p < 81 && 0 <= q < 81 && #[trigger] piece.reaches(p, q) ==> s[p] != s[q]
}

/// Filling `s` completes grid `g`: every cell of `g` can hold the digit
/// that `s` gives it.
pub open spec fn completes(s: Seq<int>, g: GridView) -> bool {
    &&& is_filling(s)
    &&& forall|p: int| 0 <= p < 81 ==> (#[trigger] g.cells[p]).admits(s[p])
}

/// No unsolved cell of `g` has a candidate that is the digit of a solved
/// cell in one of its groups: basic elimination has nothing left to do.
pub open spec fn is_eliminated(g: GridView) -> bool {
    forall|p: int, d: int|
        0 <= p < 81 && 0 <= d < 9 && #[trigger] g.cells[p].has(d) ==> !sees_solved(g, 27, p, d)
}

/// `h` came from `g` by clearing candidates alone: it refines `g`, and the
/// cells that are unsolved in `g` are unsolved in `h`.
pub open spec fn narrows(h: GridView, g: GridView) -> bool {
    &&& h.refines(g)
    &&& forall|p: int| 0 <= p < 81 && (#[trigger] g.cells[p]) is Unsolved ==> h.cells[p] is Unsolved
}

/// In a valid filling two different positions of a group hold different digits.
pub proof fn lemma_group_differs(s: Seq<int>, grp: int, p: int, q: int)
    requires
        is_valid(s),
        0 <= grp < 27,
        0 <= p < 81,
        0 <= q < 81,
        p != q,
        in_group(grp, p),
        in_group(grp, q),
    ensures
        s[p] != s[q],
{
    lemma_group_index(grp, p);
    lemma_group_index(grp, q);
    let i = index_in_group(grp, p);
    let j = index_in_group(grp, q);
    assert(digit_in(s, grp, i) != digit_in(s, grp, j));
}

/// In a valid filling every group holds every digit.
pub proof fn lemma_group_holds(s: Seq<int>, grp: int, d: int)
    requires
        is_valid(s),
        0 <= grp < 27,
        0 <= d < 9,
    ensures
        exists|k: int| 0 <= k < 9 && #[trigger] digit_in(s, grp, k) == d,
{
    let all = Seq::new(9, |i: int| true);
    let f = |k: int| digit_in(s, grp, k);
    assert forall|i: int| 0 <= i < all.len() && #[trigger] all[i] implies 0 <= f(i) < all.len()
        && all[f(i)] by {
        lemma_group_cell(grp, i);
    }
    assert forall|i: int, j: int|
        0 <= i < all.len() && 0 <= j < all.len() && #[trigger] all[i] && #[trigger] all[j] && f(i)
            == f(j) implies i == j by {
        if i != j {
            assert(digit_in(s, grp, i) != digit_in(s, grp, j));
        }
    }
    lemma_onto(all, all, f);
    assert(all[d]);
    let k = choose|k: int| 0 <= k < all.len() && #[trigger] all[k] && f(k) == d;
    assert(0 <= k < 9 && digit_in(s, grp, k) == d);
}

/// Clearing candidates keeps a grid eliminated.
pub proof fn lemma_narrows_eliminated(h: GridView, g: GridView)
    requires
        g.wf(),
        h.wf(),
        narrows(h, g),
        is_eliminated(g),
    ensures
        is_eliminated(h),
{
    assert forall|p: int, d: int| 0 <= p < 81 && 0 <= d < 9 && #[trigger] h.cells[p].has(
        d,
    ) implies !sees_solved(h, 27, p, d) by {
        assert(h.cells[p].refines(g.cells[p]));
        assert(g.cells[p].has(d));
        if sees_solved(h, 27, p, d) {
            let grp = choose|grp: int|
                0 <= grp < 27 && in_group(grp, p) && #[trigger] solved_in_group(h, grp, d, 9);
            let k = choose|k: int|
                0 <= k < 9 && #[trigger] h.group(grp)[k] == CellView::Solved(d);
            lemma_group_cell(grp, k);
            let q = group_cell(grp, k);
            assert(h.cells[q].refines(g.cells[q]));
            assert(g.cells[q] is Solved);
            assert(g.group(grp)[k] == CellView::Solved(d));
            assert(solved_in_group(g, grp, d, 9));
            assert(sees_solved(g, 27, p, d));
        }
    }
}

/// Narrowing goes on: what narrows a grid that narrows `g` narrows `g`.
pub proof fn lemma_narrows_trans(a: GridView, b: GridView, c: GridView)
    requires
        narrows(a, b),
        narrows(b, c),
    ensures
        narrows(a, c),
{
    crate::progress::lemma_refines_trans(a, b, c);
    assert forall|p: int|
        0 <= p < 81 && (#[trigger] c.cells[p]) is Unsolved implies a.cells[p] is Unsolved by {
        assert(b.cells[p] is Unsolved);
    }
}

/// Striking keeps a filling complete if it strikes, for no unsolved cell,
/// the digit that the filling gives the cell. Striking narrows the grid.
pub proof fn lemma_strike_completes(g: GridView, hit: spec_fn(int, int) -> bool, s: Seq<int>)
    requires
        g.wf(),
        completes(s, g),
        forall|p: int| 0 <= p < 81 && (#[trigger] g.cells[p]) is Unsolved ==> !hit(p, s[p]),
    ensures
        completes(s, g.strike(hit)),
        narrows(g.strike(hit), g),
        g.strike(hit).wf(),
{
    lemma_strike_refines(g, hit);
    assert forall|p: int| 0 <= p < 81 implies (#[trigger] g.strike(hit).cells[p]).admits(s[p]) by {
        lemma_strike_cell(g, hit, p);
        assert(g.cells[p].admits(s[p]));
    }
    assert forall|p: int| 0 <= p < 81 && (#[trigger] g.cells[p]) is Unsolved implies g.strike(
        hit,
    ).cells[p] is Unsolved by {
        lemma_strike_cell(g, hit, p);
    }
}

/// Naked singles are sound: a filling that completes the grid completes it
/// after the naked singles are solved.
pub proof fn lemma_naked_singles_sound(g: GridView, s: Seq<int>)
    requires
        g.wf(),
        completes(s, g),
    ensures
        completes(s, g.naked_singles()),
{
    assert forall|p: int| 0 <= p < 81 implies (#[trigger] g.naked_singles().cells[p]).admits(
        s[p],
    ) by {
        let cell = g.cells[p];
        assert(cell.wf());
        assert(cell.admits(s[p]));
        if cell is Unsolved && cell.count() == 1 {
            lemma_single_candidate(cell);
        }
    }
}

/// Basic elimination is sound for valid fillings, and it leaves the grid
/// eliminated.
pub proof fn lemma_basic_elimination_sound(g: GridView, s: Seq<int>)
    requires
        g.wf(),
        is_valid(s),
        completes(s, g),
    ensures
        completes(s, g.basic_elimination()),
{
    assert forall|p: int| 0 <= p < 81 && (#[trigger] g.cells[p]) is Unsolved implies !solved_hit(
        g,
    )(p, s[p]) by {
        let d = s[p];
        if sees_solved(g, 27, p, d) {
            let grp = choose|grp: int|
                0 <= grp < 27 && in_group(grp, p) && #[trigger] solved_in_group(g, grp, d, 9);
            let k = choose|k: int|
                0 <= k < 9 && #[trigger] g.group(grp)[k] == CellView::Solved(d);
            lemma_group_cell(grp, k);
            let q = group_cell(grp, k);
            assert(g.cells[q].admits(s[q]));
            lemma_group_differs(s, grp, p, q);
        }
    }
    lemma_strike_completes(g, solved_hit(g), s);
}

/// A grid that basic elimination leaves as it is, is eliminated.
pub proof fn lemma_unchanged_is_eliminated(g: GridView)
    requires
        g.wf(),
        g.basic_elimination() == g,
    ensures
        is_eliminated(g),
{
    assert forall|p: int, d: int| 0 <= p < 81 && 0 <= d < 9 && #[trigger] g.cells[p].has(
        d,
    ) implies !sees_solved(g, 27, p, d) by {
        lemma_strike_cell(g, solved_hit(g), p);
        assert(g.strike(solved_hit(g)).cells[p].has(d) == (g.cells[p].has(d) && !solved_hit(g)(
            p,
            d,
        )));
    }
}

/// The chess rules are sound for fillings that obey them.
pub proof fn lemma_chess_rule_sound(g: GridView, piece: ChessMove, s: Seq<int>)
    requires
        g.wf(),
        obeys(s, piece),
        completes(s, g),
    ensures
        completes(s, g.exclude_by(piece)),
{
    let hit = chess_hit(g, piece, 81);
    assert forall|p: int| 0 <= p < 81 && (#[trigger] g.cells[p]) is Unsolved implies !hit(
        p,
        s[p],
    ) by {
        let d = s[p];
        if attacked(g, piece, 81, p, d) {
            let q = choose|q: int|
                0 <= q < 81 && piece.reaches(p, q) && #[trigger] solved_with(g, q, d);
            assert(g.cells[q].admits(s[q]));
        }
    }
    lemma_strike_completes(g, hit, s);
}

/// Singling out a digit is sound on an eliminated grid, and narrows it.
pub proof fn lemma_single_out_sound(g: GridView, grp: int, d: int, s: Seq<int>)
    requires
        g.wf(),
        is_valid(s),
        completes(s, g),
        is_eliminated(g),
        0 <= grp < 27,
        0 <= d < 9,
    ensures
        g.single_out(grp, d).wf(),
        completes(s, g.single_out(grp, d)),
        narrows(g.single_out(grp, d), g),
{
    lemma_single_out(g, grp, d);
    let cells = g.group(grp);
    let h = g.single_out(grp, d);
    if holders(cells, d) == 1 {
        let k = first_holder(cells, d);
        lemma_group_cell(grp, k);
        let q = group_cell(grp, k);
        lemma_group_holds(s, grp, d);
        let j = choose|j: int| 0 <= j < 9 && #[trigger] digit_in(s, grp, j) == d;
        lemma_group_cell(grp, j);
        let z = group_cell(grp, j);
        assert(g.cells[z].admits(s[z]));
        assert(g.cells[q].has(d));
        if g.cells[z] is Solved {
            assert(g.group(grp)[j] == CellView::Solved(d));
            assert(solved_in_group(g, grp, d, 9));
            assert(sees_solved(g, 27, q, d));
        }
        assert(cells[j].has(d));
        lemma_one_holder(cells, d, j);
        assert(s[q] == d);
        assert forall|p: int| 0 <= p < 81 implies (#[trigger] h.cells[p]).admits(s[p]) by {
            assert(g.cells[p].admits(s[p]));
        }
    }
    assert forall|p: int|
        0 <= p < 81 && (#[trigger] g.cells[p]) is Unsolved implies h.cells[p] is Unsolved by {}
}

/// Singling out the digits of a group one after the other is sound on an
/// eliminated grid, and narrows it.
pub proof fn lemma_hidden_singles_upto_sound(g: GridView, grp: int, digits: int, s: Seq<int>)
    requires
        g.wf(),
        is_valid(s),
        completes(s, g),
        is_eliminated(g),
        0 <= grp < 27,
        0 <= digits <= 9,
    ensures
        g.hidden_singles_upto(grp, digits).wf(),
        completes(s, g.hidden_singles_upto(grp, digits)),
        narrows(g.hidden_singles_upto(grp, digits), g),
    decreases digits,
{
    if digits > 0 {
        lemma_hidden_singles_upto_sound(g, grp, digits - 1, s);
        let h = g.hidden_singles_upto(grp, digits - 1);
        lemma_narrows_eliminated(h, g);
        lemma_single_out_sound(h, grp, digits - 1, s);
        lemma_narrows_trans(h.single_out(grp, digits - 1), h, g);
    } else {
        lemma_narrows_self(g);
    }
}

/// A grid narrows itself.
pub proof fn lemma_narrows_self(g: GridView)
    ensures
        narrows(g, g),
{
    assert forall|p: int| 0 <= p < 81 implies (#[trigger] g.cells[p]).refines(g.cells[p]) by {}
}

/// The naked tuples of a group are sound.
pub proof fn lemma_naked_tuples_sound(g: GridView, grp: int, s: Seq<int>)
    requires
        g.wf(),
        is_valid(s),
        completes(s, g),
        0 <= grp < 27,
    ensures
        g.naked_tuples_in(grp).wf(),
        completes(s, g.naked_tuples_in(grp)),
        narrows(g.naked_tuples_in(grp), g),
{
    let cells = g.group(grp);
    let hit = naked_tuples_hit(grp, cells, 9);
    assert forall|p: int| 0 <= p < 81 && (#[trigger] g.cells[p]) is Unsolved implies !hit(
        p,
        s[p],
    ) by {
        let d = s[p];
        if in_group(grp, p) {
            lemma_group_index(grp, p);
            let i = index_in_group(grp, p);
            if naked_tuple_rules_out(cells, 9, i, d) {
                let j = choose|j: int|
                    0 <= j < 9 && #[trigger] is_naked_tuple(cells, j) && cells[j] != cells[i]
                        && cells[j].has(d);
                let from = same_flags(cells, cells[j]);
                let to = cells[j]->Unsolved_0;
                let f = |k: int| digit_in(s, grp, k);
                lemma_group_cell(grp, j);
                assert(g.cells[group_cell(grp, j)].wf());
                assert forall|k: int| 0 <= k < from.len() && #[trigger] from[k] implies 0 <= f(k)
                    < to.len() && to[f(k)] by {
                    lemma_group_cell(grp, k);
                    assert(g.cells[group_cell(grp, k)].admits(s[group_cell(grp, k)]));
                }
                assert forall|a: int, b: int|
                    0 <= a < from.len() && 0 <= b < from.len() && #[trigger] from[a]
                        && #[trigger] from[b] && f(a) == f(b) implies a == b by {
                    if a != b {
                        assert(digit_in(s, grp, a) != digit_in(s, grp, b));
                    }
                }
                lemma_onto(from, to, f);
                assert(to[d]);
                let k = choose|k: int| 0 <= k < from.len() && #[trigger] from[k] && f(k) == d;
                assert(cells[k] == cells[j]);
                assert(k != i);
                assert(digit_in(s, grp, k) != digit_in(s, grp, i));
            }
        }
    }
    lemma_strike_completes(g, hit, s);
}

/// For each digit, a cell of the group in which a valid filling puts it.
pub open spec fn place_of(s: Seq<int>, grp: int) -> spec_fn(int) -> int {
    |d: int| choose|k: int| 0 <= k < 9 && #[trigger] digit_in(s, grp, k) == d
}

/// A round of hidden tuples is sound on a grid that narrows an eliminated
/// grid whose group gave the holder counts.
pub proof fn lemma_hidden_tuple_sound(
    g: GridView,
    start: GridView,
    grp: int,
    len: int,
    s: Seq<int>,
)
    requires
        g.wf(),
        start.wf(),
        is_valid(s),
        completes(s, g),
        is_eliminated(start),
        narrows(g, start),
        0 <= grp < 27,
    ensures
        g.hidden_tuple(grp, start.group(grp), len).wf(),
        completes(s, g.hidden_tuple(grp, start.group(grp), len)),
        narrows(g.hidden_tuple(grp, start.group(grp), len), g),
{
    let given = start.group(grp);
    let digits = rare_digits(given, len);
    let cells = g.group(grp);
    let marked = touched(cells, digits);
    lemma_hidden_tuple(g, grp, given, len);
    if is_hidden_tuple(cells, digits, len) {
        let hit = hidden_tuple_hit(grp, marked, digits, 9);
        let f = place_of(s, grp);
        assert forall|d: int| 0 <= d < digits.len() && #[trigger] digits[d] implies 0 <= f(d)
            < marked.len() && marked[f(d)] && digit_in(s, grp, f(d)) == d by {
            lemma_group_holds(s, grp, d);
            let k = f(d);
            lemma_group_cell(grp, k);
            let z = group_cell(grp, k);
            assert(g.cells[z].admits(s[z]));
            if g.cells[z] is Solved {
                assert(g.cells[z].refines(start.cells[z]));
                assert(start.cells[z] is Solved);
                assert(start.group(grp)[k] == CellView::Solved(d));
                assert(solved_in_group(start, grp, d, 9));
                let flags = holder_flags(given, d);
                crate::grid::lemma_first_true(flags, 9);
                let w = first_holder(given, d);
                lemma_group_cell(grp, w);
                assert(start.cells[group_cell(grp, w)].has(d));
                assert(sees_solved(start, 27, group_cell(grp, w), d));
            }
            assert(cells[k].has(d));
            assert(touches(cells[k], digits, 9));
        }
        assert forall|a: int, b: int|
            0 <= a < digits.len() && 0 <= b < digits.len() && #[trigger] digits[a]
                && #[trigger] digits[b] && f(a) == f(b) implies a == b by {
            assert(digit_in(s, grp, f(a)) == a);
            assert(digit_in(s, grp, f(b)) == b);
        }
        lemma_onto(digits, marked, f);
        assert forall|p: int| 0 <= p < 81 && (#[trigger] g.cells[p]) is Unsolved implies !hit(
            p,
            s[p],
        ) by {
            if in_group(grp, p) {
                lemma_group_index(grp, p);
                let i = index_in_group(grp, p);
                if marked[i] {
                    let d = choose|d: int| 0 <= d < digits.len() && #[trigger] digits[d] && f(d)
                        == i;
                    assert(digit_in(s, grp, f(d)) == d);
                    assert(s[p] == d);
                }
            }
        }
        lemma_strike_completes(g, hit, s);
    } else {
        lemma_narrows_self(g);
    }
}

/// The hidden tuples of a group are sound on an eliminated grid.
pub proof fn lemma_hidden_tuples_sound(g: GridView, grp: int, s: Seq<int>)
    requires
        g.wf(),
        is_valid(s),
        completes(s, g),
        is_eliminated(g),
        0 <= grp < 27,
    ensures
        g.hidden_tuples_in(grp).wf(),
        completes(s, g.hidden_tuples_in(grp)),
        narrows(g.hidden_tuples_in(grp), g),
{
    let given = g.group(grp);
    lemma_narrows_self(g);
    lemma_hidden_tuple_sound(g, g, grp, 2, s);
    let g1 = g.hidden_tuple(grp, given, 2);
    lemma_hidden_tuple_sound(g1, g, grp, 3, s);
    let g2 = g1.hidden_tuple(grp, given, 3);
    lemma_narrows_trans(g2, g1, g);
    lemma_hidden_tuple_sound(g2, g, grp, 4, s);
    let g3 = g2.hidden_tuple(grp, given, 4);
    lemma_narrows_trans(g3, g2, g);
}

/// Row and column of the `k`-th cell of box `b`, and where they lie in
/// their bands of three.
pub proof fn lemma_box_position(b: int, k: int)
    requires
        0 <= b < 9,
        0 <= k < 9,
    ensures
        0 <= group_cell(18 + b, k) < 81,
        group_cell(18 + b, k) / 9 == (b / 3) * 3 + k / 3,
        group_cell(18 + b, k) % 9 == (b % 3) * 3 + k % 3,
        (group_cell(18 + b, k) / 9) / 3 == b / 3,
        (group_cell(18 + b, k) % 9) / 3 == b % 3,
        (group_cell(18 + b, k) / 9) % 3 == k / 3,
        (group_cell(18 + b, k) % 9) % 3 == k % 3,
{
    lemma_box_cell(b, k / 3, k % 3);
    let r = (b / 3) * 3 + k / 3;
    let c = (b % 3) * 3 + k % 3;
    let z = group_cell(18 + b, k);
    assert(z == r * 9 + c);
    assert(z / 9 == r);
    assert(z % 9 == c);
}

/// A cell of a box that has a digit makes its row and its column of the
/// box have the digit.
proof fn lemma_box_lines_have(g: GridView, b: int, d: int, k: int)
    requires
        0 <= k < 9,
        g.group(18 + b)[k].has(d),
    ensures
        box_row_has(g, b, d, k / 3),
        box_col_has(g, b, d, k % 3),
{
    let i = k / 3;
    let j = k % 3;
    assert(k == 3 * i + j);
}

/// Where a box points along a row at a position, a valid filling that
/// completes the eliminated grid does not give the position the digit.
proof fn lemma_row_pointing_sound(g: GridView, s: Seq<int>, b: int, d: int, p: int)
    requires
        g.wf(),
        is_valid(s),
        completes(s, g),
        is_eliminated(g),
        0 <= b < 9,
        0 <= d < 9,
        0 <= p < 81,
        box_points_along_row(g, b, d, p),
    ensures
        s[p] != d,
{
    let row = p / 9;
    assert(confined_to_row(g, b, d, row % 3));
    lemma_box_place(g, s, b, d);
    let k = place_of(s, 18 + b)(d);
    lemma_box_position(b, k);
    lemma_box_lines_have(g, b, d, k);
    let z = group_cell(18 + b, k);
    assert(k / 3 == row % 3);
    assert(z / 9 == row);
    assert(p != z);
    lemma_group_differs(s, row, p, z);
}

/// Where a box points along a column at a position, a valid filling that
/// completes the eliminated grid does not give the position the digit.
proof fn lemma_col_pointing_sound(g: GridView, s: Seq<int>, b: int, d: int, p: int)
    requires
        g.wf(),
        is_valid(s),
        completes(s, g),
        is_eliminated(g),
        0 <= b < 9,
        0 <= d < 9,
        0 <= p < 81,
        box_points_along_col(g, b, d, p),
    ensures
        s[p] != d,
{
    let col = p % 9;
    assert(confined_to_col(g, b, d, col % 3));
    assert(box_col_has(g, b, d, col % 3));
    lemma_col_has_row_has(g, b, d, col % 3);
    lemma_box_place(g, s, b, d);
    let k = place_of(s, 18 + b)(d);
    lemma_box_position(b, k);
    lemma_box_lines_have(g, b, d, k);
    let z = group_cell(18 + b, k);
    assert(k % 3 == col % 3);
    assert(z % 9 == col);
    assert(p != z);
    lemma_group_differs(s, 9 + col, p, z);
}

/// A digit that a column of a box has, a row of the box has.
proof fn lemma_col_has_row_has(g: GridView, b: int, d: int, j: int)
    requires
        0 <= j < 3,
        box_col_has(g, b, d, j),
    ensures
        box_row_has(g, b, d, 0) || box_row_has(g, b, d, 1) || box_row_has(g, b, d, 2),
{
}

/// Box-line reduction is sound on an eliminated grid.
pub proof fn lemma_pointing_tuples_sound(g: GridView, s: Seq<int>)
    requires
        g.wf(),
        is_valid(s),
        completes(s, g),
        is_eliminated(g),
    ensures
        completes(s, g.pointing_tuples()),
{
    let hit = pointing_tuples_hit(g);
    assert forall|p: int| 0 <= p < 81 && (#[trigger] g.cells[p]) is Unsolved implies !hit(
        p,
        s[p],
    ) by {
        let d = s[p];
        if pointed_at(g, 9, p, d) {
            let b = choose|b: int| 0 <= b < 9 && #[trigger] box_points_at(g, b, d, p);
            if box_points_along_row(g, b, d, p) {
                lemma_row_pointing_sound(g, s, b, d, p);
            } else {
                lemma_col_pointing_sound(g, s, b, d, p);
            }
        }
    }
    lemma_strike_completes(g, hit, s);
}

/// Where a digit is a candidate in a box of an eliminated grid, a valid
/// filling that completes the grid puts the digit in a cell of the box that
/// has it as a candidate.
pub proof fn lemma_box_place(g: GridView, s: Seq<int>, b: int, d: int)
    requires
        g.wf(),
        is_valid(s),
        completes(s, g),
        is_eliminated(g),
        0 <= b < 9,
        0 <= d < 9,
        box_row_has(g, b, d, 0) || box_row_has(g, b, d, 1) || box_row_has(g, b, d, 2),
    ensures
        0 <= place_of(s, 18 + b)(d) < 9,
        digit_in(s, 18 + b, place_of(s, 18 + b)(d)) == d,
        g.group(18 + b)[place_of(s, 18 + b)(d)].has(d),
{
    let grp = 18 + b;
    lemma_group_holds(s, grp, d);
    let k = place_of(s, grp)(d);
    lemma_group_cell(grp, k);
    let z = group_cell(grp, k);
    assert(g.cells[z].admits(s[z]));
    if g.cells[z] is Solved {
        assert(g.group(grp)[k] == CellView::Solved(d));
        assert(solved_in_group(g, grp, d, 9));
        let cells = g.group(grp);
        let w = if cells[0].has(d) {
            0
        } else if cells[1].has(d) {
            1
        } else if cells[2].has(d) {
            2
        } else if cells[3].has(d) {
            3
        } else if cells[4].has(d) {
            4
        } else if cells[5].has(d) {
            5
        } else if cells[6].has(d) {
            6
        } else if cells[7].has(d) {
            7
        } else {
            8int
        };
        assert(cells[w].has(d));
        lemma_group_cell(grp, w);
        assert(sees_solved(g, 27, group_cell(grp, w), d));
    }
}

impl GroupRule {
    /// Whether the rule is sound only on an eliminated grid.
    pub open spec fn needs_elimination(self) -> bool {
        self is HiddenSingles || self is HiddenTuples
    }

    /// The rule, applied to one group, is sound and narrows the grid.
    pub proof fn lemma_apply_sound(self, g: GridView, grp: int, s: Seq<int>)
        requires
            g.wf(),
            is_valid(s),
            completes(s, g),
            self.needs_elimination() ==> is_eliminated(g),
            0 <= grp < 27,
        ensures
            self.apply(g, grp).wf(),
            completes(s, self.apply(g, grp)),
            narrows(self.apply(g, grp), g),
    {
        match self {
            GroupRule::HiddenSingles => lemma_hidden_singles_upto_sound(g, grp, 9, s),
            GroupRule::NakedTuples => lemma_naked_tuples_sound(g, grp, s),
            GroupRule::HiddenTuples => lemma_hidden_tuples_sound(g, grp, s),
        }
    }

    /// A pass of the rule over groups is sound and narrows the grid.
    pub proof fn lemma_sweep_sound(self, g: GridView, groups: int, s: Seq<int>)
        requires
            g.wf(),
            is_valid(s),
            completes(s, g),
            self.needs_elimination() ==> is_eliminated(g),
            0 <= groups <= 27,
        ensures
            g.sweep(self, groups).wf(),
            completes(s, g.sweep(self, groups)),
            narrows(g.sweep(self, groups), g),
        decreases groups,
    {
        if groups > 0 {
            self.lemma_sweep_sound(g, groups - 1, s);
            let h = g.sweep(self, groups - 1);
            if self.needs_elimination() {
                lemma_narrows_eliminated(h, g);
            }
            self.lemma_apply_sound(h, groups - 1, s);
            lemma_narrows_trans(self.apply(h, groups - 1), h, g);
        } else {
            lemma_narrows_self(g);
        }
    }
}

impl Strategy {
    /// Whether the strategy is sound only on a grid on which basic
    /// elimination has nothing left to do.
    pub open spec fn needs_elimination(self) -> bool {
        self is HiddenSingles || self is HiddenTuples || self is PointingTuples
    }

    /// Whether the strategy deduces only what holds of filling `s`: the
    /// chess rules do so if the filling obeys them, the others always.
    pub open spec fn holds_of(self, s: Seq<int>) -> bool {
        match self {
            Strategy::Kings => obeys(s, ChessMove::King),
            Strategy::Knights => obeys(s, ChessMove::Knight),
            _ => true,
        }
    }

    /// Every strategy is sound: a valid filling that completes the grid
    /// completes the grid that the strategy makes of it.
    pub proof fn lemma_sound(self, g: GridView, s: Seq<int>)
        requires
            g.wf(),
            is_valid(s),
            completes(s, g),
            self.holds_of(s),
            self.needs_elimination() ==> is_eliminated(g),
        ensures
            completes(s, self.result(g)),
    {
        match self {
            Strategy::NakedSingles => lemma_naked_singles_sound(g, s),
            Strategy::BasicElimination => lemma_basic_elimination_sound(g, s),
            Strategy::HiddenSingles => GroupRule::HiddenSingles.lemma_sweep_sound(g, 27, s),
            Strategy::NakedTuples => GroupRule::NakedTuples.lemma_sweep_sound(g, 27, s),
            Strategy::HiddenTuples => GroupRule::HiddenTuples.lemma_sweep_sound(g, 27, s),
            Strategy::PointingTuples => lemma_pointing_tuples_sound(g, s),
            Strategy::Kings => lemma_chess_rule_sound(g, ChessMove::King, s),
            Strategy::Knights => lemma_chess_rule_sound(g, ChessMove::Knight, s),
        }
    }
}

/// The pipeline deduces only what holds of filling `s`: each of its
/// strategies does, and each strategy that needs an eliminated grid comes
/// after basic elimination.
pub open spec fn deduces_for(strategies: Seq<Strategy>, s: Seq<int>) -> bool {
    forall|i: int|
        0 <= i < strategies.len() ==> (#[trigger] strategies[i]).holds_of(s) && (
        strategies[i].needs_elimination() ==> exists|j: int|
            0 <= j < i && #[trigger] strategies[j] is BasicElimination)
}

/// A step of such a pipeline is sound.
pub proof fn lemma_step_sound(strategies: Seq<Strategy>, g: GridView, s: Seq<int>, from: int)
    requires
        g.wf(),
        is_valid(s),
        completes(s, g),
        deduces_for(strategies, s),
        0 <= from,
        forall|j: int|
            0 <= j < from && j < strategies.len() ==> (#[trigger] strategies[j]).result(g) == g,
    ensures
        completes(s, step_from(strategies, g, from)),
    decreases strategies.len() - from,
{
    if from < strategies.len() {
        let strategy = strategies[from];
        assert(strategy.holds_of(s));
        if strategy.needs_elimination() {
            let j = choose|j: int| 0 <= j < from && #[trigger] strategies[j] is BasicElimination;
            assert(strategies[j].result(g) == g);
            lemma_unchanged_is_eliminated(g);
        }
        strategy.lemma_sound(g, s);
        if strategy.result(g) == g {
            lemma_step_sound(strategies, g, s, from + 1);
        }
    }
}

/// Propagation with such a pipeline is sound.
pub proof fn lemma_propagate_sound(strategies: Seq<Strategy>, g: GridView, s: Seq<int>)
    requires
        g.wf(),
        is_valid(s),
        completes(s, g),
        deduces_for(strategies, s),
    ensures
        completes(s, propagate(strategies, g)),
    decreases g.weight(),
{
    if !g.solved() {
        let h = step_result(strategies, g);
        lemma_step_from(strategies, g, 0);
        lemma_step_sound(strategies, g, s, 0);
        if h != g {
            lemma_propagate_sound(strategies, h, s);
        }
    }
}

/// A grid that a filling completes is not broken.
pub proof fn lemma_completed_is_unbroken(g: GridView, s: Seq<int>)
    requires
        g.wf(),
        completes(s, g),
    ensures
        !g.broken(),
{
    if g.broken() {
        let p = choose|p: int|
            0 <= p < 81 && (#[trigger] g.cells[p]) is Unsolved && g.cells[p].count() == 0;
        assert(g.cells[p].admits(s[p]));
        assert(g.cells[p].wf());
        lemma_count_one(g.cells[p]->Unsolved_0, s[p], 9);
    }
}

/// Completeness of the search. If a valid filling completes the grid, the
/// grid is not yet solved, and the pipeline deduces only what holds of the
/// filling, then the search finds a grid, and that grid is solved.
pub proof fn law_search_completes(strategies: Seq<Strategy>, g: GridView, s: Seq<int>)
    requires
        g.wf(),
        !g.solved(),
        is_valid(s),
        completes(s, g),
        deduces_for(strategies, s),
    ensures
        search(strategies, g) is Some,
        search(strategies, g)->Some_0.solved(),
    decreases g.weight(), 10int,
{
    crate::laws::law_search_finds_solved(strategies, g);
    let t = target(g);
    lemma_target_exists(g);
    assert(is_target(g, t));
    assert(g.cells[t].admits(s[t]));
    law_try_digits_completes(strategies, g, s, t, 0);
}

/// An unsolved grid has a cell for the search to branch on.
pub proof fn lemma_target_exists(g: GridView)
    requires
        g.wf(),
        !g.solved(),
    ensures
        is_target(g, target(g)),
{
    lemma_best_upto(g, 81);
    let t = best_upto(g, 81);
    assert(is_target(g, t));
}

/// The unsolved cell with the fewest candidates among the first `n` cells,
/// the first of several; `-1` if these cells are all solved.
pub open spec fn best_upto(g: GridView, n: int) -> int
    decreases n,
{
    if n <= 0 {
        -1
    } else {
        let before = best_upto(g, n - 1);
        if g.cells[n - 1] is Unsolved && (before < 0 || g.cells[n - 1].count()
            < g.cells[before].count()) {
            n - 1
        } else {
            before
        }
    }
}

/// `best_upto` finds the target among the first `n` cells.
pub proof fn lemma_best_upto(g: GridView, n: int)
    requires
        0 <= n <= 81,
    ensures
        -1 <= best_upto(g, n) < n,
        best_upto(g, n) < 0 ==> forall|q: int| 0 <= q < n ==> (#[trigger] g.cells[q]) is Solved,
        best_upto(g, n) >= 0 ==> {
            let t = best_upto(g, n);
            &&& g.cells[t] is Unsolved
            &&& forall|q: int|
                0 <= q < n && (#[trigger] g.cells[q]) is Unsolved ==> g.cells[t].count()
                    <= g.cells[q].count()
            &&& forall|q: int|
                0 <= q < t && (#[trigger] g.cells[q]) is Unsolved ==> g.cells[t].count()
                    < g.cells[q].count()
        },
    decreases n,
{
    if n > 0 {
        lemma_best_upto(g, n - 1);
    }
}

/// Completeness of trying the digits of a cell: if the digit that the
/// filling gives the cell is yet to be tried, a solved grid is found.
pub proof fn law_try_digits_completes(
    strategies: Seq<Strategy>,
    g: GridView,
    s: Seq<int>,
    t: int,
    d: int,
)
    requires
        g.wf(),
        is_valid(s),
        completes(s, g),
        deduces_for(strategies, s),
        0 <= t < 81,
        g.cells[t] is Unsolved,
        0 <= d <= s[t],
    ensures
        try_digits(strategies, g, t, d) is Some,
    decreases g.weight(), 9 - d,
{
    assert(g.cells[t].admits(s[t]));
    if !g.cells[t].has(d) {
        law_try_digits_completes(strategies, g, s, t, d + 1);
    } else {
        let first = guess(g, t, d);
        let h = propagate(strategies, first);
        lemma_guess(g, t, d);
        lemma_propagate(strategies, first);
        if h.solved() {
        } else if d == s[t] {
            assert forall|p: int| 0 <= p < 81 implies (#[trigger] first.cells[p]).admits(s[p]) by {
                assert(g.cells[p].admits(s[p]));
            }
            lemma_propagate_sound(strategies, first, s);
            lemma_completed_is_unbroken(h, s);
            law_search_completes(strategies, h, s);
        } else if h.broken() {
            law_try_digits_completes(strategies, g, s, t, d + 1);
        } else {
            match search(strategies, h) {
                Some(_) => {},
                None => {
                    law_try_digits_completes(strategies, g, s, t, d + 1);
                },
            }
        }
    }
}

/// The four basic strategies in their usual order.
pub open spec fn standard_pipeline() -> Seq<Strategy> {
    seq![
        Strategy::NakedSingles,
        Strategy::BasicElimination,
        Strategy::HiddenSingles,
        Strategy::NakedTuples,
    ]
}

/// The usual pipeline deduces only what holds of every filling.
pub proof fn lemma_standard_pipeline(s: Seq<int>)
    ensures
        deduces_for(standard_pipeline(), s),
{
    let strategies = standard_pipeline();
    assert forall|i: int| 0 <= i < strategies.len() implies (#[trigger] strategies[i]).holds_of(s)
        && (strategies[i].needs_elimination() ==> exists|j: int|
        0 <= j < i && #[trigger] strategies[j] is BasicElimination) by {
        if strategies[i].needs_elimination() {
            assert(i == 2);
            assert(strategies[1] is BasicElimination);
        }
    }
}

/// Grid `g` shows some of the digits of filling `s` and leaves the other
/// cells open.
pub open spec fn shows_part_of(g: GridView, s: Seq<int>) -> bool {
    &&& g.cells.len() == 81
    &&& forall|p: int|
        0 <= p < 81 ==> #[trigger] g.cells[p] == CellView::Solved(s[p]) || g.cells[p]
            == CellView::open_cell()
}

/// The search on a puzzle made by valid digit placement. If the grid shows
/// some digits of a valid filling and leaves the other cells open, and not
/// every cell is shown, then with the usual pipeline the search finds a
/// solved grid.
pub proof fn law_search_solves_puzzles(g: GridView, s: Seq<int>)
    requires
        is_valid(s),
        shows_part_of(g, s),
        !g.solved(),
    ensures
        search(standard_pipeline(), g) is Some,
        search(standard_pipeline(), g)->Some_0.solved(),
{
    assert forall|p: int| 0 <= p < 81 implies (#[trigger] g.cells[p]).wf() && g.cells[p].admits(
        s[p],
    ) by {}
    lemma_standard_pipeline(s);
    law_search_completes(standard_pipeline(), g, s);
}

/// A filling that is valid: each row is the row above it moved on by three,
/// and each band of three rows the band above it moved on by one.
pub open spec fn shifted_filling() -> Seq<int> {
    Seq::new(81, |p: int| (((p / 9) % 3) * 3 + (p / 9) / 3 + p % 9) % 9)
}

/// There is a valid filling.
pub proof fn lemma_shifted_filling_is_valid()
    ensures
        is_valid(shifted_filling()),
{
    let s = shifted_filling();
    assert forall|grp: int, i: int, j: int|
        0 <= grp < 27 && 0 <= i < 9 && 0 <= j < 9 && i != j implies #[trigger] digit_in(s, grp, i)
        != #[trigger] digit_in(s, grp, j) by {
        lemma_shifted_digit(grp, i);
        lemma_shifted_digit(grp, j);
        if grp < 9 {
            lemma_moved_on((grp % 3) * 3 + grp / 3, i, j);
        } else if grp < 18 {
            let x = (i % 3) * 3 + i / 3;
            let y = (j % 3) * 3 + j / 3;
            assert(x != y) by {
                if x == y {
                    assert(i / 3 == j / 3);
                    assert(i % 3 == j % 3);
                }
            }
            lemma_moved_on(grp - 9, x, y);
        } else {
            lemma_moved_on((grp - 18) / 3 + ((grp - 18) % 3) * 3, i, j);
        }
    }
    assert forall|p: int| 0 <= p < 81 implies 0 <= #[trigger] s[p] < 9 by {}
}

/// The search on the open grid: with the usual pipeline it finds a solved grid.
pub proof fn law_search_fills_the_open_grid(g: GridView)
    requires
        g.cells.len() == 81,
        forall|p: int| 0 <= p < 81 ==> #[trigger] g.cells[p] == CellView::open_cell(),
    ensures
        search(standard_pipeline(), g) is Some,
        search(standard_pipeline(), g)->Some_0.solved(),
{
    lemma_shifted_filling_is_valid();
    assert(g.cells[0] is Unsolved);
    law_search_solves_puzzles(g, shifted_filling());
}

/// Two different digits moved on by the same amount stay different.
proof fn lemma_moved_on(by: int, x: int, y: int)
    requires
        0 <= by,
        0 <= x < 9,
        0 <= y < 9,
        x != y,
    ensures
        (by + x) % 9 != (by + y) % 9,
        (x + by) % 9 != (y + by) % 9,
        (x + by) % 9 != (by + y) % 9,
{
    let a = by + x;
    let b = by + y;
    assert(a == 9 * (a / 9) + a % 9);
    assert(b == 9 * (b / 9) + b % 9);
    if a % 9 == b % 9 {
        assert(x - y == 9 * (a / 9 - b / 9));
    }
}

/// The digit of the shifted filling in a cell of a group.
proof fn lemma_shifted_digit(grp: int, k: int)
    requires
        0 <= grp < 27,
        0 <= k < 9,
    ensures
        grp < 9 ==> digit_in(shifted_filling(), grp, k) == ((grp % 3) * 3 + grp / 3 + k) % 9,
        9 <= grp < 18 ==> digit_in(shifted_filling(), grp, k) == ((k % 3) * 3 + k / 3 + grp - 9)
            % 9,
        18 <= grp ==> digit_in(shifted_filling(), grp, k) == (k + (grp - 18) / 3 + ((grp - 18)
            % 3) * 3) % 9,
{
    lemma_group_cell(grp, k);
    let p = group_cell(grp, k);
    if grp >= 18 {
        let b = grp - 18;
        lemma_box_cell(b, k / 3, k % 3);
        let r = (b / 3) * 3 + k / 3;
        let c = (b % 3) * 3 + k % 3;
        assert(p == r * 9 + c);
        assert(p / 9 == r);
        assert(p % 9 == c);
        assert(r % 3 == k / 3);
        assert(r / 3 == b / 3);
    }
}

} // verus!
