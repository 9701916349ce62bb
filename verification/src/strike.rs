//! Clearing candidates by position and digit.
//!
//! Most deductions have the same shape: from what the grid shows, a set of
//! pairs (position, digit) is ruled out, and every unsolved cell loses the
//! digits ruled out at its position. `GridView::strike` is that step.

use crate::grid::{
    group_cell, group_position, in_group, index_in_group, lemma_cell_ext, lemma_group_cell,
    lemma_group_index, CellView, Grid, GridView,
};
use crate::progress::lemma_change_adds_up;
use vstd::prelude::*;

verus! {

impl CellView {
    /// The cell without the candidates that `hit` names. A solved cell stays.
    pub open spec fn strike(self, hit: spec_fn(int) -> bool) -> CellView {
        match self {
            CellView::Unsolved(flags) => CellView::Unsolved(
                Seq::new(9, |d: int| flags[d] && !hit(d)),
            ),
            CellView::Solved(_) => self,
        }
    }
}

impl GridView {
    /// The grid in which the cell at each position `p` has lost every
    /// candidate `d` with `hit(p, d)`. Solved cells stay.
    pub open spec fn strike(self, hit: spec_fn(int, int) -> bool) -> GridView {
        GridView { cells: Seq::new(81, |p: int| self.cells[p].strike(|d: int| hit(p, d))) }
    }
}

/// What `strike` leaves of each cell.
pub proof fn lemma_strike_cell(g: GridView, hit: spec_fn(int, int) -> bool, p: int)
    requires
        g.wf(),
        0 <= p < 81,
    ensures
        g.strike(hit).cells[p].wf(),
        g.cells[p] is Solved ==> g.strike(hit).cells[p] == g.cells[p],
        g.cells[p] is Unsolved ==> g.strike(hit).cells[p] is Unsolved,
        forall|d: int|
            0 <= d < 9 ==> (#[trigger] g.strike(hit).cells[p].has(d)) == (g.cells[p].has(d) && !hit(
                p,
                d,
            )),
{
    assert(g.cells[p].wf());
}

/// Striking keeps a grid well formed and refines it.
pub proof fn lemma_strike_refines(g: GridView, hit: spec_fn(int, int) -> bool)
    requires
        g.wf(),
    ensures
        g.strike(hit).wf(),
        g.strike(hit).refines(g),
{
    assert forall|p: int| 0 <= p < 81 implies (#[trigger] g.strike(hit).cells[p]).wf() && g.strike(
        hit,
    ).cells[p].refines(g.cells[p]) by {
        lemma_strike_cell(g, hit, p);
    }
}

/// A grid whose cells are those of `g` less the candidates that `hit` names
/// is `g.strike(hit)`.
pub proof fn lemma_is_strike(h: GridView, g: GridView, hit: spec_fn(int, int) -> bool)
    requires
        g.wf(),
        h.wf(),
        forall|p: int|
            0 <= p < 81 && (#[trigger] g.cells[p]) is Solved ==> h.cells[p] == g.cells[p],
        forall|p: int| 0 <= p < 81 && (#[trigger] g.cells[p]) is Unsolved ==> h.cells[p] is Unsolved,
        forall|p: int, d: int|
            0 <= p < 81 && 0 <= d < 9 ==> (#[trigger] h.cells[p].has(d)) == (g.cells[p].has(d)
                && !hit(p, d)),
    ensures
        h == g.strike(hit),
{
    let s = g.strike(hit);
    assert forall|p: int| 0 <= p < 81 implies h.cells[p] == s.cells[p] by {
        lemma_strike_cell(g, hit, p);
        assert(h.cells[p].wf());
        assert(g.cells[p].wf());
        assert forall|d: int| 0 <= d < 9 implies h.cells[p].has(d) == s.cells[p].has(d) by {
            assert(h.cells[p].has(d) == (g.cells[p].has(d) && !hit(p, d)));
        }
        lemma_cell_ext(h.cells[p], s.cells[p]);
    }
    assert(h.cells =~= s.cells);
}

/// Striking by `first` and then by `second` is striking by `both`, where
/// `both` names a candidate of `g` exactly when one of the two does.
pub proof fn lemma_strike_twice(
    g: GridView,
    first: spec_fn(int, int) -> bool,
    second: spec_fn(int, int) -> bool,
    both: spec_fn(int, int) -> bool,
)
    requires
        g.wf(),
        forall|p: int, d: int|
            0 <= p < 81 && 0 <= d < 9 && g.cells[p].has(d) ==> (#[trigger] both(p, d)) == (first(
                p,
                d,
            ) || second(p, d)),
    ensures
        g.strike(first).strike(second) == g.strike(both),
{
    let mid = g.strike(first);
    let h = mid.strike(second);
    lemma_strike_refines(g, first);
    lemma_strike_refines(mid, second);
    assert forall|p: int| 0 <= p < 81 implies (g.cells[p] is Solved ==> h.cells[p] == g.cells[p])
        && (g.cells[p] is Unsolved ==> h.cells[p] is Unsolved) && (forall|d: int|
        0 <= d < 9 ==> (#[trigger] h.cells[p].has(d)) == (g.cells[p].has(d) && !both(p, d))) by {
        lemma_strike_cell(g, first, p);
        lemma_strike_cell(mid, second, p);
        assert forall|d: int| 0 <= d < 9 implies (#[trigger] h.cells[p].has(d)) == (g.cells[p].has(
            d,
        ) && !both(p, d)) by {
            assert(mid.cells[p].has(d) == (g.cells[p].has(d) && !first(p, d)));
            if g.cells[p].has(d) {
                assert(both(p, d) == (first(p, d) || second(p, d)));
            }
        }
    }
    lemma_is_strike(h, g, both);
}

/// Two rules that name the same candidates of `g` strike it alike.
pub proof fn lemma_strike_same(
    g: GridView,
    one: spec_fn(int, int) -> bool,
    other: spec_fn(int, int) -> bool,
)
    requires
        g.wf(),
        forall|p: int, d: int|
            0 <= p < 81 && 0 <= d < 9 && g.cells[p].has(d) ==> (#[trigger] one(p, d)) == other(
                p,
                d,
            ),
    ensures
        g.strike(one) == g.strike(other),
{
    let h = g.strike(one);
    lemma_strike_refines(g, one);
    assert forall|p: int| 0 <= p < 81 implies (g.cells[p] is Solved ==> h.cells[p] == g.cells[p])
        && (g.cells[p] is Unsolved ==> h.cells[p] is Unsolved) && (forall|d: int|
        0 <= d < 9 ==> (#[trigger] h.cells[p].has(d)) == (g.cells[p].has(d) && !other(p, d))) by {
        lemma_strike_cell(g, one, p);
        assert forall|d: int| 0 <= d < 9 implies (#[trigger] h.cells[p].has(d)) == (g.cells[p].has(
            d,
        ) && !other(p, d)) by {
            if g.cells[p].has(d) {
                assert(one(p, d) == other(p, d));
            }
        }
    }
    lemma_is_strike(h, g, other);
}

/// A rule that names no candidate of `g` leaves it as it is.
pub proof fn lemma_strike_nothing(g: GridView, hit: spec_fn(int, int) -> bool)
    requires
        g.wf(),
        forall|p: int, d: int|
            0 <= p < 81 && 0 <= d < 9 && g.cells[p].has(d) ==> !(#[trigger] hit(p, d)),
    ensures
        g.strike(hit) == g,
{
    assert forall|p: int| 0 <= p < 81 implies (g.cells[p] is Solved ==> g.cells[p] == g.cells[p])
        && (forall|d: int|
        0 <= d < 9 ==> (#[trigger] g.cells[p].has(d)) == (g.cells[p].has(d) && !hit(p, d))) by {
        assert forall|d: int| 0 <= d < 9 implies (#[trigger] g.cells[p].has(d)) == (g.cells[p].has(
            d,
        ) && !hit(p, d)) by {
            if g.cells[p].has(d) {
                assert(!hit(p, d));
            }
        }
    }
    lemma_is_strike(g, g, hit);
}

/// The rule that names digit `d` at position `q` and nothing else.
pub open spec fn single_hit(q: int, d: int) -> spec_fn(int, int) -> bool {
    |p: int, e: int| p == q && e == d
}

/// The rule that names digit `d` at those of the first `upto` cells of
/// group `line` that lie outside its third number `skip`.
pub open spec fn line_hit(line: int, d: int, skip: int, upto: int) -> spec_fn(int, int) -> bool {
    |p: int, e: int|
        e == d && in_group(line, p) && index_in_group(line, p) / 3 != skip && index_in_group(
            line,
            p,
        ) < upto
}

/// The rule that names, at position `q`, the digits below `upto` that `digits` flags.
pub open spec fn digits_hit(q: int, digits: Seq<bool>, upto: int) -> spec_fn(int, int) -> bool {
    |p: int, e: int| p == q && 0 <= e < upto && digits[e]
}

impl Grid {
    /// Clears candidate `d` of the cell in row `r`, column `c`.
    pub fn strike_at(&mut self, r: usize, c: usize, d: usize) -> (changed: bool)
        requires
            old(self).wf(),
            r < 9,
            c < 9,
            d < 9,
        ensures
            final(self).wf(),
            final(self)@ == old(self)@.strike(single_hit(r * 9 + c, d as int)),
            changed == (final(self)@ != old(self)@),
            changed == old(self)@.cells[r * 9 + c].has(d as int),
    {
        let changed = self.0[r][c].remove_candidate(d);
        proof {
            let g = old(self)@;
            let h = self@;
            let q = r * 9 + c;
            assert forall|p: int| 0 <= p < 81 implies #[trigger] h.cells[p] == if p == q {
                g.cells[p].without(d as int)
            } else {
                g.cells[p]
            } by {}
            assert forall|p: int| 0 <= p < 81 implies (#[trigger] h.cells[p]).wf() by {
                assert(g.cells[p].wf());
            }
            assert(g.cells[q].wf());
            lemma_is_strike(h, g, single_hit(q, d as int));
            if changed {
                assert(g.cells[q].has(d as int));
                assert(!h.cells[q].has(d as int));
            } else {
                lemma_strike_nothing(g, single_hit(q, d as int));
            }
        }
        changed
    }

    /// Clears candidate `d` along group `line`, but for the three cells in
    /// its third number `skip` (a `skip` that is no third leaves none out).
    /// Returns whether a candidate was cleared.
    pub fn clear_line(&mut self, line: usize, d: usize, skip: usize) -> (changed: bool)
        requires
            old(self).wf(),
            line < 27,
            d < 9,
        ensures
            final(self).wf(),
            final(self)@ == old(self)@.strike(line_hit(line as int, d as int, skip as int, 9)),
            changed == (final(self)@ != old(self)@),
    {
        let mut changed = false;
        let mut k: usize = 0;
        proof {
            lemma_strike_nothing(self@, line_hit(line as int, d as int, skip as int, 0));
        }
        while k < 9
            invariant
                k <= 9,
                line < 27,
                d < 9,
                old(self).wf(),
                self.wf(),
                self@ == old(self)@.strike(line_hit(line as int, d as int, skip as int, k as int)),
                changed == (self@ != old(self)@),
            decreases 9 - k,
        {
            let ghost start = old(self)@;
            let ghost before = self@;
            let ghost cur = line_hit(line as int, d as int, skip as int, k as int);
            let ghost next = line_hit(line as int, d as int, skip as int, k + 1);
            proof {
                lemma_group_cell(line as int, k as int);
                assert forall|p: int| 0 <= p < 81 && in_group(line as int, p) implies 0
                    <= index_in_group(line as int, p) < 9 && group_cell(
                    line as int,
                    index_in_group(line as int, p),
                ) == p by {
                    lemma_group_index(line as int, p);
                }
            }
            if k / 3 != skip {
                let (r, c) = group_position(line, k);
                let cleared = self.strike_at(r, c, d);
                proof {
                    let one = single_hit(r * 9 + c, d as int);
                    assert forall|p: int, e: int|
                        0 <= p < 81 && 0 <= e < 9 && start.cells[p].has(e) implies (#[trigger] next(
                        p,
                        e,
                    )) == (cur(p, e) || one(p, e)) by {}
                    lemma_strike_twice(start, cur, one, next);
                    lemma_strike_refines(start, cur);
                    lemma_strike_refines(before, one);
                    lemma_change_adds_up(start, before, self@);
                }
                changed = changed || cleared;
            } else {
                proof {
                    assert forall|p: int, e: int|
                        0 <= p < 81 && 0 <= e < 9 && start.cells[p].has(e) implies (#[trigger] cur(
                        p,
                        e,
                    )) == next(p, e) by {}
                    lemma_strike_same(start, cur, next);
                }
            }
            k = k + 1;
        }
        changed
    }
    /// Clears, in the cell in row `r`, column `c`, every candidate that
    /// `digits` flags. Returns whether a candidate was cleared.
    pub fn clear_digits(&mut self, r: usize, c: usize, digits: &[bool; 9]) -> (changed: bool)
        requires
            old(self).wf(),
            r < 9,
            c < 9,
        ensures
            final(self).wf(),
            final(self)@ == old(self)@.strike(digits_hit(r * 9 + c, digits@, 9)),
            changed == (final(self)@ != old(self)@),
    {
        let mut changed = false;
        let mut d: usize = 0;
        proof {
            lemma_strike_nothing(self@, digits_hit(r * 9 + c, digits@, 0));
        }
        while d < 9
            invariant
                d <= 9,
                r < 9,
                c < 9,
                old(self).wf(),
                self.wf(),
                self@ == old(self)@.strike(digits_hit(r * 9 + c, digits@, d as int)),
                changed == (self@ != old(self)@),
            decreases 9 - d,
        {
            let ghost start = old(self)@;
            let ghost before = self@;
            let ghost cur = digits_hit(r * 9 + c, digits@, d as int);
            let ghost next = digits_hit(r * 9 + c, digits@, d + 1);
            if digits[d] {
                let cleared = self.strike_at(r, c, d);
                proof {
                    let one = single_hit(r * 9 + c, d as int);
                    assert forall|p: int, e: int|
                        0 <= p < 81 && 0 <= e < 9 && start.cells[p].has(e) implies (#[trigger] next(
                        p,
                        e,
                    )) == (cur(p, e) || one(p, e)) by {}
                    lemma_strike_twice(start, cur, one, next);
                    lemma_strike_refines(start, cur);
                    lemma_strike_refines(before, one);
                    lemma_change_adds_up(start, before, self@);
                }
                changed = changed || cleared;
            } else {
                proof {
                    assert forall|p: int, e: int|
                        0 <= p < 81 && 0 <= e < 9 && start.cells[p].has(e) implies (#[trigger] cur(
                        p,
                        e,
                    )) == next(p, e) by {}
                    lemma_strike_same(start, cur, next);
                }
            }
            d = d + 1;
        }
        changed
    }
}

} // verus!
