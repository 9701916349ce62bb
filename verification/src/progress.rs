//! The order in which solving moves a grid, and the measure that shows it
//! cannot move forever.
//!
//! Every deduction either clears candidates of an unsolved cell or turns an
//! unsolved cell into a solved one. A cell that came out of such steps
//! *refines* the cell it came from, and weighs no more than it.

use crate::grid::{count_true, CellView, GridView};
use vstd::prelude::*;

verus! {

impl CellView {
    /// `self` can be reached from `other` by clearing candidates or by
    /// solving the cell with one of its candidates: a solved cell stays as it
    /// is, and an unsolved cell never gains a candidate.
    pub open spec fn refines(self, other: CellView) -> bool {
        &&& other is Solved ==> self == other
        &&& self is Unsolved ==> other is Unsolved && forall|d: int|
            0 <= d < 9 ==> self.has(d) ==> other.has(d)
        &&& self is Solved && other is Unsolved ==> other.has(self->Solved_0)
    }

    /// Zero for a solved cell; for an unsolved cell one more than the number
    /// of its candidates.
    pub open spec fn weight(self) -> nat {
        match self {
            CellView::Solved(_) => 0,
            CellView::Unsolved(flags) => 1 + count_true(flags, 9),
        }
    }
}

/// Sum of the weights of the first `n` cells.
pub open spec fn weight_upto(cells: Seq<CellView>, n: int) -> nat
    decreases n,
{
    if n <= 0 {
        0
    } else {
        weight_upto(cells, n - 1) + cells[n - 1].weight()
    }
}

impl GridView {
    /// Every cell of `self` refines the cell of `other` at the same position.
    pub open spec fn refines(self, other: GridView) -> bool {
        forall|p: int| 0 <= p < 81 ==> (#[trigger] self.cells[p]).refines(other.cells[p])
    }

    /// Sum of the weights of all cells.
    pub open spec fn weight(self) -> nat {
        weight_upto(self.cells, 81)
    }
}

/// Fewer flags count no more, and strictly less where a flag was dropped.
pub proof fn lemma_count_subset(a: Seq<bool>, b: Seq<bool>, n: int)
    requires
        0 <= n <= a.len(),
        n <= b.len(),
        forall|d: int| 0 <= d < n ==> a[d] ==> b[d],
    ensures
        count_true(a, n) <= count_true(b, n),
        (exists|d: int| 0 <= d < n && b[d] && !a[d]) ==> count_true(a, n) < count_true(b, n),
        count_true(b, n) <= n,
    decreases n,
{
    if n > 0 {
        lemma_count_subset(a, b, n - 1);
        if exists|d: int| 0 <= d < n && b[d] && !a[d] {
            let d = choose|d: int| 0 <= d < n && b[d] && !a[d];
            if d < n - 1 {
                assert(exists|e: int| 0 <= e < n - 1 && b[e] && !a[e]);
            }
        }
    }
}

/// A cell that refines another weighs no more, and less unless they are equal.
pub proof fn lemma_cell_weight(a: CellView, b: CellView)
    requires
        a.wf(),
        b.wf(),
        a.refines(b),
    ensures
        a.weight() <= b.weight(),
        a != b ==> a.weight() < b.weight(),
{
    match (a, b) {
        (CellView::Unsolved(fa), CellView::Unsolved(fb)) => {
            assert forall|d: int| 0 <= d < 9 && fa[d] implies fb[d] by {
                assert(a.has(d) ==> b.has(d));
            }
            lemma_count_subset(fa, fb, 9);
            if a != b {
                if !(exists|d: int| 0 <= d < 9 && fb[d] && !fa[d]) {
                    assert forall|d: int| 0 <= d < 9 implies fa[d] == fb[d] by {
                        assert(!(fb[d] && !fa[d]));
                    }
                    assert(fa =~= fb);
                }
            }
        },
        _ => {},
    }
}

proof fn lemma_weight_upto(a: Seq<CellView>, b: Seq<CellView>, n: int)
    requires
        0 <= n <= a.len(),
        n <= b.len(),
        forall|p: int| 0 <= p < n ==> (#[trigger] a[p]).wf() && b[p].wf() && a[p].refines(b[p]),
    ensures
        weight_upto(a, n) <= weight_upto(b, n),
        (exists|p: int| 0 <= p < n && a[p] != b[p]) ==> weight_upto(a, n) < weight_upto(b, n),
    decreases n,
{
    if n > 0 {
        lemma_weight_upto(a, b, n - 1);
        assert(a[n - 1].wf());
        lemma_cell_weight(a[n - 1], b[n - 1]);
        if exists|p: int| 0 <= p < n && a[p] != b[p] {
            let p = choose|p: int| 0 <= p < n && a[p] != b[p];
            if p < n - 1 {
                assert(exists|q: int| 0 <= q < n - 1 && a[q] != b[q]);
            }
        }
    }
}

/// A grid that refines another weighs no more, and less unless they are equal.
pub proof fn lemma_grid_weight(a: GridView, b: GridView)
    requires
        a.wf(),
        b.wf(),
        a.refines(b),
    ensures
        a.weight() <= b.weight(),
        a != b ==> a.weight() < b.weight(),
{
    lemma_weight_upto(a.cells, b.cells, 81);
    if a != b {
        if !(exists|p: int| 0 <= p < 81 && a.cells[p] != b.cells[p]) {
            assert forall|p: int| 0 <= p < 81 implies a.cells[p] == b.cells[p] by {
                assert(!(a.cells[p] != b.cells[p]));
            }
            assert(a.cells =~= b.cells);
        }
    }
}

/// Refinement is transitive.
pub proof fn lemma_refines_trans(a: GridView, b: GridView, c: GridView)
    requires
        a.refines(b),
        b.refines(c),
    ensures
        a.refines(c),
{
    assert forall|p: int| 0 <= p < 81 implies (#[trigger] a.cells[p]).refines(c.cells[p]) by {
        assert(a.cells[p].refines(b.cells[p]));
        assert(b.cells[p].refines(c.cells[p]));
    }
}

/// Along a chain of refinements the last grid differs from the first
/// exactly when one of the two steps changed something.
pub proof fn lemma_change_adds_up(first: GridView, mid: GridView, last: GridView)
    requires
        first.wf(),
        mid.wf(),
        last.wf(),
        mid.refines(first),
        last.refines(mid),
    ensures
        last.refines(first),
        (last != first) == (mid != first || last != mid),
{
    lemma_refines_trans(last, mid, first);
    lemma_grid_weight(mid, first);
    lemma_grid_weight(last, mid);
    lemma_grid_weight(last, first);
}

} // verus!
