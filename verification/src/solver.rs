//! The solver: an ordered pipeline of strategies, and a depth-first search
//! that guesses a digit where the strategies stall.

use crate::basic_sudoku::{
    basic_elimination, hidden_singles, hidden_tuples, lemma_naked_singles, lemma_sweep,
    naked_singles, naked_tuples, pointing_tuples, pointing_tuples_hit, solved_hit, GroupRule,
};
use crate::chess_strategies::{chess_hit, kings, knights, ChessMove};
use crate::grid::{Cell, CellView, Grid, GridView};
use crate::progress::{lemma_grid_weight, lemma_refines_trans};
use crate::strike::lemma_strike_refines;
use vstd::prelude::*;

verus! {

/// A deduction that the solver can be given.
#[derive(Clone, Copy, Debug)]
pub enum Strategy {
    NakedSingles,
    BasicElimination,
    HiddenSingles,
    NakedTuples,
    HiddenTuples,
    PointingTuples,
    Kings,
    Knights,
}

impl Strategy {
    /// The grid that the strategy makes of `g`.
    pub open spec fn result(self, g: GridView) -> GridView {
        match self {
            Strategy::NakedSingles => g.naked_singles(),
            Strategy::BasicElimination => g.basic_elimination(),
            Strategy::HiddenSingles => g.hidden_singles(),
            Strategy::NakedTuples => g.naked_tuples(),
            Strategy::HiddenTuples => g.hidden_tuples(),
            Strategy::PointingTuples => g.pointing_tuples(),
            Strategy::Kings => g.kings(),
            Strategy::Knights => g.knights(),
        }
    }

    /// Every strategy keeps a grid well formed and refines it: it clears
    /// candidates or solves cells, and does nothing else.
    pub proof fn lemma_result(self, g: GridView)
        requires
            g.wf(),
        ensures
            self.result(g).wf(),
            self.result(g).refines(g),
    {
        match self {
            Strategy::NakedSingles => lemma_naked_singles(g),
            Strategy::BasicElimination => lemma_strike_refines(g, solved_hit(g)),
            Strategy::HiddenSingles => lemma_sweep(g, GroupRule::HiddenSingles, 27),
            Strategy::NakedTuples => lemma_sweep(g, GroupRule::NakedTuples, 27),
            Strategy::HiddenTuples => lemma_sweep(g, GroupRule::HiddenTuples, 27),
            Strategy::PointingTuples => lemma_strike_refines(g, pointing_tuples_hit(g)),
            Strategy::Kings => lemma_strike_refines(g, chess_hit(g, ChessMove::King, 81)),
            Strategy::Knights => lemma_strike_refines(g, chess_hit(g, ChessMove::Knight, 81)),
        }
    }

    /// Applies the strategy to the grid. Returns whether the grid changed.
    pub fn apply(&self, grid: &mut Grid) -> (changed: bool)
        requires
            old(grid).wf(),
        ensures
            final(grid).wf(),
            final(grid)@ == self.result(old(grid)@),
            changed == (final(grid)@ != old(grid)@),
    {
        match self {
            Strategy::NakedSingles => naked_singles(grid),
            Strategy::BasicElimination => basic_elimination(grid),
            Strategy::HiddenSingles => hidden_singles(grid),
            Strategy::NakedTuples => naked_tuples(grid),
            Strategy::HiddenTuples => hidden_tuples(grid),
            Strategy::PointingTuples => pointing_tuples(grid),
            Strategy::Kings => kings(grid),
            Strategy::Knights => knights(grid),
        }
    }
}

/// The grid after the first of the strategies from index `from` on that
/// changes `g`; `g` itself if none of them does.
pub open spec fn step_from(strategies: Seq<Strategy>, g: GridView, from: int) -> GridView
    decreases strategies.len() - from,
{
    if from < 0 || from >= strategies.len() {
        g
    } else if strategies[from].result(g) != g {
        strategies[from].result(g)
    } else {
        step_from(strategies, g, from + 1)
    }
}

/// One step of the pipeline: the result of the first strategy, in priority
/// order, that changes the grid.
pub open spec fn step_result(strategies: Seq<Strategy>, g: GridView) -> GridView {
    step_from(strategies, g, 0)
}

/// A step keeps a grid well formed and refines it.
pub proof fn lemma_step_from(strategies: Seq<Strategy>, g: GridView, from: int)
    requires
        g.wf(),
    ensures
        step_from(strategies, g, from).wf(),
        step_from(strategies, g, from).refines(g),
        step_from(strategies, g, from) != g ==> step_from(strategies, g, from).weight() < g.weight(),
    decreases strategies.len() - from,
{
    if 0 <= from < strategies.len() {
        strategies[from].lemma_result(g);
        if strategies[from].result(g) == g {
            lemma_step_from(strategies, g, from + 1);
        }
    }
    lemma_grid_weight(step_from(strategies, g, from), g);
}

/// The grid after steps have been taken until the grid is solved or a step
/// changes nothing.
pub open spec fn propagate(strategies: Seq<Strategy>, g: GridView) -> GridView
    decreases g.weight(),
{
    if !g.wf() || g.solved() {
        g
    } else {
        let h = step_result(strategies, g);
        if h == g {
            g
        } else {
            proof {
                lemma_step_from(strategies, g, 0);
            }
            propagate(strategies, h)
        }
    }
}

/// Propagation keeps a grid well formed and refines it, and ends on a grid
/// that is solved or on which a step changes nothing.
pub proof fn lemma_propagate(strategies: Seq<Strategy>, g: GridView)
    requires
        g.wf(),
    ensures
        propagate(strategies, g).wf(),
        propagate(strategies, g).refines(g),
        propagate(strategies, g).weight() <= g.weight(),
        propagate(strategies, g).solved() || step_result(strategies, propagate(strategies, g))
            == propagate(strategies, g),
    decreases g.weight(),
{
    if !g.solved() {
        let h = step_result(strategies, g);
        lemma_step_from(strategies, g, 0);
        if h != g {
            lemma_propagate(strategies, h);
            lemma_refines_trans(propagate(strategies, h), h, g);
        }
    }
    lemma_grid_weight(propagate(strategies, g), g);
}

/// Position `t` is where the search branches: the unsolved cell with the
/// fewest candidates, and of several such cells the first in row-major order.
pub open spec fn is_target(g: GridView, t: int) -> bool {
    &&& 0 <= t < 81
    &&& g.cells[t] is Unsolved
    &&& forall|q: int|
        0 <= q < 81 && (#[trigger] g.cells[q]) is Unsolved ==> g.cells[t].count()
            <= g.cells[q].count()
    &&& forall|q: int|
        0 <= q < t && (#[trigger] g.cells[q]) is Unsolved ==> g.cells[t].count()
            < g.cells[q].count()
}

/// The position where the search branches on `g`.
pub open spec fn target(g: GridView) -> int {
    choose|t: int| is_target(g, t)
}

/// There is at most one target.
pub proof fn lemma_target_unique(g: GridView, t: int)
    requires
        is_target(g, t),
    ensures
        target(g) == t,
{
    let u = target(g);
    assert(is_target(g, u));
    if u < t {
        assert(g.cells[u] is Unsolved);
    } else if t < u {
        assert(g.cells[t] is Unsolved);
    }
}

/// The grid with the cell at position `t` solved as digit `d`.
pub open spec fn guess(g: GridView, t: int, d: int) -> GridView {
    g.with_cell(t, CellView::Solved(d))
}

/// A guess of a candidate keeps a grid well formed, refines it, and weighs
/// less.
pub proof fn lemma_guess(g: GridView, t: int, d: int)
    requires
        g.wf(),
        0 <= t < 81,
        0 <= d < 9,
        g.cells[t].has(d),
    ensures
        guess(g, t, d).wf(),
        guess(g, t, d).refines(g),
        guess(g, t, d).weight() < g.weight(),
{
    let h = guess(g, t, d);
    assert forall|p: int| 0 <= p < 81 implies (#[trigger] h.cells[p]).wf() && h.cells[p].refines(
        g.cells[p],
    ) by {
        assert(g.cells[p].wf());
    }
    assert(h.cells[t] != g.cells[t]);
    lemma_grid_weight(h, g);
}

/// The outcome of the search on `g`: the solved grid that it finds, if it
/// finds one. The search branches on the target cell, tries its candidates
/// in ascending order, propagates each guess, and searches on where
/// propagation stalls on a grid that is neither solved nor broken.
pub open spec fn search(strategies: Seq<Strategy>, g: GridView) -> Option<GridView>
    decreases g.weight(), 10int,
{
    if !g.wf() || g.solved() {
        None
    } else {
        try_digits(strategies, g, target(g), 0)
    }
}

/// The outcome of trying the candidates from `d` on of the cell at position
/// `t`, in ascending order.
pub open spec fn try_digits(strategies: Seq<Strategy>, g: GridView, t: int, d: int) -> Option<
    GridView,
>
    decreases g.weight(), 9 - d,
{
    if !g.wf() || !(0 <= t < 81) || !(0 <= d < 9) || g.cells[t] is Solved {
        None
    } else if !g.cells[t].has(d) {
        try_digits(strategies, g, t, d + 1)
    } else {
        let h = propagate(strategies, guess(g, t, d));
        if h.solved() {
            Some(h)
        } else if h.broken() {
            try_digits(strategies, g, t, d + 1)
        } else {
            proof {
                lemma_guess(g, t, d);
                lemma_propagate(strategies, guess(g, t, d));
            }
            match search(strategies, h) {
                Some(s) => Some(s),
                None => try_digits(strategies, g, t, d + 1),
            }
        }
    }
}

/// An ordered pipeline of strategies, the first having the highest priority.
pub struct Solver {
    strategies: Vec<Strategy>,
}

impl View for Solver {
    type V = Seq<Strategy>;

    closed spec fn view(&self) -> Seq<Strategy> {
        self.strategies@
    }
}

/// The unsolved cell with the fewest candidates, the first of them in
/// row-major order; `None` if every cell is solved.
pub fn pick_target(grid: &Grid) -> (found: Option<usize>)
    ensures
        found matches Some(t) ==> is_target(grid@, t as int),
        found is None ==> grid@.solved(),
{
    let mut best: Option<usize> = None;
    let mut fewest: usize = 0;
    let mut p: usize = 0;
    while p < 81
        invariant
            p <= 81,
            best is None ==> forall|q: int| 0 <= q < p ==> (#[trigger] grid@.cells[q]) is Solved,
            best matches Some(t) ==> {
                &&& t < p
                &&& grid@.cells[t as int] is Unsolved
                &&& fewest == grid@.cells[t as int].count()
                &&& forall|q: int|
                    0 <= q < p && (#[trigger] grid@.cells[q]) is Unsolved ==> fewest
                        <= grid@.cells[q].count()
                &&& forall|q: int|
                    0 <= q < t && (#[trigger] grid@.cells[q]) is Unsolved ==> fewest
                        < grid@.cells[q].count()
            },
        decreases 81 - p,
    {
        let cell = grid.0[p / 9][p % 9];
        assert(cell@ == grid@.cells[p as int]);
        if let Cell::Unsolved(_) = cell {
            let count = cell.candidate_count();
            let better = match best {
                Some(_) => count < fewest,
                None => true,
            };
            if better {
                best = Some(p);
                fewest = count;
            }
        }
        p = p + 1;
    }
    best
}

impl Solver {
    /// A solver without strategies.
    pub fn new() -> (solver: Solver)
        ensures
            solver@ == Seq::<Strategy>::empty(),
    {
        Solver { strategies: Vec::new() }
    }

    /// Appends a strategy: it is tried after those added before.
    pub fn add_strategy(&mut self, strategy: Strategy)
        ensures
            final(self)@ == old(self)@.push(strategy),
    {
        self.strategies.push(strategy);
    }

    /// Tries the strategies in order and stops at the first that changes the
    /// grid. Returns whether one did; if none did, the grid is as it was.
    pub fn step(&self, grid: &mut Grid) -> (progressed: bool)
        requires
            old(grid).wf(),
        ensures
            final(grid).wf(),
            final(grid)@ == step_result(self@, old(grid)@),
            progressed == (final(grid)@ != old(grid)@),
    {
        let mut i: usize = 0;
        while i < self.strategies.len()
            invariant
                i <= self.strategies@.len(),
                grid.wf(),
                grid@ == old(grid)@,
                step_from(self@, grid@, i as int) == step_result(self@, grid@),
            decreases self.strategies@.len() - i,
        {
            let strategy = self.strategies[i];
            if strategy.apply(grid) {
                return true;
            }
            i = i + 1;
        }
        false
    }

    /// Takes steps until the grid is solved or a step changes nothing.
    pub fn propagate(&self, grid: &mut Grid)
        requires
            old(grid).wf(),
        ensures
            final(grid).wf(),
            final(grid)@ == propagate(self@, old(grid)@),
    {
        let mut moving = true;
        while moving
            invariant
                grid.wf(),
                propagate(self@, grid@) == propagate(self@, old(grid)@),
                !moving ==> grid@.solved() || step_result(self@, grid@) == grid@,
            decreases
                    grid@.weight() + if moving {
                        1nat
                    } else {
                        0nat
                    },
        {
            if grid.solved() {
                moving = false;
            } else {
                let ghost before = grid@;
                moving = self.step(grid);
                proof {
                    lemma_step_from(self@, before, 0);
                }
            }
        }
    }

    /// Searches for a solution by guessing. Branches on the unsolved cell
    /// with the fewest candidates, tries its candidates in ascending order on
    /// a copy of the grid, and propagates each guess with `step`; a copy that
    /// stalls unsolved and unbroken is searched in turn. On success the grid
    /// becomes the solved copy; on failure it stays as it was.
    pub fn backtrack(&self, grid: &mut Grid) -> (found: bool)
        requires
            old(grid).wf(),
        ensures
            final(grid).wf(),
            search(self@, old(grid)@) matches Some(s) ==> found && final(grid)@ == s,
            search(self@, old(grid)@) is None ==> !found && final(grid)@ == old(grid)@,
            found ==> final(grid)@.solved(),
        decreases old(grid)@.weight(),
    {
        let ghost g = grid@;
        let t = match pick_target(grid) {
            Some(t) => t,
            None => {
                return false;
            },
        };
        proof {
            lemma_target_unique(g, t as int);
            assert(!g.solved());
        }
        let cell = grid.0[t / 9][t % 9];
        assert(cell@ == g.cells[t as int]);
        let mut d: usize = 0;
        while d < 9
            invariant
                d <= 9,
                t < 81,
                g == old(grid)@,
                g.wf(),
                grid.wf(),
                grid@ == g,
                cell@ == g.cells[t as int],
                cell@ is Unsolved,
                try_digits(self@, g, t as int, d as int) == search(self@, g),
            decreases 9 - d,
        {
            if cell.has_candidate(d) {
                let mut copy = Grid(grid.0);
                copy.0[t / 9][t % 9] = Cell::Solved(d);
                proof {
                    assert(copy@.cells =~= guess(g, t as int, d as int).cells);
                    lemma_guess(g, t as int, d as int);
                    lemma_propagate(self@, guess(g, t as int, d as int));
                }
                self.propagate(&mut copy);
                if copy.solved() {
                    *grid = copy;
                    return true;
                }
                if !copy.broken() {
                    if self.backtrack(&mut copy) {
                        *grid = copy;
                        return true;
                    }
                }
            }
            d = d + 1;
        }
        false
    }
}

} // verus!
