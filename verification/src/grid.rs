//! Cells and the 9x9 grid, with their mathematical views.

use itertools::Itertools;
use vstd::prelude::*;

verus! {

/// Number of `true` flags among the first `n` entries of `flags`.
pub open spec fn count_true(flags: Seq<bool>, n: int) -> nat
    decreases n,
{
    if n <= 0 {
        0
    } else {
        count_true(flags, n - 1) + if flags[n - 1] {
            1nat
        } else {
            0nat
        }
    }
}

/// Index of the first `true` flag among the first `n` entries, or `n` if there is none.
pub open spec fn first_true(flags: Seq<bool>, n: int) -> int
    decreases n,
{
    if n <= 0 {
        0
    } else if first_true(flags, n - 1) < n - 1 {
        first_true(flags, n - 1)
    } else if flags[n - 1] {
        n - 1
    } else {
        n
    }
}

/// `first_true` finds a set flag if there is one, and nothing before it is set.
pub proof fn lemma_first_true(flags: Seq<bool>, n: int)
    requires
        0 <= n <= flags.len(),
    ensures
        0 <= first_true(flags, n) <= n,
        first_true(flags, n) < n ==> flags[first_true(flags, n)],
        forall|d: int| 0 <= d < first_true(flags, n) ==> !flags[d],
        count_true(flags, n) > 0 ==> first_true(flags, n) < n,
    decreases n,
{
    if n > 0 {
        lemma_first_true(flags, n - 1);
    }
}

/// Once a set flag is found, looking further finds the same one.
pub proof fn lemma_first_true_found(flags: Seq<bool>, m: int, n: int)
    requires
        0 <= m <= n,
        first_true(flags, m) < m,
    ensures
        first_true(flags, n) == first_true(flags, m),
    decreases n - m,
{
    if m < n {
        lemma_first_true_found(flags, m, n - 1);
    }
}

/// The digits `d < n` whose flag is set, in ascending order.
pub open spec fn digits_set(flags: Seq<bool>, n: int) -> Seq<int>
    decreases n,
{
    if n <= 0 {
        Seq::empty()
    } else if flags[n - 1] {
        digits_set(flags, n - 1).push(n - 1)
    } else {
        digits_set(flags, n - 1)
    }
}

/// What a cell holds: a fixed digit, or one flag per digit saying whether
/// that digit is still a candidate.
pub ghost enum CellView {
    Solved(int),
    Unsolved(Seq<bool>),
}

impl CellView {
    /// A solved cell holds a digit in `0..9`; an unsolved one holds nine flags.
    pub open spec fn wf(self) -> bool {
        match self {
            CellView::Solved(n) => 0 <= n < 9,
            CellView::Unsolved(flags) => flags.len() == 9,
        }
    }

    /// Digit `d` is a candidate of this cell.
    pub open spec fn has(self, d: int) -> bool {
        self matches CellView::Unsolved(flags) && 0 <= d < 9 && flags[d]
    }

    /// Number of candidates; zero for a solved cell.
    pub open spec fn count(self) -> nat {
        match self {
            CellView::Solved(_) => 0,
            CellView::Unsolved(flags) => count_true(flags, 9),
        }
    }

    /// The smallest candidate of an unsolved cell (9 if it has none).
    pub open spec fn least(self) -> int {
        match self {
            CellView::Solved(_) => 9,
            CellView::Unsolved(flags) => first_true(flags, 9),
        }
    }

    /// The candidates in ascending order; empty for a solved cell.
    pub open spec fn candidates(self) -> Seq<int> {
        match self {
            CellView::Solved(_) => Seq::empty(),
            CellView::Unsolved(flags) => digits_set(flags, 9),
        }
    }

    /// The cell with candidate `d` cleared. Solved cells and digits outside
    /// `0..9` are left as they are.
    pub open spec fn without(self, d: int) -> CellView {
        match self {
            CellView::Unsolved(flags) => if 0 <= d < 9 {
                CellView::Unsolved(flags.update(d, false))
            } else {
                self
            },
            CellView::Solved(_) => self,
        }
    }

    /// The unsolved cell whose single candidate is `d`.
    pub open spec fn only(d: int) -> CellView {
        CellView::Unsolved(Seq::new(9, |i: int| i == d))
    }

    /// The unsolved cell with all nine candidates.
    pub open spec fn open_cell() -> CellView {
        CellView::Unsolved(Seq::new(9, |i: int| true))
    }
}

/// Two well-formed cells are equal when they agree on being solved, on the
/// solved digit, and on every candidate.
pub proof fn lemma_cell_ext(a: CellView, b: CellView)
    requires
        a.wf(),
        b.wf(),
        a is Solved <==> b is Solved,
        a is Solved ==> a->Solved_0 == b->Solved_0,
        forall|d: int| 0 <= d < 9 ==> a.has(d) == b.has(d),
    ensures
        a == b,
{
    match (a, b) {
        (CellView::Unsolved(fa), CellView::Unsolved(fb)) => {
            assert forall|d: int| 0 <= d < 9 implies fa[d] == fb[d] by {
                assert(a.has(d) == b.has(d));
            }
            assert(fa =~= fb);
        },
        _ => {},
    }
}

/// One position of the board: a fixed digit in `0..9` (puzzle digits are
/// stored zero-based), or the flags of the digits that are still possible.
#[derive(Clone, Copy, Debug, Hash, PartialEq, Eq)]
pub enum Cell {
    Solved(usize),
    Unsolved([bool; 9]),
}

impl View for Cell {
    type V = CellView;

    open spec fn view(&self) -> CellView {
        match *self {
            Cell::Solved(n) => CellView::Solved(n as int),
            Cell::Unsolved(flags) => CellView::Unsolved(flags@),
        }
    }
}

impl Cell {
    /// Clears candidate `n`. Returns whether the cell was unsolved and had it.
    pub fn remove_candidate(&mut self, n: usize) -> (removed: bool)
        requires
            n < 9,
        ensures
            final(self)@ == old(self)@.without(n as int),
            removed == old(self)@.has(n as int),
            removed == (final(self)@ != old(self)@),
    {
        if let Cell::Unsolved(cands) = self {
            if cands[n] {
                cands[n] = false;
                assert(old(self)@->Unsolved_0[n as int]);
                assert(!self@->Unsolved_0[n as int]);
                return true;
            }
            assert(old(self)@->Unsolved_0.update(n as int, false) =~= old(self)@->Unsolved_0);
        }
        false
    }

    /// Whether digit `n` is still a candidate.
    pub fn has_candidate(&self, n: usize) -> (has: bool)
        ensures
            has == self@.has(n as int),
    {
        match self {
            Cell::Unsolved(cands) => n < 9 && cands[n],
            Cell::Solved(_) => false,
        }
    }

    /// Number of candidates of the cell.
    pub fn candidate_count(&self) -> (count: usize)
        ensures
            count == self@.count(),
            count <= 9,
    {
        match self {
            Cell::Unsolved(cands) => {
                let mut count: usize = 0;
                let mut d: usize = 0;
                while d < 9
                    invariant
                        d <= 9,
                        count <= d,
                        count == count_true(cands@, d as int),
                    decreases 9 - d,
                {
                    if cands[d] {
                        count = count + 1;
                    }
                    d = d + 1;
                }
                count
            },
            Cell::Solved(_) => 0,
        }
    }

    /// Whether two cells hold the same: the same digit, or the same candidates.
    pub fn same_as(&self, other: &Cell) -> (same: bool)
        ensures
            same == (self@ == other@),
    {
        match (self, other) {
            (Cell::Solved(n), Cell::Solved(m)) => *n == *m,
            (Cell::Unsolved(a), Cell::Unsolved(b)) => {
                let mut d: usize = 0;
                while d < 9
                    invariant
                        d <= 9,
                        self@ == CellView::Unsolved(a@),
                        other@ == CellView::Unsolved(b@),
                        forall|e: int| 0 <= e < d ==> a@[e] == b@[e],
                    decreases 9 - d,
                {
                    if a[d] != b[d] {
                        return false;
                    }
                    d = d + 1;
                }
                assert(a@ =~= b@);
                true
            },
            _ => false,
        }
    }

    /// The smallest candidate, if the cell is unsolved and has one.
    pub fn first_candidate(&self) -> (first: Option<usize>)
        ensures
            first matches Some(d) ==> d < 9 && d == self@.least() && self@.has(d as int),
            first is None ==> self@.count() == 0,
    {
        match self {
            Cell::Unsolved(cands) => {
                let mut d: usize = 0;
                while d < 9
                    invariant
                        d <= 9,
                        self@ == CellView::Unsolved(cands@),
                        first_true(cands@, d as int) == d,
                        count_true(cands@, d as int) == 0,
                    decreases 9 - d,
                {
                    if cands[d] {
                        proof {
                            assert(first_true(cands@, d as int + 1) == d);
                            lemma_first_true_found(cands@, d as int + 1, 9);
                        }
                        return Some(d);
                    }
                    d = d + 1;
                }
                None
            },
            Cell::Solved(_) => None,
        }
    }

    /// The candidates in ascending order; empty for a solved cell.
    pub fn candidates(&self) -> (digits: Vec<usize>)
        ensures
            digits@.map_values(|d: usize| d as int) == self@.candidates(),
    {
        let mut digits: Vec<usize> = Vec::new();
        if let Cell::Unsolved(cands) = self {
            let mut d: usize = 0;
            while d < 9
                invariant
                    d <= 9,
                    digits@.map_values(|d: usize| d as int) == digits_set(cands@, d as int),
                decreases 9 - d,
            {
                if cands[d] {
                    let ghost before = digits@;
                    digits.push(d);
                    assert(digits@.map_values(|d: usize| d as int) =~= before.map_values(
                        |d: usize| d as int,
                    ).push(d as int));
                }
                d = d + 1;
            }
        } else {
            assert(digits@.map_values(|d: usize| d as int) =~= Seq::<int>::empty());
        }
        digits
    }
}

impl Default for Cell {
    /// An unsolved cell with all nine candidates.
    fn default() -> (cell: Cell)
        ensures
            cell@ == CellView::open_cell(),
    {
        let cell = Cell::Unsolved([true; 9]);
        assert(cell@->Unsolved_0 =~= Seq::new(9, |i: int| true));
        cell
    }
}

/// The cell that a given takes: a puzzle digit `1..=9` is stored zero-based
/// as a solved cell; no digit, or a number that is no puzzle digit, leaves
/// the cell open.
pub open spec fn seed(given: Option<usize>) -> CellView {
    match given {
        Some(n) => if 1 <= n <= 9 {
            CellView::Solved(n - 1)
        } else {
            CellView::open_cell()
        },
        None => CellView::open_cell(),
    }
}

impl vstd::std_specs::convert::FromSpecImpl<Option<usize>> for Cell {
    open spec fn obeys_from_spec() -> bool {
        true
    }

    open spec fn from_spec(given: Option<usize>) -> Cell {
        match given {
            Some(n) => if 1 <= n <= 9 {
                Cell::Solved((n - 1) as usize)
            } else {
                Cell::Unsolved(vstd::array::spec_array_fill_for_copy_type(true))
            },
            None => Cell::Unsolved(vstd::array::spec_array_fill_for_copy_type(true)),
        }
    }
}

impl From<Option<usize>> for Cell {
    fn from(given: Option<usize>) -> (cell: Cell) {
        match given {
            Some(n) => if 1 <= n && n <= 9 {
                Cell::Solved(n - 1)
            } else {
                Cell::Unsolved([true; 9])
            },
            None => Cell::Unsolved([true; 9]),
        }
    }
}

/// The view of a cell made by `Cell::from` is the seed of what was given.
pub proof fn lemma_from_is_seed(given: Option<usize>)
    ensures
        <Cell as vstd::std_specs::convert::FromSpec<Option<usize>>>::from_spec(given)@ == seed(given),
        seed(given).wf(),
{
    let cell = <Cell as vstd::std_specs::convert::FromSpec<Option<usize>>>::from_spec(given);
    if cell is Unsolved {
        assert(cell@->Unsolved_0 =~= Seq::new(9, |i: int| true));
    }
}

/// Flat (row-major) position of the `k`-th cell of group `g`. Groups `0..9`
/// are the rows, `9..18` the columns and `18..27` the 3x3 boxes; a box is
/// walked row by row.
pub open spec fn group_cell(g: int, k: int) -> int {
    if g < 9 {
        g * 9 + k
    } else if g < 18 {
        k * 9 + (g - 9)
    } else {
        (((g - 18) / 3) * 3 + k / 3) * 9 + ((g - 18) % 3) * 3 + k % 3
    }
}

/// Whether flat position `p` lies in group `g`.
pub open spec fn in_group(g: int, p: int) -> bool {
    if g < 9 {
        p / 9 == g
    } else if g < 18 {
        p % 9 == g - 9
    } else {
        (p / 27) * 3 + (p % 9) / 3 == g - 18
    }
}

/// The index within group `g` of a position `p` that lies in it.
pub open spec fn index_in_group(g: int, p: int) -> int {
    if g < 9 {
        p % 9
    } else if g < 18 {
        p / 9
    } else {
        ((p / 9) % 3) * 3 + p % 3
    }
}

/// The `k`-th cell of a group lies on the board and in the group, at index `k`.
pub proof fn lemma_group_cell(g: int, k: int)
    requires
        0 <= g < 27,
        0 <= k < 9,
    ensures
        0 <= group_cell(g, k) < 81,
        in_group(g, group_cell(g, k)),
        index_in_group(g, group_cell(g, k)) == k,
{
    if g >= 18 {
        let b = g - 18;
        let br = b / 3;
        let bc = b % 3;
        let kr = k / 3;
        let kc = k % 3;
        let p = (br * 3 + kr) * 9 + bc * 3 + kc;
        assert(p == group_cell(g, k));
        assert(p / 9 == br * 3 + kr);
        assert(p % 9 == bc * 3 + kc);
        assert(p / 27 == br);
        assert((p % 9) / 3 == bc);
        assert((p / 9) % 3 == kr);
        assert(p % 3 == kc);
    }
}

/// A position in a group is the cell of the group at its index.
pub proof fn lemma_group_index(g: int, p: int)
    requires
        0 <= g < 27,
        0 <= p < 81,
        in_group(g, p),
    ensures
        0 <= index_in_group(g, p) < 9,
        group_cell(g, index_in_group(g, p)) == p,
{
    if g >= 18 {
        let r = p / 9;
        let c = p % 9;
        assert(p == r * 9 + c);
        assert(p / 27 == r / 3);
        let k = (r % 3) * 3 + p % 3;
        assert(p % 3 == c % 3);
        assert(k / 3 == r % 3);
        assert(k % 3 == c % 3);
        assert(r == (r / 3) * 3 + r % 3);
        assert(c == (c / 3) * 3 + c % 3);
    }
}

/// The mathematical content of a grid: its 81 cells in row-major order.
pub ghost struct GridView {
    pub cells: Seq<CellView>,
}

impl GridView {
    /// There are 81 cells and each is well formed.
    pub open spec fn wf(self) -> bool {
        &&& self.cells.len() == 81
        &&& forall|p: int| 0 <= p < 81 ==> (#[trigger] self.cells[p]).wf()
    }

    /// Every cell is solved.
    pub open spec fn solved(self) -> bool {
        forall|p: int| 0 <= p < 81 ==> (#[trigger] self.cells[p]) is Solved
    }

    /// Some unsolved cell has no candidate left.
    pub open spec fn broken(self) -> bool {
        exists|p: int|
            0 <= p < 81 && (#[trigger] self.cells[p]) is Unsolved && self.cells[p].count() == 0
    }

    /// The nine cells of group `g`.
    pub open spec fn group(self, g: int) -> Seq<CellView> {
        Seq::new(9, |k: int| self.cells[group_cell(g, k)])
    }

    /// The grid with the cell at position `p` replaced by `cell`.
    pub open spec fn with_cell(self, p: int, cell: CellView) -> GridView {
        GridView { cells: self.cells.update(p, cell) }
    }
}

/// The views of a sequence of cells.
pub open spec fn cell_views(cells: Seq<Cell>) -> Seq<CellView> {
    Seq::new(cells.len(), |k: int| cells[k]@)
}

/// A 9x9 board of cells, row by row.
pub struct Grid(pub [[Cell; 9]; 9]);

impl View for Grid {
    type V = GridView;

    open spec fn view(&self) -> GridView {
        GridView { cells: Seq::new(81, |p: int| self.0[p / 9][p % 9]@) }
    }
}

impl std::ops::Deref for Grid {
    type Target = [[Cell; 9]; 9];

    /// The rows of the grid, for reading by index.
    fn deref(&self) -> (rows: &[[Cell; 9]; 9])
        ensures
            *rows == self.0,
    {
        &self.0
    }
}

/// Collects the nine cells of a row into a vector, in column order, with
/// `Itertools::collect_vec`, which gathers an iterator's items in the order
/// in which it yields them.
#[verifier::external_body]
fn collect_row(row: &[Cell; 9]) -> (cells: Vec<Cell>)
    ensures
        cells@ == row@,
{
    row.iter().copied().collect_vec()
}

/// Row and column of the `k`-th cell of group `g`.
pub fn group_position(g: usize, k: usize) -> (at: (usize, usize))
    requires
        g < 27,
        k < 9,
    ensures
        at.0 < 9,
        at.1 < 9,
        at.0 * 9 + at.1 == group_cell(g as int, k as int),
{
    if g < 9 {
        (g, k)
    } else if g < 18 {
        (k, g - 9)
    } else {
        (((g - 18) / 3) * 3 + k / 3, ((g - 18) % 3) * 3 + k % 3)
    }
}

impl Grid {
    /// Every solved cell holds a digit in `0..9`.
    pub open spec fn wf(&self) -> bool {
        self@.wf()
    }

    /// The cell at row `r`, column `c`, is the cell at flat position `r * 9 + c`.
    pub proof fn lemma_cell_view(&self, r: int, c: int)
        requires
            0 <= r < 9,
            0 <= c < 9,
        ensures
            self@.cells[r * 9 + c] == self.0[r][c]@,
    {
    }

    /// Whether every solved cell holds a digit in `0..9`: what the
    /// strategies ask of a grid.
    pub fn well_formed(&self) -> (ok: bool)
        ensures
            ok == self.wf(),
    {
        let mut p: usize = 0;
        while p < 81
            invariant
                p <= 81,
                forall|q: int| 0 <= q < p ==> (#[trigger] self@.cells[q]).wf(),
            decreases 81 - p,
        {
            if let Cell::Solved(n) = self.0[p / 9][p % 9] {
                if n >= 9 {
                    assert(!self@.cells[p as int].wf());
                    return false;
                }
            }
            p = p + 1;
        }
        true
    }

    /// Whether every cell is solved.
    pub fn solved(&self) -> (all: bool)
        ensures
            all == self@.solved(),
    {
        let mut p: usize = 0;
        while p < 81
            invariant
                p <= 81,
                forall|q: int| 0 <= q < p ==> (#[trigger] self@.cells[q]) is Solved,
            decreases 81 - p,
        {
            match self.0[p / 9][p % 9] {
                Cell::Solved(_) => {},
                Cell::Unsolved(_) => {
                    assert(self@.cells[p as int] is Unsolved);
                    return false;
                },
            }
            p = p + 1;
        }
        true
    }

    /// Whether some unsolved cell has no candidate left.
    pub fn broken(&self) -> (any: bool)
        ensures
            any == self@.broken(),
    {
        let mut p: usize = 0;
        while p < 81
            invariant
                p <= 81,
                forall|q: int|
                    0 <= q < p ==> !((#[trigger] self@.cells[q]) is Unsolved
                        && self@.cells[q].count() == 0),
            decreases 81 - p,
        {
            let cell = self.0[p / 9][p % 9];
            assert(cell@ == self@.cells[p as int]);
            if let Cell::Unsolved(_) = cell {
                if cell.candidate_count() == 0 {
                    return true;
                }
            }
            p = p + 1;
        }
        false
    }

    /// The nine cells of group `g`, copied out in group order.
    pub fn group(&self, g: usize) -> (cells: Vec<Cell>)
        requires
            g < 27,
        ensures
            cells@.len() == 9,
            cell_views(cells@) == self@.group(g as int),
    {
        if g < 9 {
            let cells = collect_row(&self.0[g]);
            assert(cell_views(cells@) =~= self@.group(g as int));
            return cells;
        }
        let mut cells: Vec<Cell> = Vec::new();
        let mut k: usize = 0;
        while k < 9
            invariant
                g < 27,
                k <= 9,
                cells@.len() == k,
                forall|j: int|
                    0 <= j < k ==> (#[trigger] cells@[j])@ == self@.cells[group_cell(g as int, j)],
            decreases 9 - k,
        {
            let (r, c) = group_position(g, k);
            cells.push(self.0[r][c]);
            k = k + 1;
        }
        assert(cell_views(cells@) =~= self@.group(g as int));
        cells
    }

    /// The positions (row, column) of the cells of group `g`, in group order.
    pub fn group_handles(g: usize) -> (handles: Vec<(usize, usize)>)
        requires
            g < 27,
        ensures
            handles@.len() == 9,
            forall|k: int|
                0 <= k < 9 ==> (#[trigger] handles@[k]).0 < 9 && handles@[k].1 < 9 && handles@[k].0
                    * 9 + handles@[k].1 == group_cell(g as int, k),
    {
        let mut handles: Vec<(usize, usize)> = Vec::new();
        let mut k: usize = 0;
        while k < 9
            invariant
                g < 27,
                k <= 9,
                handles@.len() == k,
                forall|j: int|
                    0 <= j < k ==> (#[trigger] handles@[j]).0 < 9 && handles@[j].1 < 9
                        && handles@[j].0 * 9 + handles@[j].1 == group_cell(g as int, j),
            decreases 9 - k,
        {
            handles.push(group_position(g, k));
            k = k + 1;
        }
        handles
    }

    /// For each of the nine columns, the positions (row, column) of its
    /// cells from top to bottom.
    pub fn cols(&self) -> (handles: Vec<Vec<(usize, usize)>>)
        ensures
            handles@.len() == 9,
            forall|i: int| 0 <= i < 9 ==> (#[trigger] handles@[i])@.len() == 9,
            forall|i: int, k: int|
                0 <= i < 9 && 0 <= k < 9 ==> (#[trigger] handles@[i]@[k]) == (
                    k as usize,
                    i as usize,
                ),
    {
        let mut handles: Vec<Vec<(usize, usize)>> = Vec::new();
        let mut i: usize = 0;
        while i < 9
            invariant
                i <= 9,
                handles@.len() == i,
                forall|j: int| 0 <= j < i ==> (#[trigger] handles@[j])@.len() == 9,
                forall|j: int, k: int|
                    0 <= j < i && 0 <= k < 9 ==> (#[trigger] handles@[j]@[k]) == (
                        k as usize,
                        j as usize,
                    ),
            decreases 9 - i,
        {
            let col = Self::group_handles(9 + i);
            assert forall|k: int| 0 <= k < 9 implies (#[trigger] col@[k]) == (
                k as usize,
                i as usize,
            ) by {
                assert(col@[k].0 * 9 + col@[k].1 == k * 9 + i);
            }
            handles.push(col);
            i = i + 1;
        }
        handles
    }

    /// For each of the nine boxes, the positions (row, column) of its cells,
    /// row by row. Box `b` covers rows `3 * (b / 3)..` and columns `3 * (b % 3)..`.
    pub fn boxes(&self) -> (handles: Vec<Vec<(usize, usize)>>)
        ensures
            handles@.len() == 9,
            forall|b: int| 0 <= b < 9 ==> (#[trigger] handles@[b])@.len() == 9,
            forall|b: int, k: int|
                0 <= b < 9 && 0 <= k < 9 ==> (#[trigger] handles@[b]@[k]) == (
                    ((b / 3) * 3 + k / 3) as usize,
                    ((b % 3) * 3 + k % 3) as usize,
                ),
    {
        let mut handles: Vec<Vec<(usize, usize)>> = Vec::new();
        let mut b: usize = 0;
        while b < 9
            invariant
                b <= 9,
                handles@.len() == b,
                forall|j: int| 0 <= j < b ==> (#[trigger] handles@[j])@.len() == 9,
                forall|j: int, k: int|
                    0 <= j < b && 0 <= k < 9 ==> (#[trigger] handles@[j]@[k]) == (
                        ((j / 3) * 3 + k / 3) as usize,
                        ((j % 3) * 3 + k % 3) as usize,
                    ),
            decreases 9 - b,
        {
            let bx = Self::group_handles(18 + b);
            assert forall|k: int| 0 <= k < 9 implies (#[trigger] bx@[k]) == (
                ((b / 3) * 3 + k / 3) as usize,
                ((b % 3) * 3 + k % 3) as usize,
            ) by {
                let r = (b as int / 3) * 3 + k / 3;
                let c = (b as int % 3) * 3 + k % 3;
                assert(bx@[k].0 * 9 + bx@[k].1 == r * 9 + c);
            }
            handles.push(bx);
            b = b + 1;
        }
        handles
    }
}

} // verus!
