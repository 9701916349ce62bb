//! Reading a grid from the text of a puzzle, and writing a grid as text.

use crate::grid::{Cell, CellView, Grid, GridView};
use vstd::prelude::*;
use vstd::string::StrSliceExecFns;

verus! {

/// Whether the character is dropped before a puzzle is read: a blank, a
/// line feed or a tab.
pub open spec fn is_blank(c: char) -> bool {
    c == ' ' || c == '\n' || c == '\t'
}

/// The first `n` characters of `text` without the blank ones.
pub open spec fn strip(text: Seq<char>, n: int) -> Seq<char>
    decreases n,
{
    if n <= 0 {
        Seq::empty()
    } else if is_blank(text[n - 1]) {
        strip(text, n - 1)
    } else {
        strip(text, n - 1).push(text[n - 1])
    }
}

/// The cell that a character of a puzzle stands for: a digit `1` to `9` is a
/// given, stored zero-based; any other character leaves the cell open.
pub open spec fn cell_of(c: char) -> CellView {
    if '1' <= c <= '9' {
        CellView::Solved(c as int - '1' as int)
    } else {
        CellView::open_cell()
    }
}

/// The cells that the first `n` characters of `text` fill, row by row. What
/// lies beyond the 81st character that is not blank is ignored, and
/// positions that the text does not reach stay open.
pub open spec fn cells_of(text: Seq<char>, n: int) -> Seq<CellView> {
    let marks = strip(text, n);
    Seq::new(
        81,
        |p: int|
            if p < marks.len() {
                cell_of(marks[p])
            } else {
                CellView::open_cell()
            },
    )
}

/// The grid that the text of a puzzle describes.
pub open spec fn parsed(text: Seq<char>) -> GridView {
    GridView { cells: cells_of(text, text.len() as int) }
}

/// Stripping more of a text only adds to what was stripped of less of it.
pub proof fn lemma_strip_grows(text: Seq<char>, m: int, n: int)
    requires
        0 <= m <= n,
    ensures
        strip(text, m).len() <= strip(text, n).len(),
        forall|p: int| 0 <= p < strip(text, m).len() ==> strip(text, n)[p] == strip(text, m)[p],
    decreases n - m,
{
    if m < n {
        lemma_strip_grows(text, m, n - 1);
    }
}

/// The given that a character stands for: the digit `1` to `9`, if it is one.
pub fn given_of(c: char) -> (given: Option<usize>)
    ensures
        given == if '1' <= c <= '9' {
            Some((c as int - '0' as int) as usize)
        } else {
            None
        },
{
    if c >= '1' && c <= '9' {
        Some((c as u32 - '0' as u32) as usize)
    } else {
        None
    }
}

/// Reads a grid from the text of a puzzle. Blanks, line feeds and tabs are
/// dropped; of what is left, the first 81 characters fill the grid row by
/// row. A digit `1` to `9` gives a solved cell, any other character an open
/// one. Cells that the text does not reach are open.
pub fn parse(text: &str) -> (grid: Grid)
    ensures
        grid.wf(),
        grid@ == parsed(text@),
{
    let open = Cell::default();
    let mut grid = Grid([[open; 9]; 9]);
    let len = text.unicode_len();
    let mut filled: usize = 0;
    let mut i: usize = 0;
    proof {
        assert forall|p: int| 0 <= p < 81 implies #[trigger] grid@.cells[p] == open@ by {}
        assert(grid@.cells =~= cells_of(text@, 0));
        assert forall|p: int| 0 <= p < 81 implies (#[trigger] grid@.cells[p]).wf() by {}
    }
    while i < len && filled < 81
        invariant
            i <= len,
            len == text@.len(),
            filled <= 81,
            filled == strip(text@, i as int).len(),
            grid.wf(),
            grid@.cells == cells_of(text@, i as int),
        decreases len - i,
    {
        let c = text.get_char(i);
        let ghost before = grid@;
        if !(c == ' ' || c == '\n' || c == '\t') {
            let given = given_of(c);
            let cell = Cell::from(given);
            grid.0[filled / 9][filled % 9] = cell;
            proof {
                crate::grid::lemma_from_is_seed(given);
                assert(cell@ == cell_of(c));
                assert forall|p: int| 0 <= p < 81 implies #[trigger] grid@.cells[p] == if p
                    == filled {
                    cell@
                } else {
                    before.cells[p]
                } by {}
                assert(grid@.cells =~= cells_of(text@, i + 1));
            }
            filled = filled + 1;
        } else {
            proof {
                assert(grid@.cells =~= cells_of(text@, i + 1));
            }
        }
        i = i + 1;
    }
    proof {
        lemma_strip_grows(text@, i as int, len as int);
        assert(grid@.cells =~= cells_of(text@, len as int));
    }
    grid
}

/// The character that stands for the zero-based digit `n`: `1` for 0 up to
/// `9` for 8.
pub open spec fn digit_symbol(n: int) -> char {
    if n == 0 {
        '1'
    } else if n == 1 {
        '2'
    } else if n == 2 {
        '3'
    } else if n == 3 {
        '4'
    } else if n == 4 {
        '5'
    } else if n == 5 {
        '6'
    } else if n == 6 {
        '7'
    } else if n == 7 {
        '8'
    } else {
        '9'
    }
}

/// The character that a cell is written as: its digit, counted from one, if
/// it is solved, and an underscore if it is not.
pub open spec fn symbol(cell: CellView) -> char {
    match cell {
        CellView::Solved(n) => digit_symbol(n),
        CellView::Unsolved(_) => '_',
    }
}

/// The text of the first `cols` cells of row `r`: each cell between two
/// blanks, and a bar before the fourth and the seventh.
pub open spec fn row_text(g: GridView, r: int, cols: int) -> Seq<char>
    decreases cols,
{
    if cols <= 0 {
        Seq::empty()
    } else {
        let before = row_text(g, r, cols - 1);
        let barred = if cols == 4 || cols == 7 {
            before.push('|')
        } else {
            before
        };
        barred.push(' ').push(symbol(g.cells[r * 9 + cols - 1])).push(' ')
    }
}

/// The first `n` characters of the line that parts two bands of boxes.
pub open spec fn rule_text(n: int) -> Seq<char>
    decreases n,
{
    if n <= 0 {
        Seq::empty()
    } else {
        rule_text(n - 1).push(
            if n == 10 || n == 20 {
                '+'
            } else {
                '-'
            },
        )
    }
}

/// The text of the first `rows` rows: each row on a line of its own, and a
/// rule before the fourth and the seventh.
pub open spec fn board_text(g: GridView, rows: int) -> Seq<char>
    decreases rows,
{
    if rows <= 0 {
        Seq::empty()
    } else {
        let before = board_text(g, rows - 1);
        let ruled = if rows == 4 || rows == 7 {
            before + rule_text(29).push('\n')
        } else {
            before
        };
        ruled + row_text(g, rows - 1, 9).push('\n')
    }
}

/// The string made of the given characters in their order, by `String::from_iter`.
#[verifier::external_body]
fn string_of(chars: &Vec<char>) -> (text: String)
    ensures
        text@ == chars@,
{
    String::from_iter(chars)
}

impl Cell {
    /// The character that the cell is written as.
    pub fn symbol(&self) -> (c: char)
        requires
            self@.wf(),
        ensures
            c == symbol(self@),
    {
        match self {
            Cell::Solved(n) => {
                if *n == 0 {
                    '1'
                } else if *n == 1 {
                    '2'
                } else if *n == 2 {
                    '3'
                } else if *n == 3 {
                    '4'
                } else if *n == 4 {
                    '5'
                } else if *n == 5 {
                    '6'
                } else if *n == 6 {
                    '7'
                } else if *n == 7 {
                    '8'
                } else {
                    '9'
                }
            },
            Cell::Unsolved(_) => '_',
        }
    }
}

/// Appends the line that parts two bands of boxes.
fn push_rule(out: &mut Vec<char>)
    ensures
        final(out)@ == old(out)@ + rule_text(29).push('\n'),
{
    let mut n: usize = 0;
    assert(out@ =~= old(out)@ + rule_text(0));
    while n < 29
        invariant
            n <= 29,
            out@ == old(out)@ + rule_text(n as int),
        decreases 29 - n,
    {
        let ghost before = out@;
        if n == 9 || n == 19 {
            out.push('+');
        } else {
            out.push('-');
        }
        n = n + 1;
        assert(out@ =~= old(out)@ + rule_text(n as int));
    }
    out.push('\n');
    assert(out@ =~= old(out)@ + rule_text(29).push('\n'));
}

/// Appends the line of row `r`.
fn push_row(out: &mut Vec<char>, grid: &Grid, r: usize)
    requires
        grid.wf(),
        r < 9,
    ensures
        final(out)@ == old(out)@ + row_text(grid@, r as int, 9).push('\n'),
{
    let mut c: usize = 0;
    assert(out@ =~= old(out)@ + row_text(grid@, r as int, 0));
    while c < 9
        invariant
            c <= 9,
            r < 9,
            grid.wf(),
            out@ == old(out)@ + row_text(grid@, r as int, c as int),
        decreases 9 - c,
    {
        if c == 3 || c == 6 {
            out.push('|');
        }
        let cell = grid.0[r][c];
        proof {
            grid.lemma_cell_view(r as int, c as int);
            assert(grid@.cells[r * 9 + c].wf());
        }
        out.push(' ');
        out.push(cell.symbol());
        out.push(' ');
        c = c + 1;
        assert(out@ =~= old(out)@ + row_text(grid@, r as int, c as int));
    }
    out.push('\n');
    assert(out@ =~= old(out)@ + row_text(grid@, r as int, 9).push('\n'));
}

/// Writes the grid as text: nine lines of cells, a solved cell as its digit
/// counted from one and an unsolved cell as an underscore, with bars and
/// rules between the boxes.
pub fn render(grid: &Grid) -> (text: String)
    requires
        grid.wf(),
    ensures
        text@ == board_text(grid@, 9),
{
    let mut out: Vec<char> = Vec::new();
    let mut r: usize = 0;
    assert(out@ =~= board_text(grid@, 0));
    while r < 9
        invariant
            r <= 9,
            grid.wf(),
            out@ == board_text(grid@, r as int),
        decreases 9 - r,
    {
        if r == 3 || r == 6 {
            push_rule(&mut out);
        }
        push_row(&mut out, grid, r);
        r = r + 1;
    }
    string_of(&out)
}

} // verus!
