use sudoku_solver::grid::{Cell, Grid};

#[test]
fn kings() {
    let mut grid = Grid([[Cell::default(); 9]; 9]);

    grid.0[0][0] = Cell::Solved(0);
    grid.0[4][4] = Cell::Solved(0);
    grid.0[8][8] = Cell::Solved(0);

    assert!(matches!(grid.kings(), Some(())));

    assert!([grid.0[1][0], grid.0[1][1], grid.0[0][1]]
        .iter()
        .all(|c| matches!(c, Cell::Unsolved([false, _, _, _, _, _, _, _, _]))));

    assert!([
        grid.0[3][3], grid.0[3][4], grid.0[3][5], grid.0[4][3], grid.0[4][5], grid.0[5][3],
        grid.0[5][4], grid.0[5][5],
    ]
    .iter()
    .all(|c| matches!(c, Cell::Unsolved([false, _, _, _, _, _, _, _, _]))));

    assert!([grid.0[7][7], grid.0[7][8], grid.0[8][7]]
        .iter()
        .all(|c| matches!(c, Cell::Unsolved([false, _, _, _, _, _, _, _, _]))));
}

#[test]
fn kings_method_reports_no_change() {
    let mut grid = Grid([[Cell::default(); 9]; 9]);
    assert!(grid.kings().is_none());
    grid.0[4][4] = Cell::Solved(0);
    assert!(grid.kings().is_some());
    assert!(grid.kings().is_none());
}
