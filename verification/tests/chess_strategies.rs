use sudoku_solver::chess_strategies::{kings, knights, sudoku_add};
use sudoku_solver::grid::{Cell, Grid};

#[test]
fn test_kings() {
    let mut grid = Grid([[Cell::default(); 9]; 9]);

    grid.0[0][0] = Cell::Solved(0);
    grid.0[4][4] = Cell::Solved(0);
    grid.0[8][8] = Cell::Solved(0);

    assert!(kings(&mut grid));

    assert!([grid.0[1][0], grid.0[1][1], grid.0[0][1]]
        .iter()
        .all(|c| matches!(c, Cell::Unsolved([false, _, _, _, _, _, _, _, _]))));

    assert!([
        grid.0[3][3], grid.0[3][4], grid.0[3][5], grid.0[4][3], grid.0[4][5], grid.0[5][3],
        grid.0[5][4], grid.0[5][5],
    ]
    .iter()
    .all(|c| matches!(c, Cell::Unsolved([false, _, _, _, _, _, _, _, _]))));

    assert!([grid.0[7][7], grid.0[7][8], grid.0[8][7]]
        .iter()
        .all(|c| matches!(c, Cell::Unsolved([false, _, _, _, _, _, _, _, _]))));
}

#[test]
fn test_knights() {
    let mut grid = Grid([[Cell::default(); 9]; 9]);

    grid.0[0][0] = Cell::Solved(0);
    grid.0[4][4] = Cell::Solved(0);
    grid.0[8][8] = Cell::Solved(0);

    assert!(knights(&mut grid));

    assert!([grid.0[2][1], grid.0[1][2]]
        .iter()
        .all(|c| matches!(c, Cell::Unsolved([false, _, _, _, _, _, _, _, _]))));

    assert!([
        grid.0[3][2], grid.0[2][3], grid.0[6][3], grid.0[3][6], grid.0[2][5], grid.0[5][2],
        grid.0[5][6], grid.0[6][5]
    ]
    .iter()
    .all(|c| matches!(c, Cell::Unsolved([false, _, _, _, _, _, _, _, _]))));

    assert!([grid.0[6][5], grid.0[5][6]]
        .iter()
        .all(|c| matches!(c, Cell::Unsolved([false, _, _, _, _, _, _, _, _]))));
}

#[test]
fn knights_touch_only_knight_moves() {
    let mut grid = Grid([[Cell::default(); 9]; 9]);
    grid.0[4][4] = Cell::Solved(3);
    assert!(knights(&mut grid));
    let moves = [(2, 3), (2, 5), (3, 2), (3, 6), (5, 2), (5, 6), (6, 3), (6, 5)];
    for r in 0..9 {
        for c in 0..9 {
            if (r, c) == (4, 4) {
                assert_eq!(grid.0[r][c], Cell::Solved(3));
            } else {
                let mut expected = [true; 9];
                if moves.contains(&(r, c)) {
                    expected[3] = false;
                }
                assert_eq!(grid.0[r][c], Cell::Unsolved(expected));
            }
        }
    }
    assert!(!knights(&mut grid));
}

#[test]
fn knights_near_the_corner() {
    let mut grid = Grid([[Cell::default(); 9]; 9]);
    grid.0[0][8] = Cell::Solved(5);
    assert!(knights(&mut grid));
    for r in 0..9 {
        for c in 0..9 {
            let hit = (r, c) == (1, 6) || (r, c) == (2, 7);
            if (r, c) != (0, 8) {
                assert_eq!(grid.0[r][c].has_candidate(5), !hit);
            }
        }
    }
}

#[test]
fn kings_touch_only_neighbours() {
    let mut grid = Grid([[Cell::default(); 9]; 9]);
    grid.0[8][0] = Cell::Solved(7);
    assert!(kings(&mut grid));
    for r in 0..9 {
        for c in 0..9 {
            let hit = (r, c) == (7, 0) || (r, c) == (7, 1) || (r, c) == (8, 1);
            if (r, c) != (8, 0) {
                assert_eq!(grid.0[r][c].has_candidate(7), !hit);
                assert_eq!(grid.0[r][c].candidates().len(), if hit { 8 } else { 9 });
            }
        }
    }
    assert!(!kings(&mut grid));
}

#[test]
fn kings_without_solved_cells_change_nothing() {
    let mut grid = Grid([[Cell::default(); 9]; 9]);
    assert!(!kings(&mut grid));
    assert!(!knights(&mut grid));
    assert_eq!(grid.0, [[Cell::default(); 9]; 9]);
}

#[test]
fn sudoku_add_stays_on_the_board() {
    assert_eq!(sudoku_add(0, 1), Some(1));
    assert_eq!(sudoku_add(7, 1), Some(8));
    assert_eq!(sudoku_add(8, 1), None);
    assert_eq!(sudoku_add(7, 2), None);
    assert_eq!(sudoku_add(6, 2), Some(8));
    assert_eq!(sudoku_add(usize::MAX, 1), None);
    assert_eq!(sudoku_add(1, usize::MAX), None);
}
