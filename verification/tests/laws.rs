use sudoku_solver::basic_sudoku::{
    basic_elimination, hidden_singles, hidden_singles_in_group, hidden_tuples,
    hidden_tuples_in_group, naked_singles, naked_tuples, naked_tuples_in_group, pointing_col,
    pointing_row, pointing_tuples,
};
use sudoku_solver::chess_strategies::{kings, knights};
use sudoku_solver::grid::{Cell, Grid};
use sudoku_solver::solver::{Solver, Strategy};
use sudoku_solver::text::parse;

fn flags(digits: &[usize]) -> [bool; 9] {
    let mut out = [false; 9];
    for d in digits {
        out[*d] = true;
    }
    out
}

fn open_grid() -> Grid {
    Grid([[Cell::default(); 9]; 9])
}

const PUZZLE: &str =
    "530070000600195000098000060800060003400803001700020006060000280000419005000080079";

#[test]
fn naked_singles_touch_no_other_cell() {
    let mut grid = open_grid();
    grid.0[2][3] = Cell::Unsolved(flags(&[6]));
    grid.0[2][4] = Cell::Unsolved(flags(&[6, 7]));
    grid.0[7][7] = Cell::Unsolved(flags(&[]));
    grid.0[8][8] = Cell::Solved(2);
    let before = grid.0;
    assert!(naked_singles(&mut grid));
    for r in 0..9 {
        for c in 0..9 {
            if (r, c) == (2, 3) {
                assert_eq!(grid.0[r][c], Cell::Solved(6));
            } else {
                assert_eq!(grid.0[r][c], before[r][c]);
            }
        }
    }
}

#[test]
fn naked_singles_solve_equal_singles_side_by_side() {
    let mut grid = open_grid();
    grid.0[0][0] = Cell::Unsolved(flags(&[4]));
    grid.0[0][1] = Cell::Unsolved(flags(&[4]));
    assert!(naked_singles(&mut grid));
    assert_eq!(grid.0[0][0], Cell::Solved(4));
    assert_eq!(grid.0[0][1], Cell::Solved(4));
}

#[test]
fn basic_elimination_clears_the_groups_of_each_solved_cell() {
    let mut grid = parse(PUZZLE);
    let given = parse(PUZZLE);
    assert!(basic_elimination(&mut grid));
    for r in 0..9 {
        for c in 0..9 {
            match given.0[r][c] {
                Cell::Solved(n) => assert_eq!(grid.0[r][c], Cell::Solved(n)),
                Cell::Unsolved(_) => {
                    for d in 0..9 {
                        let mut seen = false;
                        for k in 0..9 {
                            let peers = [
                                given.0[r][k],
                                given.0[k][c],
                                given.0[(r / 3) * 3 + k / 3][(c / 3) * 3 + k % 3],
                            ];
                            seen = seen || peers.contains(&Cell::Solved(d));
                        }
                        assert_eq!(grid.0[r][c].has_candidate(d), !seen);
                    }
                }
            }
        }
    }
}

#[test]
fn strategies_that_settle_report_nothing_the_second_time() {
    let calls: [fn(&mut Grid) -> bool; 4] = [naked_singles, basic_elimination, kings, knights];
    for call in calls {
        let mut grid = parse(PUZZLE);
        grid.0[0][2] = Cell::Unsolved(flags(&[3]));
        assert!(call(&mut grid));
        let after = grid.0;
        assert!(!call(&mut grid));
        assert_eq!(grid.0, after);
    }
}

#[test]
fn a_strategy_that_reports_nothing_changes_nothing() {
    let calls: [fn(&mut Grid) -> bool; 8] = [
        naked_singles,
        basic_elimination,
        hidden_singles,
        naked_tuples,
        hidden_tuples,
        pointing_tuples,
        kings,
        knights,
    ];
    for call in calls {
        let mut grid = open_grid();
        assert!(!call(&mut grid));
        assert_eq!(grid.0, open_grid().0);
        assert!(!call(&mut grid));
    }
}

#[test]
fn hidden_singles_report_no_change_on_a_naked_single() {
    let mut grid = open_grid();
    for c in 1..9 {
        grid.0[0][c].remove_candidate(0);
    }
    assert!(hidden_singles(&mut grid));
    assert_eq!(grid.0[0][0], Cell::Unsolved(flags(&[0])));
    let after = grid.0;
    assert!(!hidden_singles(&mut grid));
    assert_eq!(grid.0, after);
}

#[test]
fn hidden_singles_in_one_group_go_by_ascending_digit() {
    let mut grid = open_grid();
    // Digits 2 and 5 both have their one place in the first cell of row 3.
    for c in 1..9 {
        grid.0[3][c].remove_candidate(2);
        grid.0[3][c].remove_candidate(5);
    }
    assert!(hidden_singles_in_group(&mut grid, 3));
    assert_eq!(grid.0[3][0], Cell::Unsolved(flags(&[2])));
    for c in 1..9 {
        assert_eq!(grid.0[3][c], Cell::Unsolved(flags(&[0, 1, 3, 4, 6, 7, 8])));
    }
    assert_eq!(grid.0[2], [Cell::default(); 9]);
}

#[test]
fn hidden_singles_can_find_more_on_a_second_pass() {
    let mut grid = open_grid();
    for c in 2..9 {
        grid.0[0][c].remove_candidate(0);
    }
    for c in 0..9 {
        if c != 1 {
            grid.0[0][c].remove_candidate(1);
        }
    }
    assert!(hidden_singles(&mut grid));
    assert_eq!(grid.0[0][1], Cell::Unsolved(flags(&[1])));
    assert_eq!(grid.0[0][0].candidate_count(), 8);
    assert!(hidden_singles(&mut grid));
    assert_eq!(grid.0[0][0], Cell::Unsolved(flags(&[0])));
    assert!(!hidden_singles(&mut grid));
}

#[test]
fn naked_tuples_in_one_group_spare_the_cells_of_the_tuple() {
    let mut grid = open_grid();
    let triple = flags(&[1, 4, 7]);
    grid.0[0][3] = Cell::Unsolved(triple);
    grid.0[4][3] = Cell::Unsolved(triple);
    grid.0[8][3] = Cell::Unsolved(triple);
    grid.0[2][3] = Cell::Solved(0);
    assert!(naked_tuples_in_group(&mut grid, 9 + 3));
    for r in 0..9 {
        let expected = match r {
            0 | 4 | 8 => Cell::Unsolved(triple),
            2 => Cell::Solved(0),
            _ => Cell::Unsolved(flags(&[0, 2, 3, 5, 6, 8])),
        };
        assert_eq!(grid.0[r][3], expected);
        for c in 0..9 {
            if c != 3 {
                assert_eq!(grid.0[r][c], Cell::default());
            }
        }
    }
    assert!(!naked_tuples_in_group(&mut grid, 9 + 3));
}

#[test]
fn naked_tuples_need_as_many_cells_as_digits() {
    let mut grid = open_grid();
    let triple = flags(&[1, 4, 7]);
    grid.0[0][3] = Cell::Unsolved(triple);
    grid.0[4][3] = Cell::Unsolved(triple);
    assert!(!naked_tuples(&mut grid));
    let pair = flags(&[1, 4]);
    grid.0[0][3] = Cell::Unsolved(pair);
    grid.0[4][3] = Cell::Unsolved(pair);
    grid.0[8][3] = Cell::Unsolved(pair);
    assert!(!naked_tuples(&mut grid));
}

#[test]
fn naked_tuples_can_find_more_on_a_second_pass() {
    // The pair in the first box is found when the boxes are done, after the
    // rows; the single that it leaves in row 0 is found by the next pass.
    let mut grid = open_grid();
    grid.0[0][0] = Cell::Unsolved(flags(&[0, 1]));
    grid.0[1][1] = Cell::Unsolved(flags(&[0, 1]));
    grid.0[0][2] = Cell::Unsolved(flags(&[0, 2]));
    assert!(naked_tuples(&mut grid));
    assert_eq!(grid.0[0][2], Cell::Unsolved(flags(&[2])));
    assert!(grid.0[0][5].has_candidate(2));
    assert!(naked_tuples(&mut grid));
    assert!(!grid.0[0][5].has_candidate(2));
}

#[test]
fn hidden_tuples_in_one_group_keep_only_the_digits_of_the_tuple() {
    let mut grid = open_grid();
    for k in 0..9 {
        if k != 4 && k != 8 {
            let (r, c) = (3 + k / 3, 3 + k % 3);
            grid.0[r][c].remove_candidate(5);
            grid.0[r][c].remove_candidate(6);
        }
    }
    assert!(hidden_tuples_in_group(&mut grid, 18 + 4));
    for k in 0..9 {
        let (r, c) = (3 + k / 3, 3 + k % 3);
        let expected = if k == 4 || k == 8 {
            flags(&[5, 6])
        } else {
            flags(&[0, 1, 2, 3, 4, 7, 8])
        };
        assert_eq!(grid.0[r][c], Cell::Unsolved(expected));
    }
    assert_eq!(grid.0[0], [Cell::default(); 9]);
    assert!(!hidden_tuples_in_group(&mut grid, 18 + 4));
}

#[test]
fn hidden_tuples_take_digits_with_fewer_holders_into_the_tuple() {
    // Digit 0 has one holder and digit 1 has two: together they count as a
    // pair of digits, and the two cells that have one of them keep only them.
    let mut grid = open_grid();
    for c in 0..9 {
        if c != 2 {
            grid.0[6][c].remove_candidate(0);
        }
        if c != 2 && c != 5 {
            grid.0[6][c].remove_candidate(1);
        }
    }
    assert!(hidden_tuples_in_group(&mut grid, 6));
    assert_eq!(grid.0[6][2], Cell::Unsolved(flags(&[0, 1])));
    assert_eq!(grid.0[6][5], Cell::Unsolved(flags(&[1])));
}

#[test]
fn hidden_tuples_can_find_more_on_a_second_pass() {
    let mut grid = open_grid();
    for k in 0..9 {
        if k != 4 && k != 8 {
            let (r, c) = (3 + k / 3, 3 + k % 3);
            grid.0[r][c].remove_candidate(5);
            grid.0[r][c].remove_candidate(6);
        }
    }
    for c in 0..9 {
        if c != 0 && c != 1 && c != 4 {
            grid.0[4][c].remove_candidate(0);
            grid.0[4][c].remove_candidate(1);
        }
    }
    assert!(hidden_tuples(&mut grid));
    assert_eq!(grid.0[4][4], Cell::Unsolved(flags(&[5, 6])));
    assert_eq!(grid.0[4][0], Cell::default());
    assert!(hidden_tuples(&mut grid));
    assert_eq!(grid.0[4][0], Cell::Unsolved(flags(&[0, 1])));
    assert_eq!(grid.0[4][1], Cell::Unsolved(flags(&[0, 1])));
}

#[test]
fn pointing_tuples_clear_the_line_outside_the_box_and_nothing_else() {
    let mut grid = open_grid();
    // In the middle box digit 7 is left in its last column only.
    for k in 0..9 {
        if k % 3 != 2 {
            grid.0[3 + k / 3][3 + k % 3].remove_candidate(7);
        }
    }
    let before = grid.0;
    assert_eq!(pointing_col(&grid, 4, 7), Some(2));
    assert_eq!(pointing_row(&grid, 4, 7), None);
    assert_eq!(pointing_row(&grid, 0, 7), None);
    assert!(pointing_tuples(&mut grid));
    for r in 0..9 {
        for c in 0..9 {
            if c == 5 && !(3..6).contains(&r) {
                assert_eq!(grid.0[r][c], Cell::Unsolved(flags(&[0, 1, 2, 3, 4, 5, 6, 8])));
            } else {
                assert_eq!(grid.0[r][c], before[r][c]);
            }
        }
    }
}

#[test]
fn pointing_tuples_judge_by_the_grid_as_given() {
    let mut grid = open_grid();
    // Digit 0: in box 0 only in row 0; in box 1 in rows 0 and 1.
    for k in 3..9 {
        grid.0[k / 3][k % 3].remove_candidate(0);
    }
    for c in 3..6 {
        grid.0[2][c].remove_candidate(0);
    }
    assert!(pointing_tuples(&mut grid));
    for c in 3..9 {
        assert!(!grid.0[0][c].has_candidate(0));
    }
    // Only now is digit 0 confined to row 1 of box 1.
    assert!(grid.0[1][7].has_candidate(0));
    assert!(pointing_tuples(&mut grid));
    assert!(!grid.0[1][7].has_candidate(0));
    assert!(!grid.0[1][0].has_candidate(0));
}

#[test]
fn a_found_solution_keeps_the_givens_and_the_candidates() {
    let mut grid = parse(PUZZLE);
    grid.0[0][2] = Cell::Unsolved(flags(&[3, 5]));
    let given = grid.0;
    let mut solver = Solver::new();
    solver.add_strategy(Strategy::BasicElimination);
    assert!(solver.backtrack(&mut grid));
    assert!(grid.solved());
    for r in 0..9 {
        for c in 0..9 {
            let Cell::Solved(n) = grid.0[r][c] else {
                panic!("unsolved cell");
            };
            match given[r][c] {
                Cell::Solved(m) => assert_eq!(n, m),
                Cell::Unsolved(cands) => assert!(cands[n]),
            }
        }
    }
    assert_eq!(grid.0[0][2], Cell::Solved(3));
}

#[test]
fn backtrack_without_strategies_takes_the_least_candidates() {
    let mut grid = open_grid();
    grid.0[4][4] = Cell::Unsolved(flags(&[6, 8]));
    let solver = Solver::new();
    assert!(solver.backtrack(&mut grid));
    for r in 0..9 {
        for c in 0..9 {
            let expected = if (r, c) == (4, 4) { 6 } else { 0 };
            assert_eq!(grid.0[r][c], Cell::Solved(expected));
        }
    }
}
