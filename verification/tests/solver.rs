use sudoku_solver::grid::{Cell, Grid};
use sudoku_solver::solver::{pick_target, Solver, Strategy};
use sudoku_solver::text::{parse, render};

fn standard() -> Solver {
    let mut solver = Solver::new();
    solver.add_strategy(Strategy::NakedSingles);
    solver.add_strategy(Strategy::BasicElimination);
    solver.add_strategy(Strategy::HiddenSingles);
    solver.add_strategy(Strategy::NakedTuples);
    solver
}

fn is_valid_solution(grid: &Grid) -> bool {
    let digit = |r: usize, c: usize| match grid.0[r][c] {
        Cell::Solved(n) => Some(n),
        Cell::Unsolved(_) => None,
    };
    for g in 0..9 {
        let mut row = [false; 9];
        let mut col = [false; 9];
        let mut bx = [false; 9];
        for k in 0..9 {
            let cells = [
                digit(g, k),
                digit(k, g),
                digit((g / 3) * 3 + k / 3, (g % 3) * 3 + k % 3),
            ];
            let seen = [&mut row, &mut col, &mut bx];
            for (cell, flags) in cells.iter().zip(seen) {
                match cell {
                    Some(n) if *n < 9 && !flags[*n] => flags[*n] = true,
                    _ => return false,
                }
            }
        }
    }
    true
}

const EASY: &str =
    "530070000600195000098000060800060003400803001700020006060000280000419005000080079";
const EASY_SOLVED: &str =
    "534678912672195348198342567859761423426853791713924856961537284287419635345286179";
const HARD: &str =
    "4.....8.5.3..........7......2.....6.....8.4......1.......6.3.7.5..2.....1.4......";

#[test]
fn step_reports_basic_elimination() {
    let mut grid = Grid([[Cell::default(); 9]; 9]);
    grid.0[0][0] = Cell::Solved(0);
    let solver = standard();
    assert!(solver.step(&mut grid));
    for r in 0..9 {
        for c in 0..9 {
            if (r, c) == (0, 0) {
                assert_eq!(grid.0[r][c], Cell::Solved(0));
                continue;
            }
            let mut expected = [true; 9];
            if r == 0 || c == 0 || (r < 3 && c < 3) {
                expected[0] = false;
            }
            assert_eq!(grid.0[r][c], Cell::Unsolved(expected));
        }
    }
}

#[test]
fn step_reports_naked_singles() {
    let mut grid = Grid([[Cell::default(); 9]; 9]);
    let mut only_zero = [false; 9];
    only_zero[0] = true;
    grid.0[0][0] = Cell::Unsolved(only_zero);
    let solver = standard();
    assert!(solver.step(&mut grid));
    assert_eq!(grid.0[0][0], Cell::Solved(0));
    for r in 0..9 {
        for c in 0..9 {
            if (r, c) != (0, 0) {
                assert_eq!(grid.0[r][c], Cell::Unsolved([true; 9]));
            }
        }
    }
}

#[test]
fn step_stops_at_the_first_strategy_that_changes_the_grid() {
    let mut grid = Grid([[Cell::default(); 9]; 9]);
    let mut only_zero = [false; 9];
    only_zero[0] = true;
    grid.0[0][0] = Cell::Unsolved(only_zero);
    grid.0[8][8] = Cell::Solved(4);
    let solver = standard();
    assert!(solver.step(&mut grid));
    assert_eq!(grid.0[0][0], Cell::Solved(0));
    assert_eq!(grid.0[8][7], Cell::Unsolved([true; 9]));
    assert!(solver.step(&mut grid));
    assert!(!grid.0[8][7].has_candidate(4));
    assert!(!grid.0[0][1].has_candidate(0));
}

#[test]
fn step_without_strategies_reports_nothing() {
    let mut grid = Grid([[Cell::default(); 9]; 9]);
    grid.0[0][0] = Cell::Solved(0);
    let solver = Solver::new();
    assert!(!solver.step(&mut grid));
    assert_eq!(grid.0[0][0], Cell::Solved(0));
    assert_eq!(grid.0[0][1], Cell::Unsolved([true; 9]));
}

#[test]
fn step_on_a_stable_grid_reports_nothing() {
    let mut grid = Grid([[Cell::default(); 9]; 9]);
    let solver = standard();
    assert!(!solver.step(&mut grid));
    assert_eq!(grid.0, [[Cell::default(); 9]; 9]);
}

#[test]
fn steps_solve_an_easy_puzzle() {
    let mut grid = parse(EASY);
    let solver = standard();
    let mut steps = 0;
    while !grid.solved() && solver.step(&mut grid) {
        steps += 1;
        assert!(steps < 1000);
    }
    assert!(grid.solved());
    assert_eq!(grid.0, parse(EASY_SOLVED).0);
}

#[test]
fn propagate_runs_steps_to_the_end() {
    let mut grid = parse(EASY);
    let solver = standard();
    solver.propagate(&mut grid);
    assert_eq!(grid.0, parse(EASY_SOLVED).0);
    let before = grid.0;
    solver.propagate(&mut grid);
    assert_eq!(grid.0, before);
}

#[test]
fn backtrack_solves_a_hard_puzzle() {
    let mut grid = parse(HARD);
    let solver = standard();
    solver.propagate(&mut grid);
    assert!(!grid.broken());
    if !grid.solved() {
        assert!(solver.backtrack(&mut grid));
    }
    assert!(grid.solved());
    assert!(is_valid_solution(&grid));
    let givens = parse(HARD);
    for r in 0..9 {
        for c in 0..9 {
            if let Cell::Solved(n) = givens.0[r][c] {
                assert_eq!(grid.0[r][c], Cell::Solved(n));
            }
        }
    }
}

#[test]
fn backtrack_fills_an_open_grid() {
    let mut grid = Grid([[Cell::default(); 9]; 9]);
    let solver = standard();
    assert!(solver.backtrack(&mut grid));
    assert!(grid.solved());
    assert!(is_valid_solution(&grid));
}

#[test]
fn backtrack_on_a_solved_grid_finds_nothing_to_do() {
    let mut grid = parse(EASY_SOLVED);
    let solver = standard();
    assert!(!solver.backtrack(&mut grid));
    assert_eq!(grid.0, parse(EASY_SOLVED).0);
}

#[test]
fn backtrack_fails_on_a_cell_without_candidates() {
    let mut grid = parse(EASY_SOLVED);
    grid.0[4][4] = Cell::Unsolved([false; 9]);
    let before = grid.0;
    let solver = standard();
    assert!(!solver.backtrack(&mut grid));
    assert_eq!(grid.0, before);
}

#[test]
fn backtrack_leaves_the_grid_alone_when_every_branch_breaks() {
    // Three cells of the last column can only hold the digits 7 and 8, so
    // whichever is guessed for the first, the two others end up with the
    // same single digit, and guessing it for one leaves the other empty.
    let mut grid = Grid([[Cell::default(); 9]; 9]);
    for c in 0..8 {
        grid.0[0][c] = Cell::Solved(c);
    }
    let mut two = [false; 9];
    two[7] = true;
    two[8] = true;
    grid.0[0][8] = Cell::Unsolved(two);
    grid.0[1][8] = Cell::Unsolved(two);
    grid.0[2][8] = Cell::Unsolved(two);
    let before = grid.0;
    let mut solver = Solver::new();
    solver.add_strategy(Strategy::BasicElimination);
    assert!(!solver.backtrack(&mut grid));
    assert_eq!(grid.0, before);
}

#[test]
fn pick_target_takes_the_first_of_the_smallest() {
    let mut grid = Grid([[Cell::default(); 9]; 9]);
    assert_eq!(pick_target(&grid), Some(0));
    let mut three = [false; 9];
    three[0] = true;
    three[1] = true;
    three[2] = true;
    grid.0[5][5] = Cell::Unsolved(three);
    grid.0[7][1] = Cell::Unsolved(three);
    assert_eq!(pick_target(&grid), Some(5 * 9 + 5));
    let mut two = [false; 9];
    two[4] = true;
    two[6] = true;
    grid.0[8][8] = Cell::Unsolved(two);
    assert_eq!(pick_target(&grid), Some(80));
    grid.0[0][0] = Cell::Solved(1);
    grid.0[8][8] = Cell::Solved(0);
    assert_eq!(pick_target(&grid), Some(5 * 9 + 5));
    assert_eq!(pick_target(&parse(EASY_SOLVED)), None);
}

#[test]
fn render_shows_the_board() {
    let grid = parse(EASY);
    let text = render(&grid);
    let expected = concat_lines(&[
        " 5  3  _ | _  7  _ | _  _  _ ",
        " 6  _  _ | 1  9  5 | _  _  _ ",
        " _  9  8 | _  _  _ | _  6  _ ",
        "---------+---------+---------",
        " 8  _  _ | _  6  _ | _  _  3 ",
        " 4  _  _ | 8  _  3 | _  _  1 ",
        " 7  _  _ | _  2  _ | _  _  6 ",
        "---------+---------+---------",
        " _  6  _ | _  _  _ | 2  8  _ ",
        " _  _  _ | 4  1  9 | _  _  5 ",
        " _  _  _ | _  8  _ | _  7  9 ",
    ]);
    assert_eq!(text, expected);
}

fn concat_lines(lines: &[&str]) -> String {
    let mut out = String::new();
    for line in lines {
        out.push_str(line);
        out.push('\n');
    }
    out
}
