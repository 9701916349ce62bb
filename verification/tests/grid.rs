use sudoku_solver::grid::{group_position, Cell, Grid};
use sudoku_solver::text::{given_of, parse};

#[test]
fn remove_candidate_clears_one_flag() {
    let mut cell = Cell::default();
    assert!(cell.remove_candidate(3));
    assert_eq!(
        cell,
        Cell::Unsolved([true, true, true, false, true, true, true, true, true])
    );
    assert!(!cell.remove_candidate(3));
    assert_eq!(
        cell,
        Cell::Unsolved([true, true, true, false, true, true, true, true, true])
    );
}

#[test]
fn remove_candidate_leaves_a_solved_cell() {
    let mut cell = Cell::Solved(3);
    assert!(!cell.remove_candidate(3));
    assert!(!cell.remove_candidate(4));
    assert_eq!(cell, Cell::Solved(3));
}

#[test]
fn candidates_are_ascending() {
    let cell = Cell::Unsolved([false, true, false, true, true, false, false, false, true]);
    assert_eq!(cell.candidates(), vec![1, 3, 4, 8]);
    assert_eq!(cell.candidate_count(), 4);
    assert_eq!(cell.first_candidate(), Some(1));
    assert_eq!(Cell::default().candidates(), vec![0, 1, 2, 3, 4, 5, 6, 7, 8]);
    assert_eq!(Cell::Solved(2).candidates(), Vec::<usize>::new());
    assert_eq!(Cell::Solved(2).candidate_count(), 0);
    assert_eq!(Cell::Solved(2).first_candidate(), None);
    assert_eq!(Cell::Unsolved([false; 9]).candidates(), Vec::<usize>::new());
    assert_eq!(Cell::Unsolved([false; 9]).first_candidate(), None);
}

#[test]
fn has_candidate_reads_the_flag() {
    let cell = Cell::Unsolved([false, true, false, true, true, false, false, false, true]);
    assert!(cell.has_candidate(1));
    assert!(!cell.has_candidate(0));
    assert!(!cell.has_candidate(9));
    assert!(!Cell::Solved(1).has_candidate(1));
}

#[test]
fn same_as_compares_what_cells_hold() {
    let a = Cell::Unsolved([false, true, false, true, true, false, false, false, true]);
    let b = Cell::Unsolved([false, true, false, true, true, false, false, false, false]);
    assert!(a.same_as(&a));
    assert!(!a.same_as(&b));
    assert!(Cell::Solved(1).same_as(&Cell::Solved(1)));
    assert!(!Cell::Solved(1).same_as(&Cell::Solved(2)));
    assert!(!Cell::Solved(1).same_as(&a));
}

#[test]
fn default_cell_is_open() {
    assert_eq!(Cell::default(), Cell::Unsolved([true; 9]));
}

#[test]
fn cell_from_a_given() {
    assert_eq!(Cell::from(None), Cell::Unsolved([true; 9]));
    assert_eq!(Cell::from(Some(1)), Cell::Solved(0));
    assert_eq!(Cell::from(Some(9)), Cell::Solved(8));
    assert_eq!(Cell::from(Some(0)), Cell::Unsolved([true; 9]));
    assert_eq!(Cell::from(Some(10)), Cell::Unsolved([true; 9]));
}

#[test]
fn solved_and_broken() {
    let mut grid = Grid([[Cell::Solved(0); 9]; 9]);
    assert!(grid.solved());
    assert!(!grid.broken());
    grid.0[8][8] = Cell::default();
    assert!(!grid.solved());
    assert!(!grid.broken());
    grid.0[8][8] = Cell::Unsolved([false; 9]);
    assert!(!grid.solved());
    assert!(grid.broken());
    let open = Grid([[Cell::default(); 9]; 9]);
    assert!(!open.solved());
    assert!(!open.broken());
}

#[test]
fn well_formed_asks_for_digits_on_the_board() {
    let mut grid = Grid([[Cell::default(); 9]; 9]);
    assert!(grid.well_formed());
    grid.0[8][8] = Cell::Solved(8);
    grid.0[0][0] = Cell::Unsolved([false; 9]);
    assert!(grid.well_formed());
    grid.0[4][2] = Cell::Solved(9);
    assert!(!grid.well_formed());
}

#[test]
fn rows_can_be_read_by_index() {
    let mut grid = Grid([[Cell::default(); 9]; 9]);
    grid.0[3][7] = Cell::Solved(5);
    assert_eq!(grid[3][7], Cell::Solved(5));
    assert_eq!(grid[3][6], Cell::default());
    assert_eq!(grid[3].len(), 9);
    assert_eq!(grid.len(), 9);
    assert!(grid.iter().flatten().filter(|c| matches!(c, Cell::Solved(_))).count() == 1);
}

#[test]
fn cols_and_boxes_hand_out_positions() {
    let grid = Grid([[Cell::default(); 9]; 9]);
    let cols = grid.cols();
    let boxes = grid.boxes();
    assert_eq!(cols.len(), 9);
    assert_eq!(boxes.len(), 9);
    for i in 0..9 {
        assert_eq!(cols[i].len(), 9);
        assert_eq!(boxes[i].len(), 9);
        for k in 0..9 {
            assert_eq!(cols[i][k], (k, i));
            assert_eq!(boxes[i][k], ((i / 3) * 3 + k / 3, (i % 3) * 3 + k % 3));
        }
    }
    assert_eq!(boxes[4][0], (3, 3));
    assert_eq!(boxes[8][8], (8, 8));
    assert_eq!(boxes[2][3], (1, 6));
}

#[test]
fn groups_partition_the_board() {
    for kind in 0..3 {
        let mut seen = [[0usize; 9]; 9];
        for g in 0..9 {
            for k in 0..9 {
                let (r, c) = group_position(kind * 9 + g, k);
                seen[r][c] += 1;
            }
        }
        assert_eq!(seen, [[1usize; 9]; 9]);
    }
    assert_eq!(group_position(3, 5), (3, 5));
    assert_eq!(group_position(9 + 3, 5), (5, 3));
    assert_eq!(group_position(18 + 5, 7), (5, 7));
}

#[test]
fn group_copies_the_cells_in_group_order() {
    let mut grid = Grid([[Cell::default(); 9]; 9]);
    for r in 0..9 {
        for c in 0..9 {
            grid.0[r][c] = Cell::Solved((r * 2 + c) % 9);
        }
    }
    let row = grid.group(2);
    let col = grid.group(9 + 2);
    let bx = grid.group(18 + 4);
    assert_eq!(row.len(), 9);
    for k in 0..9 {
        assert_eq!(row[k], Cell::Solved((4 + k) % 9));
        assert_eq!(col[k], Cell::Solved((k * 2 + 2) % 9));
        assert_eq!(bx[k], grid.0[3 + k / 3][3 + k % 3]);
    }
}

#[test]
fn strike_at_and_clear_line() {
    let mut grid = Grid([[Cell::default(); 9]; 9]);
    assert!(grid.strike_at(4, 5, 6));
    assert!(!grid.strike_at(4, 5, 6));
    assert!(!grid.0[4][5].has_candidate(6));
    assert_eq!(grid.0[4][5].candidate_count(), 8);
    assert!(grid.clear_line(9 + 2, 1, 0));
    for r in 0..9 {
        assert_eq!(grid.0[r][2].has_candidate(1), r < 3);
    }
    assert!(!grid.clear_line(9 + 2, 1, 0));
    assert!(grid.clear_digits(0, 0, &[true, true, false, false, false, false, false, false, true]));
    assert_eq!(grid.0[0][0].candidates(), vec![2, 3, 4, 5, 6, 7]);
}

#[test]
fn parse_reads_digits_and_gaps() {
    let grid = parse("1.3 45\n6\t789");
    let expected = [
        Cell::Solved(0),
        Cell::default(),
        Cell::Solved(2),
        Cell::Solved(3),
        Cell::Solved(4),
        Cell::Solved(5),
        Cell::Solved(6),
        Cell::Solved(7),
        Cell::Solved(8),
    ];
    assert_eq!(grid.0[0], expected);
    for r in 1..9 {
        assert_eq!(grid.0[r], [Cell::default(); 9]);
    }
}

#[test]
fn parse_treats_zero_and_letters_as_open() {
    let grid = parse("0x9");
    assert_eq!(grid.0[0][0], Cell::default());
    assert_eq!(grid.0[0][1], Cell::default());
    assert_eq!(grid.0[0][2], Cell::Solved(8));
}

#[test]
fn parse_ignores_what_follows_the_last_cell() {
    let mut text = String::new();
    for _ in 0..81 {
        text.push('5');
    }
    text.push_str("1234");
    let grid = parse(&text);
    assert_eq!(grid.0, [[Cell::Solved(4); 9]; 9]);
    assert_eq!(parse("").0, [[Cell::default(); 9]; 9]);
}

#[test]
fn given_of_reads_a_digit() {
    assert_eq!(given_of('1'), Some(1));
    assert_eq!(given_of('9'), Some(9));
    assert_eq!(given_of('0'), None);
    assert_eq!(given_of('.'), None);
    assert_eq!(given_of('a'), None);
}
