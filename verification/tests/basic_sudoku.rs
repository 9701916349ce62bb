use std::collections::HashSet;

use sudoku_solver::basic_sudoku::{
    basic_elimination, hidden_singles, hidden_tuples, naked_singles, naked_tuples, pointing_tuples,
};
use sudoku_solver::grid::{Cell, Grid};

fn exact_candidates(cell: &Cell, candidates: &HashSet<usize>) -> bool {
    if let Cell::Unsolved(c) = cell {
        for (i, cand) in c.iter().enumerate() {
            if *cand != candidates.contains(&i) {
                return false;
            }
        }
        return true;
    }
    false
}

fn has_candidate(cell: &Cell, n: usize) -> bool {
    if let Cell::Unsolved(cands) = cell {
        cands[n]
    } else {
        false
    }
}

#[test]
fn test_naked_singles() {
    let mut grid = Grid([[Cell::default(); 9]; 9]);
    let mut opts = [false; 9];
    opts[0] = true;
    grid.0[0][0] = Cell::Unsolved(opts);
    assert!(naked_singles(&mut grid));
    assert!(matches!(grid.0[0][0], Cell::Solved(0)));
}

#[test]
fn test_basic_elimination() {
    let mut grid = Grid([[Cell::default(); 9]; 9]);
    grid.0[0][0] = Cell::Solved(0);
    let reduced = HashSet::from([1, 2, 3, 4, 5, 6, 7, 8]);
    let unreduced = HashSet::from([0, 1, 2, 3, 4, 5, 6, 7, 8]);

    assert!(basic_elimination(&mut grid));

    assert!(grid.0[0].iter().skip(1).all(|c| exact_candidates(c, &reduced)));

    let mut iter_rows = grid.0.iter();
    assert!(iter_rows.by_ref().skip(1).take(2).all(|row| {
        let mut row_iter = row.iter();
        row_iter.by_ref().take(3).all(|c| exact_candidates(c, &reduced))
            && row_iter.all(|c| exact_candidates(c, &unreduced))
    }));
    assert!(iter_rows.all(|row| {
        let mut row_iter = row.iter();
        row_iter.by_ref().take(1).all(|c| exact_candidates(c, &reduced))
            && row_iter.all(|c| exact_candidates(c, &unreduced))
    }));
}

#[test]
fn test_hidden_singles() {
    let mut grid = Grid([[Cell::default(); 9]; 9]);

    for cell in grid.0[8].iter_mut().skip(1) {
        cell.remove_candidate(0);
    }

    for &(r, c) in grid.cols().get(8).unwrap().iter().skip(1) {
        grid.0[r][c].remove_candidate(1);
    }

    for &(r, c) in grid.boxes().get(4).unwrap().iter().skip(1) {
        grid.0[r][c].remove_candidate(2);
    }

    assert!(hidden_singles(&mut grid));

    assert!(exact_candidates(&grid.0[8][0], &HashSet::from([0])));
    assert!(exact_candidates(&grid.0[0][8], &HashSet::from([1])));
    assert!(exact_candidates(&grid.0[3][3], &HashSet::from([2])));
}

#[test]
fn test_naked_tuples() {
    let mut grid = Grid([[Cell::default(); 9]; 9]);

    let a = [true, true, false, false, false, false, false, false, false];
    grid.0[0][2] = Cell::Unsolved(a);
    grid.0[0][6] = Cell::Unsolved(a);

    let b = [false, false, true, true, false, false, false, false, false];
    grid.0[1][0] = Cell::Unsolved(b);
    grid.0[6][0] = Cell::Unsolved(b);

    let c = [false, false, false, false, true, true, false, false, false];
    grid.0[0][0] = Cell::Unsolved(c);
    grid.0[1][1] = Cell::Unsolved(c);

    assert!(naked_tuples(&mut grid));

    assert!(grid.0[0]
        .iter()
        .enumerate()
        .filter_map(|(i, c)| if i == 2 || i == 6 { None } else { Some(c) })
        .all(|c| !has_candidate(c, 0) && !has_candidate(c, 1)));
    assert!(grid
        .cols()
        .get(0)
        .unwrap()
        .iter()
        .map(|&(r, c)| grid.0[r][c])
        .enumerate()
        .filter_map(|(i, c)| if i == 1 || i == 6 { None } else { Some(c) })
        .all(|c| !has_candidate(&c, 2) && !has_candidate(&c, 3)));
    assert!(grid
        .boxes()
        .get(0)
        .unwrap()
        .iter()
        .map(|&(r, c)| grid.0[r][c])
        .enumerate()
        .filter_map(|(i, c)| if i == 0 || i == 4 { None } else { Some(c) })
        .all(|c| !has_candidate(&c, 4) && !has_candidate(&c, 5)));
}

#[test]
fn test_hidden_tuples() {
    let mut grid = Grid([[Cell::default(); 9]; 9]);

    let row_refs: [(usize, usize); 2] = [(0, 4), (0, 7)];
    for c in 0..9 {
        if row_refs.contains(&(0, c)) {
            continue;
        }
        grid.0[0][c].remove_candidate(0);
        grid.0[0][c].remove_candidate(1);
    }

    let col_refs: [(usize, usize); 3] = [(2, 2), (4, 2), (7, 2)];
    for &(r, c) in grid.cols()[2].iter() {
        if col_refs.contains(&(r, c)) {
            continue;
        }
        grid.0[r][c].remove_candidate(2);
        grid.0[r][c].remove_candidate(3);
        grid.0[r][c].remove_candidate(4);
    }
    grid.0[col_refs[0].0][col_refs[0].1].remove_candidate(3);

    let box_refs: [(usize, usize); 2] = [(4, 4), (5, 5)];
    for &(r, c) in grid.boxes()[4].iter() {
        if box_refs.contains(&(r, c)) {
            continue;
        }
        grid.0[r][c].remove_candidate(5);
        grid.0[r][c].remove_candidate(6);
    }

    assert!(hidden_tuples(&mut grid));

    assert!(row_refs
        .iter()
        .map(|&(r, c)| grid.0[r][c])
        .all(|c| exact_candidates(&c, &HashSet::from([0, 1]))));
    assert!(col_refs
        .iter()
        .map(|&(r, c)| grid.0[r][c])
        .enumerate()
        .all(|(i, c)| exact_candidates(
            &c,
            &(if i == 0 {
                HashSet::from([2, 4])
            } else {
                HashSet::from([2, 3, 4])
            })
        )));
    assert!(box_refs
        .iter()
        .map(|&(r, c)| grid.0[r][c])
        .all(|c| exact_candidates(&c, &HashSet::from([5, 6]))));
}

#[test]
fn test_pointing_tuples() {
    let mut grid = Grid([[Cell::default(); 9]; 9]);

    let row_refs: [(usize, usize); 2] = [(0, 0), (0, 1)];
    let col_refs: [(usize, usize); 3] = [(0, 2), (1, 2), (2, 2)];
    for &(r, c) in grid.boxes()[0].iter() {
        if !row_refs.contains(&(r, c)) {
            grid.0[r][c].remove_candidate(0);
        }
        if !col_refs.contains(&(r, c)) {
            grid.0[r][c].remove_candidate(1);
        }
    }

    assert!(pointing_tuples(&mut grid));

    assert!(grid.0[0]
        .iter()
        .enumerate()
        .all(|(c, cell)| { row_refs.contains(&(0, c)) == cell.candidates().contains(&0) }));

    assert!(grid.cols()[2]
        .iter()
        .all(|&(r, c)| col_refs.contains(&(r, c)) == grid.0[r][c].candidates().contains(&1)))
}
