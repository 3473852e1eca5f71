use std::sync::atomic::AtomicBool;
use sudoku_solver::check::{checkBaseSudokuCorrectness, checkSudokuIsComplete};
use sudoku_solver::constraints::{
    boxesConstraintElimination, constraintsElimination, horizontalConstraintElimination, sudokuConstraintsElimination,
    verticalConstraintElimination,
};
use sudoku_solver::grid::{checkSliceElement, sudoku, Matrix};
use sudoku_solver::pairs::{findBoxesNakedPairs, findHorizontalNakedPairs, findNakedPairs, findVerticalNakedPairs};
use sudoku_solver::search::{bruteForceSolving, firstUndetermined, forkBranches, searchSolution, solve};
use sudoku_solver::store::{sudokuIOManager, Run};
use sudoku_solver::triples::{
    findBoxesNakedTriples, findHorizontalNakedTriples, findNakedTriples, findVerticalNakedTriples,
};

const GENTLE: &str = "53__7____6__195____98____6_8___6___34__8_3__17___2___6_6____28____419__5____8__79";
const GENTLE_SOLUTION: &str = "534678912672195348198342567859761423426853791713924856961537284287419635345286179";
const EVIL: &str = "8__________36______7__9_2___5___7_______457_____1___3___1____68__85___1__9____4__";
const EVIL_SOLUTION: &str = "812753649943682175675491283154237896369845721287169534521974368438526917796318452";

fn grid(text: &str) -> Matrix {
    let chars: Vec<char> = text.chars().collect();
    sudoku::new(&chars).unwrap().sudokuMatrix
}

fn full_grid() -> Matrix {
    grid(&"_".repeat(81))
}

fn same_box(a: usize, b: usize, c: usize, d: usize) -> bool {
    a / 3 == c / 3 && b / 3 == d / 3
}

#[test]
fn one_round_removes_a_fixed_value_from_its_units() {
    let mut g = full_grid();
    g[4][4] = vec![5];
    let mut m = sudokuIOManager::new(sudoku::newContainer(g));
    assert!(horizontalConstraintElimination(&mut m));
    assert!(verticalConstraintElimination(&mut m));
    assert!(boxesConstraintElimination(&mut m));
    Run(&mut m);
    let after = m.GetSudoku();
    for i in 0..9 {
        for j in 0..9 {
            let peer = (i == 4 || j == 4 || same_box(i, j, 4, 4)) && (i, j) != (4, 4);
            if peer {
                assert_eq!(after[i][j].len(), 8);
                assert!(!after[i][j].contains(&5));
            } else if (i, j) != (4, 4) {
                assert_eq!(after[i][j].len(), 9);
            }
        }
    }
    assert_eq!(after[4][4], vec![5]);
}

#[test]
fn scanners_report_no_change_on_a_closed_grid() {
    let mut m = sudokuIOManager::new(sudoku::newContainer(grid(GENTLE_SOLUTION)));
    assert!(!horizontalConstraintElimination(&mut m));
    assert!(!verticalConstraintElimination(&mut m));
    assert!(!boxesConstraintElimination(&mut m));
}

#[test]
fn naked_pair_clears_the_rest_of_the_row() {
    let mut g = full_grid();
    g[2][1] = vec![3, 7];
    g[2][6] = vec![7, 3];
    let mut m = sudokuIOManager::new(sudoku::newContainer(g));
    assert!(findHorizontalNakedPairs(&mut m));
    Run(&mut m);
    let after = m.GetSudoku();
    for j in 0..9 {
        if j == 1 || j == 6 {
            assert_eq!(after[2][j].len(), 2);
        } else {
            assert_eq!(after[2][j], vec![1, 2, 4, 5, 6, 8, 9]);
        }
    }
    assert_eq!(after[3][1].len(), 9);
}

#[test]
fn naked_pair_in_a_column() {
    let mut g = full_grid();
    g[0][4] = vec![1, 2];
    g[7][4] = vec![1, 2];
    let mut m = sudokuIOManager::new(sudoku::newContainer(g));
    assert!(findVerticalNakedPairs(&mut m));
    Run(&mut m);
    let after = m.GetSudoku();
    assert_eq!(after[3][4], vec![3, 4, 5, 6, 7, 8, 9]);
    assert_eq!(after[0][4], vec![1, 2]);
    assert_eq!(after[7][4], vec![1, 2]);
}

#[test]
fn different_pairs_are_not_naked() {
    let mut g = full_grid();
    g[2][1] = vec![3, 7];
    g[2][6] = vec![3, 8];
    let mut m = sudokuIOManager::new(sudoku::newContainer(g));
    assert!(!findHorizontalNakedPairs(&mut m));
}

#[test]
fn naked_triple_clears_the_rest_of_the_row() {
    let mut g = full_grid();
    g[5][0] = vec![1, 2];
    g[5][4] = vec![2, 3];
    g[5][8] = vec![1, 3];
    let mut m = sudokuIOManager::new(sudoku::newContainer(g));
    assert!(findHorizontalNakedTriples(&mut m));
    Run(&mut m);
    let after = m.GetSudoku();
    assert_eq!(after[5][1], vec![4, 5, 6, 7, 8, 9]);
    assert_eq!(after[5][0], vec![1, 2]);
    assert_eq!(after[5][4], vec![2, 3]);
    assert_eq!(after[5][8], vec![1, 3]);
    assert_eq!(after[4][1].len(), 9);
}

#[test]
fn naked_triple_in_a_box() {
    let mut g = full_grid();
    g[6][6] = vec![4, 5, 6];
    g[7][7] = vec![4, 5];
    g[8][8] = vec![5, 6];
    let mut m = sudokuIOManager::new(sudoku::newContainer(g));
    assert!(findBoxesNakedTriples(&mut m));
    Run(&mut m);
    let after = m.GetSudoku();
    assert_eq!(after[6][7], vec![1, 2, 3, 7, 8, 9]);
    assert_eq!(after[6][6], vec![4, 5, 6]);
}

#[test]
fn four_values_are_no_triple() {
    let mut g = full_grid();
    g[5][0] = vec![1, 2];
    g[5][4] = vec![2, 3];
    g[5][8] = vec![1, 4];
    let mut m = sudokuIOManager::new(sudoku::newContainer(g));
    assert!(!findHorizontalNakedTriples(&mut m));
}

#[test]
fn check_slice_element_needs_an_undetermined_cell() {
    assert!(checkSliceElement(&vec![2, 4], 4));
    assert!(!checkSliceElement(&vec![4], 4));
    assert!(!checkSliceElement(&vec![2, 5], 4));
}

#[test]
fn gentle_puzzle_completes_without_search() {
    let mut m = sudokuIOManager::new(sudoku::newContainer(grid(GENTLE)));
    constraintsElimination(&mut m);
    findNakedPairs(&mut m);
    findNakedTriples(&mut m);
    assert!(checkSudokuIsComplete(&m));
    assert_eq!(m.GetSudoku(), grid(GENTLE_SOLUTION));
}

#[test]
fn constraint_elimination_on_a_copy() {
    let r = sudokuConstraintsElimination(grid(GENTLE));
    assert_eq!(r, grid(GENTLE_SOLUTION));
}

#[test]
fn evil_puzzle_needs_the_search() {
    let mut m = sudokuIOManager::new(sudoku::newContainer(grid(EVIL)));
    constraintsElimination(&mut m);
    findNakedPairs(&mut m);
    findNakedTriples(&mut m);
    assert!(!checkSudokuIsComplete(&m));
    let solved = bruteForceSolving(&m).unwrap();
    assert!(checkSudokuIsComplete(&solved));
    assert_eq!(solved.GetSudoku(), grid(EVIL_SOLUTION));
}

#[test]
fn solve_returns_the_unique_solution() {
    let r = solve(grid(EVIL)).unwrap();
    assert!(checkBaseSudokuCorrectness(r.clone()));
    assert_eq!(r, grid(EVIL_SOLUTION));
    assert_eq!(solve(grid(GENTLE)).unwrap(), grid(GENTLE_SOLUTION));
}

#[test]
fn solve_rejects_an_inconsistent_grid() {
    let mut g = full_grid();
    g[0][0] = vec![4];
    g[0][1] = vec![4];
    assert!(solve(g).is_none());
}

#[test]
fn raised_stop_flag_cancels_the_search() {
    let stop = AtomicBool::new(true);
    assert!(searchSolution(grid(EVIL), Some(&stop)).is_none());
    let go = AtomicBool::new(false);
    assert_eq!(searchSolution(grid(EVIL), Some(&go)).unwrap(), grid(EVIL_SOLUTION));
}

#[test]
fn search_returns_a_complete_grid_unchanged() {
    let g = grid(GENTLE_SOLUTION);
    assert_eq!(searchSolution(g.clone(), None).unwrap(), g);
}

#[test]
fn naked_pair_in_a_box() {
    let mut g = full_grid();
    g[3][3] = vec![5, 8];
    g[5][4] = vec![8, 5];
    let mut m = sudokuIOManager::new(sudoku::newContainer(g));
    assert!(findBoxesNakedPairs(&mut m));
    Run(&mut m);
    let after = m.GetSudoku();
    assert_eq!(after[4][4], vec![1, 2, 3, 4, 6, 7, 9]);
    assert_eq!(after[3][3], vec![5, 8]);
    assert_eq!(after[3][0].len(), 9);
}

#[test]
fn naked_triple_in_a_column() {
    let mut g = full_grid();
    g[0][7] = vec![6, 7, 8];
    g[4][7] = vec![6, 8];
    g[8][7] = vec![7, 8];
    let mut m = sudokuIOManager::new(sudoku::newContainer(g));
    assert!(findVerticalNakedTriples(&mut m));
    Run(&mut m);
    let after = m.GetSudoku();
    assert_eq!(after[2][7], vec![1, 2, 3, 4, 5, 9]);
    assert_eq!(after[4][7], vec![6, 8]);
}

#[test]
fn search_reports_an_exhausted_grid() {
    let mut g = full_grid();
    for j in 0..8 {
        g[0][j] = vec![j as i8 + 1];
    }
    g[0][8] = vec![5, 9];
    g[8][8] = vec![9];
    assert!(checkBaseSudokuCorrectness(g.clone()));
    assert!(searchSolution(g.clone(), None).is_none());
    assert!(solve(g).is_none());
}

#[test]
fn first_undetermined_cell_in_row_major_order() {
    assert_eq!(firstUndetermined(&grid(GENTLE)), Some((0, 2)));
    assert_eq!(firstUndetermined(&grid(GENTLE_SOLUTION)), None);
}

#[test]
fn fork_keeps_only_consistent_branches() {
    let mut g = full_grid();
    for j in 0..8 {
        g[0][j] = vec![j as i8 + 1];
    }
    g[0][8] = vec![5, 9];
    assert!(forkBranches(&g, 0, 8).len() == 1);
    let branches = forkBranches(&g, 0, 8);
    assert_eq!(branches[0][0][8], vec![9]);
    g[8][8] = vec![9];
    assert!(forkBranches(&g, 0, 8).is_empty());
}

#[test]
fn fork_branches_follow_candidate_order() {
    let g = sudokuConstraintsElimination(grid(EVIL));
    let (i, j) = firstUndetermined(&g).unwrap();
    let branches = forkBranches(&g, i, j);
    assert!(!branches.is_empty());
    let mut last = 0;
    for b in branches.iter() {
        assert_eq!(b[i][j].len(), 1);
        assert!(g[i][j].contains(&b[i][j][0]));
        let pos = g[i][j].iter().position(|v| *v == b[i][j][0]).unwrap();
        assert!(pos >= last);
        last = pos;
        assert!(checkBaseSudokuCorrectness(b.clone()));
    }
}
