use sudoku_solver::grid::{
    contains, copySudokuMatrix, deleteSliceElement, findSliceElement, isNumeric, sudoku, Matrix,
};
use sudoku_solver::check::{checkBaseSudokuCorrectness, checkSudokuIsComplete, checkSudokuCorrectness};
use sudoku_solver::combine::getCombinations;
use sudoku_solver::store::{sudokuIOManager, Run};

const GENTLE: &str = "53__7____6__195____98____6_8___6___34__8_3__17___2___6_6____28____419__5____8__79";
const GENTLE_SOLUTION: &str = "534678912672195348198342567859761423426853791713924856961537284287419635345286179";

fn grid(text: &str) -> Matrix {
    let chars: Vec<char> = text.chars().collect();
    sudoku::new(&chars).unwrap().sudokuMatrix
}

fn full_grid() -> Matrix {
    grid(&"_".repeat(81))
}

#[test]
fn contains_finds_present_values_only() {
    let v = vec![3, 7, 9];
    assert!(contains(&v, 7));
    assert!(!contains(&v, 4));
    assert!(!contains(&vec![], 1));
}

#[test]
fn find_slice_element_gives_first_position() {
    assert_eq!(findSliceElement(&vec![4, 2, 9], 9), 2);
    assert_eq!(findSliceElement(&vec![4, 2, 9], 4), 0);
}

#[test]
fn delete_slice_element_keeps_order_of_the_rest() {
    let mut v = vec![1, 5, 8, 3];
    deleteSliceElement(&mut v, 8);
    assert_eq!(v, vec![1, 5, 3]);
}

#[test]
fn delete_slice_element_of_absent_value_changes_nothing() {
    let mut v = vec![1, 5, 8, 3];
    deleteSliceElement(&mut v, 9);
    assert_eq!(v, vec![1, 5, 8, 3]);
}

#[test]
fn empty_cell_is_not_complete() {
    let mut g = grid(GENTLE_SOLUTION);
    g[4][4] = vec![];
    let m = sudokuIOManager::new(sudoku::newContainer(g));
    assert!(!checkSudokuIsComplete(&m));
}

#[test]
fn is_numeric_accepts_decimal_digits() {
    assert!(isNumeric('0'));
    assert!(isNumeric('9'));
    assert!(!isNumeric('_'));
    assert!(!isNumeric('a'));
}

#[test]
fn parse_reads_digits_and_placeholders() {
    let s = sudoku::new(&GENTLE.chars().collect()).unwrap();
    assert_eq!(s.sudokuMatrix[0][0], vec![5]);
    assert_eq!(s.sudokuMatrix[0][2], vec![1, 2, 3, 4, 5, 6, 7, 8, 9]);
    assert_eq!(s.sudokuMatrix[8][8], vec![9]);
}

#[test]
fn parse_ignores_other_characters() {
    let spaced: String = GENTLE.chars().flat_map(|c| vec![c, ' ', '|']).collect();
    let a = sudoku::new(&spaced.chars().collect()).unwrap();
    assert_eq!(a.sudokuMatrix, grid(GENTLE));
}

#[test]
fn parse_rejects_wrong_cell_count_and_zero() {
    assert!(sudoku::new(&GENTLE[..80].chars().collect()).is_none());
    let long = format!("{}1", GENTLE);
    assert!(sudoku::new(&long.chars().collect()).is_none());
    let zero = format!("0{}", &GENTLE[1..]);
    assert!(sudoku::new(&zero.chars().collect()).is_none());
}

#[test]
fn delete_cell_value_removes_a_present_value() {
    let mut s = sudoku::newContainer(full_grid());
    s.deleteCellValue(4, 5, 6);
    assert_eq!(s.getCellValue(4, 5), vec![1, 2, 3, 4, 5, 7, 8, 9]);
    assert_eq!(s.getCellValue(4, 6), vec![1, 2, 3, 4, 5, 6, 7, 8, 9]);
}

#[test]
fn delete_cell_value_of_absent_value_changes_nothing() {
    let mut s = sudoku::newContainer(full_grid());
    s.deleteCellValue(2, 2, 6);
    let before = s.getCellValue(2, 2);
    s.deleteCellValue(2, 2, 6);
    assert_eq!(s.getCellValue(2, 2), before);
    assert_eq!(before, vec![1, 2, 3, 4, 5, 7, 8, 9]);
}

#[test]
fn check_cell_value_needs_an_undetermined_cell() {
    let s = sudoku::newContainer(grid(GENTLE));
    assert!(!s.checkCellValue(0, 0, 5));
    assert!(s.checkCellValue(0, 2, 5));
}

#[test]
fn copy_matrix_is_equal() {
    let g = grid(GENTLE);
    assert_eq!(copySudokuMatrix(&g), g);
}

#[test]
fn store_applies_queued_deletions_once() {
    let mut m = sudokuIOManager::new(sudoku::newContainer(full_grid()));
    m.DeleteNumber(0, 0, 3);
    m.DeleteNumber(0, 0, 3);
    m.DeleteNumber(8, 8, 1);
    assert_eq!(m.GetSlice(0, 0).len(), 9);
    Run(&mut m);
    assert_eq!(m.GetSlice(0, 0), vec![1, 2, 4, 5, 6, 7, 8, 9]);
    assert_eq!(m.GetSlice(8, 8), vec![2, 3, 4, 5, 6, 7, 8, 9]);
    assert!(!m.CheckNumber(0, 0, 3));
    assert!(m.CheckNumber(0, 0, 4));
}

#[test]
fn store_never_empties_a_cell() {
    let mut m = sudokuIOManager::new(sudoku::newContainer(grid(GENTLE)));
    m.DeleteNumber(0, 0, 5);
    Run(&mut m);
    assert_eq!(m.GetSlice(0, 0), vec![5]);
}

#[test]
fn deletion_order_does_not_matter() {
    let mut a = sudokuIOManager::new(sudoku::newContainer(full_grid()));
    let mut b = sudokuIOManager::new(sudoku::newContainer(full_grid()));
    let reqs = [(1, 1, 4), (1, 1, 9), (3, 7, 2), (1, 1, 4), (6, 0, 1)];
    for &(i, j, v) in reqs.iter() {
        a.DeleteNumber(i, j, v);
    }
    for &(i, j, v) in reqs.iter().rev() {
        b.DeleteNumber(i, j, v);
    }
    Run(&mut a);
    Run(&mut b);
    assert_eq!(a.GetSudoku(), b.GetSudoku());
    assert_eq!(a.GetSlice(1, 1), vec![1, 2, 3, 5, 6, 7, 8]);
}

#[test]
fn get_sudoku_is_a_copy_of_the_applied_grid() {
    let mut m = sudokuIOManager::new(sudoku::newContainer(full_grid()));
    m.DeleteNumber(2, 3, 7);
    assert_eq!(m.GetSudoku(), full_grid());
    Run(&mut m);
    assert_eq!(m.GetSudoku()[2][3], vec![1, 2, 3, 4, 5, 6, 8, 9]);
}

#[test]
fn consistent_grid_passes_the_validator() {
    assert!(checkBaseSudokuCorrectness(grid(GENTLE)));
    assert!(checkBaseSudokuCorrectness(grid(GENTLE_SOLUTION)));
    assert!(checkBaseSudokuCorrectness(full_grid()));
}

#[test]
fn duplicate_in_a_row_fails_the_validator() {
    let mut g = full_grid();
    g[4][0] = vec![7];
    g[4][8] = vec![7];
    assert!(!checkBaseSudokuCorrectness(g));
}

#[test]
fn duplicate_in_a_column_fails_the_validator() {
    let mut g = full_grid();
    g[0][6] = vec![2];
    g[8][6] = vec![2];
    assert!(!checkBaseSudokuCorrectness(g));
}

#[test]
fn duplicate_in_a_box_fails_the_validator() {
    let mut g = full_grid();
    g[3][3] = vec![9];
    g[5][5] = vec![9];
    let m = sudokuIOManager::new(sudoku::newContainer(g));
    assert!(!checkSudokuCorrectness(&m));
}

#[test]
fn completeness_check() {
    let done = sudokuIOManager::new(sudoku::newContainer(grid(GENTLE_SOLUTION)));
    assert!(checkSudokuIsComplete(&done));
    let open = sudokuIOManager::new(sudoku::newContainer(grid(GENTLE)));
    assert!(!checkSudokuIsComplete(&open));
}

#[test]
fn combinations_of_two_in_order() {
    assert_eq!(getCombinations(vec![1, 4, 7], 2, 0), vec![vec![1, 4], vec![1, 7], vec![4, 7]]);
}

#[test]
fn combinations_of_three_of_four() {
    assert_eq!(
        getCombinations(vec![0, 2, 5, 8], 3, 0),
        vec![vec![0, 2, 5], vec![0, 2, 8], vec![0, 5, 8], vec![2, 5, 8]]
    );
}

#[test]
fn combinations_edge_cases() {
    assert_eq!(getCombinations(vec![3, 6], 0, 0), vec![Vec::<i8>::new()]);
    assert_eq!(getCombinations(vec![3], 2, 0), Vec::<Vec<i8>>::new());
    assert_eq!(getCombinations(vec![1, 2, 3], 2, 1), vec![vec![2, 3]]);
}
