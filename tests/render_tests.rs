use sudoku_solver::grid::sudoku;
use sudoku_solver::store::sudokuIOManager;

const GENTLE: &str = "53__7____6__195____98____6_8___6___34__8_3__17___2___6_6____28____419__5____8__79";

fn puzzle() -> sudoku {
    let mut s = sudoku::new(&GENTLE.chars().collect()).unwrap();
    s.sudokuMatrix[0][2] = vec![2, 4, 9];
    s
}

#[test]
fn row_shows_candidates_and_fixed_values() {
    let text: String = puzzle().printSudokuRow(0).into_iter().collect();
    let expected = "      |       |   2   || 1 2 3 |       | 1 2 3 || 1 2 3 | 1 2 3 | 1 2 3 \n  5   |   3   | 4     || 4 5 6 |   7   | 4 5 6 || 4 5 6 | 4 5 6 | 4 5 6 \n      |       |     9 || 7 8 9 |       | 7 8 9 || 7 8 9 | 7 8 9 | 7 8 9 \n";
    assert_eq!(text, expected);
}

#[test]
fn board_has_rules_between_rows_and_bands() {
    let text: String = puzzle().printSudoku().into_iter().collect();
    assert_eq!(text.len(), 2774);
    assert_eq!(text.lines().count(), 38);
    let rule = "-".repeat(72);
    assert_eq!(text.lines().nth(3).unwrap(), rule);
    assert_eq!(text.lines().nth(7).unwrap(), rule);
    assert_eq!(text.lines().nth(11).unwrap(), rule);
    assert_eq!(text.lines().nth(12).unwrap(), rule);
    assert_ne!(text.lines().nth(10).unwrap(), rule);
    assert!(text.starts_with("      |       |   2   || 1 2 3 |"));
}

#[test]
fn store_prints_its_applied_grid() {
    let m = sudokuIOManager::new(puzzle());
    assert_eq!(m.PrintSudoku(), puzzle().printSudoku());
}
