//! The validator: consistency of fixed cells and completeness of a grid.
use vstd::prelude::*;
use crate::grid::{
    cell, consistent, in_grid, kind_consistent, Matrix, sudoku, ucell, unit_cell, unit_consistent,
    UnitKind,
};
use crate::store::sudokuIOManager;

verus! {

/// Whether every cell of the applied grid is fixed.
pub fn checkSudokuIsComplete(ioManager: &sudokuIOManager) -> (r: bool)
    ensures
        r == forall|i: int, j: int| in_grid(i, j) ==> #[trigger] cell(ioManager.sudokuVar.sudokuMatrix, i, j).len() == 1,
{
    matrix_is_complete(&ioManager.sudokuVar.sudokuMatrix)
}

/// Whether every cell is fixed.
pub fn matrix_is_complete(m: &Matrix) -> (r: bool)
    ensures
        r == forall|i: int, j: int| in_grid(i, j) ==> #[trigger] cell(*m, i, j).len() == 1,
{
    let mut i: usize = 0;
    while i < 9
        invariant
            i <= 9,
            forall|r: int, c: int| 0 <= r < i && 0 <= c < 9 ==> #[trigger] cell(*m, r, c).len() == 1,
        decreases 9 - i,
    {
        let mut j: usize = 0;
        while j < 9
            invariant
                i < 9,
                j <= 9,
                forall|r: int, c: int| 0 <= r < i && 0 <= c < 9 ==> #[trigger] cell(*m, r, c).len() == 1,
                forall|c: int| 0 <= c < j ==> #[trigger] cell(*m, i as int, c).len() == 1,
            decreases 9 - j,
        {
            if m[i][j].len() != 1 {
                assert(in_grid(i as int, j as int) && cell(*m, i as int, j as int).len() != 1);
                return false;
            }
            j += 1;
        }
        i += 1;
    }
    true
}

/// Whether the fixed cells of the grid are consistent.
pub fn checkBaseSudokuCorrectness(sudoku: Matrix) -> (r: bool)
    ensures
        r == consistent(sudoku),
{
    let sudokuContainer = sudoku::newContainer(sudoku);
    let ioManager = sudokuIOManager::new(sudokuContainer);
    checkSudokuCorrectness(&ioManager)
}

/// Whether no row, column or box of the applied grid holds two fixed cells
/// with the same value.
pub fn checkSudokuCorrectness(ioManager: &sudokuIOManager) -> (r: bool)
    ensures
        r == consistent(ioManager.sudokuVar.sudokuMatrix),
{
    checkHorizontalCorrectness(ioManager) && checkVerticalCorrectness(ioManager) && checkBoxesCorrectness(
        ioManager,
    )
}

/// Whether no row repeats a fixed value.
pub fn checkHorizontalCorrectness(ioManager: &sudokuIOManager) -> (r: bool)
    ensures
        r == kind_consistent(ioManager.sudokuVar.sudokuMatrix, UnitKind::Row),
{
    check_kind_correctness(&ioManager.sudokuVar.sudokuMatrix, UnitKind::Row)
}

/// Whether no column repeats a fixed value.
pub fn checkVerticalCorrectness(ioManager: &sudokuIOManager) -> (r: bool)
    ensures
        r == kind_consistent(ioManager.sudokuVar.sudokuMatrix, UnitKind::Column),
{
    check_kind_correctness(&ioManager.sudokuVar.sudokuMatrix, UnitKind::Column)
}

/// Whether no box repeats a fixed value.
pub fn checkBoxesCorrectness(ioManager: &sudokuIOManager) -> (r: bool)
    ensures
        r == kind_consistent(ioManager.sudokuVar.sudokuMatrix, UnitKind::Box),
{
    check_kind_correctness(&ioManager.sudokuVar.sudokuMatrix, UnitKind::Box)
}

/// Whether no unit of the kind repeats a fixed value.
fn check_kind_correctness(m: &Matrix, kind: UnitKind) -> (r: bool)
    ensures
        r == kind_consistent(*m, kind),
{
    let mut u: usize = 0;
    while u < 9
        invariant
            u <= 9,
            forall|v: int| 0 <= v < u ==> #[trigger] unit_consistent(*m, kind, v),
        decreases 9 - u,
    {
        if !check_unit_correctness(m, kind, u) {
            return false;
        }
        u += 1;
    }
    true
}

/// Whether unit `u` repeats no fixed value: the fixed values seen so far are
/// kept, and a value seen twice ends the scan.
fn check_unit_correctness(m: &Matrix, kind: UnitKind, u: usize) -> (r: bool)
    requires
        u < 9,
    ensures
        r == unit_consistent(*m, kind, u as int),
{
    let mut valuesList: Vec<i8> = Vec::new();
    let mut k: usize = 0;
    while k < 9
        invariant
            u < 9,
            k <= 9,
            forall|x: i8| valuesList@.contains(x) <==> exists|t: int| 0 <= t < k && #[trigger] ucell(*m, kind, u as int, t).len() == 1
                && ucell(*m, kind, u as int, t)[0] == x,
            forall|k1: int, k2: int|
                0 <= k1 < k && 0 <= k2 < k && k1 != k2 && #[trigger] ucell(*m, kind, u as int, k1).len() == 1
                    && #[trigger] ucell(*m, kind, u as int, k2).len() == 1 ==> ucell(*m, kind, u as int, k1)[0]
                    != ucell(*m, kind, u as int, k2)[0],
        decreases 9 - k,
    {
        let (i, j) = unit_cell(kind, u, k);
        if m[i][j].len() == 1 {
            let v = m[i][j][0];
            if crate::grid::contains(&valuesList, v) {
                proof {
                    let t = choose|t: int| 0 <= t < k && #[trigger] ucell(*m, kind, u as int, t).len() == 1
                        && ucell(*m, kind, u as int, t)[0] == v;
                    assert(ucell(*m, kind, u as int, k as int).len() == 1);
                    assert(!unit_consistent(*m, kind, u as int));
                }
                return false;
            }
            let ghost prev = valuesList@;
            valuesList.push(v);
            assert forall|x: i8| valuesList@.contains(x) <==> exists|t: int| 0 <= t < k + 1
                && #[trigger] ucell(*m, kind, u as int, t).len() == 1 && ucell(*m, kind, u as int, t)[0] == x by {
                assert(valuesList@ == prev.push(v));
                if valuesList@.contains(x) && x != v {
                    let q = choose|q: int| 0 <= q < valuesList@.len() && valuesList@[q] == x;
                    assert(q < prev.len());
                    assert(prev[q] == x);
                    assert(prev.contains(x));
                }
                if x == v {
                    assert(valuesList@[valuesList@.len() - 1] == v);
                    assert(ucell(*m, kind, u as int, k as int).len() == 1);
                }
                if exists|t: int| 0 <= t < k + 1 && #[trigger] ucell(*m, kind, u as int, t).len() == 1
                    && ucell(*m, kind, u as int, t)[0] == x {
                    let t = choose|t: int| 0 <= t < k + 1 && #[trigger] ucell(*m, kind, u as int, t).len() == 1
                        && ucell(*m, kind, u as int, t)[0] == x;
                    if t < k {
                        assert(prev.contains(x));
                        let q = choose|q: int| 0 <= q < prev.len() && prev[q] == x;
                        assert(valuesList@[q] == x);
                    } else {
                        assert(valuesList@[valuesList@.len() - 1] == x);
                    }
                }
            }
        } else {
            assert forall|x: i8| valuesList@.contains(x) <==> exists|t: int| 0 <= t < k + 1
                && #[trigger] ucell(*m, kind, u as int, t).len() == 1 && ucell(*m, kind, u as int, t)[0] == x by {
                if exists|t: int| 0 <= t < k + 1 && #[trigger] ucell(*m, kind, u as int, t).len() == 1
                    && ucell(*m, kind, u as int, t)[0] == x {
                    let t = choose|t: int| 0 <= t < k + 1 && #[trigger] ucell(*m, kind, u as int, t).len() == 1
                        && ucell(*m, kind, u as int, t)[0] == x;
                    assert(t < k);
                }
            }
        }
        k += 1;
    }
    true
}

} // verus!
