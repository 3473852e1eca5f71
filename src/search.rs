//! The search engine: backtracking over the first undetermined cell, with
//! constraint elimination and the validator pruning each branch, and a
//! shared flag through which a branch can be told to stop.
use vstd::prelude::*;
use std::sync::atomic::{AtomicBool, Ordering};
use crate::check::{checkBaseSudokuCorrectness, checkSudokuCorrectness, checkSudokuIsComplete};
use crate::constraints::{closed, constraintsElimination, eliminated_from, sudokuConstraintsElimination};
use crate::grid::{
    cell, consistent, copySudokuMatrix, count, in_grid, is_solution, keeps_solutions, lemma_count_mono,
    lemma_count_nonneg, lemma_same_cells_units, lemma_solution_makes_consistent, Matrix, refines,
    same_cells, set_cell, sudoku, valid_cell, wf,
};
use crate::pairs::findNakedPairs;
use crate::store::sudokuIOManager;
use crate::triples::findNakedTriples;

verus! {

/// Whether the shared flag, if there is one, asks the search to stop.
fn stop_requested(stop: Option<&AtomicBool>) -> (r: bool)
    ensures
        stop is None ==> !r,
{
    match stop {
        None => false,
        Some(flag) => flag.load(Ordering::SeqCst),
    }
}

/// `f` is `g` with the cell at (`i`, `j`) fixed to `v`.
pub open spec fn fixes(g: Matrix, f: Matrix, i: int, j: int, v: i8) -> bool {
    &&& cell(f, i, j) == seq![v]
    &&& forall|r: int, c: int| in_grid(r, c) && (r != i || c != j) ==> #[trigger] cell(f, r, c) == cell(g, r, c)
}

/// `b` is the branch for candidate `v`: `g` with the cell at (`i`, `j`)
/// fixed to `v`, then constraint elimination run to its end, and consistent.
pub open spec fn branch_of(g: Matrix, i: int, j: int, v: i8, b: Matrix) -> bool {
    &&& wf(b)
    &&& closed(b)
    &&& consistent(b)
    &&& exists|f: Matrix| #[trigger] fixes(g, f, i, j, v) && eliminated_from(f, b) && keeps_solutions(f, b)
}

/// The branch for candidate `v` is dropped: after fixing and constraint
/// elimination the grid is inconsistent.
pub open spec fn branch_dropped(g: Matrix, i: int, j: int, v: i8) -> bool {
    exists|f: Matrix, e: Matrix| #[trigger] fixes(g, f, i, j, v) && #[trigger] eliminated_from(f, e) && closed(e) && !consistent(e)
}

/// The branches of the cell at (`i`, `j`), in the order of its candidates:
/// for each candidate, a copy of the grid with the cell fixed to it and
/// constraint elimination run to its end, kept only if it is consistent.
/// Every solution within the grid lies within one of the branches.
pub fn forkBranches(sudoku: &Matrix, i: usize, j: usize) -> (r: Vec<Matrix>)
    requires
        wf(*sudoku),
        i < 9,
        j < 9,
        cell(*sudoku, i as int, j as int).len() > 1,
    ensures
        forall|k: int| 0 <= k < r@.len() ==> wf(#[trigger] r@[k]) && consistent(r@[k]) && refines(r@[k], *sudoku)
            && count(r@[k]) < count(*sudoku),
        forall|s: Matrix| is_solution(s) && #[trigger] refines(s, *sudoku) ==> exists|k: int| 0 <= k < r@.len()
            && refines(s, #[trigger] r@[k]),
        exists|idx: Seq<int>| #[trigger] idx.len() == r@.len()
            && (forall|a: int, b: int| 0 <= a < b < idx.len() ==> idx[a] < idx[b])
            && (forall|k: int| 0 <= k < idx.len() ==> 0 <= #[trigger] idx[k] < cell(*sudoku, i as int, j as int).len()
                && branch_of(*sudoku, i as int, j as int, cell(*sudoku, i as int, j as int)[idx[k]], r@[k]))
            && (forall|z: int| 0 <= z < cell(*sudoku, i as int, j as int).len() && !idx.contains(z)
                ==> branch_dropped(*sudoku, i as int, j as int, #[trigger] cell(*sudoku, i as int, j as int)[z])),
{
    let mut branches: Vec<Matrix> = Vec::new();
    let ghost mut idx: Seq<int> = Seq::empty();
    let n = sudoku[i][j].len();
    let mut z: usize = 0;
    while z < n
        invariant
            i < 9,
            j < 9,
            n == cell(*sudoku, i as int, j as int).len(),
            n > 1,
            z <= n,
            wf(*sudoku),
            forall|k: int| 0 <= k < branches@.len() ==> wf(#[trigger] branches@[k]) && consistent(branches@[k])
                && refines(branches@[k], *sudoku) && count(branches@[k]) < count(*sudoku),
            forall|s: Matrix| is_solution(s) && #[trigger] refines(s, *sudoku) && (exists|w: int| 0 <= w < z
                && cell(s, i as int, j as int).contains(#[trigger] cell(*sudoku, i as int, j as int)[w]))
                ==> exists|k: int| 0 <= k < branches@.len() && refines(s, #[trigger] branches@[k]),
            idx.len() == branches@.len(),
            forall|a: int, b: int| 0 <= a < b < idx.len() ==> idx[a] < idx[b],
            forall|k: int| 0 <= k < idx.len() ==> 0 <= #[trigger] idx[k] < z
                && branch_of(*sudoku, i as int, j as int, cell(*sudoku, i as int, j as int)[idx[k]], branches@[k]),
            forall|z2: int| 0 <= z2 < z && !idx.contains(z2)
                ==> branch_dropped(*sudoku, i as int, j as int, #[trigger] cell(*sudoku, i as int, j as int)[z2]),
        decreases n - z,
    {
        let v = sudoku[i][j][z];
        let mut sudokuCopy = copySudokuMatrix(sudoku);
        set_cell(&mut sudokuCopy, i, j, vec![v]);
        let ghost fixed = sudokuCopy;
        proof {
            assert(valid_cell(cell(fixed, i as int, j as int)));
            assert forall|r: int, c: int| in_grid(r, c) implies valid_cell(#[trigger] cell(fixed, r, c)) by {
                if r != i || c != j {
                    assert(cell(fixed, r, c) == cell(*sudoku, r, c));
                }
            }
            assert forall|r: int, c: int| in_grid(r, c) implies #[trigger] cell(fixed, r, c).len() <= cell(*sudoku, r, c).len() by {
                if r != i || c != j {
                    assert(cell(fixed, r, c) == cell(*sudoku, r, c));
                }
            }
            assert(9 * i + j < 81);
            assert(cell(fixed, i as int, j as int).len() < cell(*sudoku, i as int, j as int).len());
            lemma_count_mono(fixed, *sudoku, 81);
            assert forall|r: int, c: int, x: i8| in_grid(r, c) && #[trigger] cell(fixed, r, c).contains(x)
                implies cell(*sudoku, r, c).contains(x) by {
                if r == i && c == j {
                    assert(cell(fixed, r, c)[0] == x);
                    assert(cell(*sudoku, r, c)[z as int] == v);
                } else {
                    assert(cell(fixed, r, c) == cell(*sudoku, r, c));
                }
            }
        }
        sudokuCopy = sudokuConstraintsElimination(sudokuCopy);
        let ghost child = sudokuCopy;
        let checkCopy = copySudokuMatrix(&sudokuCopy);
        proof {
            lemma_same_cells_units(checkCopy, sudokuCopy);
            assert forall|r: int, c: int, x: i8| in_grid(r, c) && #[trigger] cell(child, r, c).contains(x)
                implies cell(*sudoku, r, c).contains(x) by {
                assert(cell(fixed, r, c).contains(x));
            }
            assert forall|s: Matrix| is_solution(s) && #[trigger] refines(s, *sudoku) && cell(s, i as int, j as int).contains(v)
                implies refines(s, child) && consistent(child) by {
                assert forall|r: int, c: int, x: i8| in_grid(r, c) && #[trigger] cell(s, r, c).contains(x) implies cell(fixed, r, c).contains(x) by {
                    if r == i && c == j {
                        assert(cell(s, r, c).len() == 1);
                        assert(cell(s, r, c).contains(cell(s, r, c)[0]));
                        assert(x == v);
                        assert(cell(fixed, r, c)[0] == v);
                    } else {
                        assert(cell(fixed, r, c) == cell(*sudoku, r, c));
                    }
                }
                assert(refines(s, fixed));
                lemma_solution_makes_consistent(child, s);
            }
        }
        let ghost before = branches@;
        let ghost idx_before = idx;
        proof {
            assert(fixes(*sudoku, fixed, i as int, j as int, v)) by {
                assert(cell(fixed, i as int, j as int) =~= seq![v]);
            }
            assert(cell(*sudoku, i as int, j as int)[z as int] == v);
        }
        if checkBaseSudokuCorrectness(checkCopy) {
            branches.push(sudokuCopy);
            proof {
                idx = idx.push(z as int);
                assert(branch_of(*sudoku, i as int, j as int, v, child));
                assert forall|z2: int| 0 <= z2 < z + 1 && !idx.contains(z2)
                    implies branch_dropped(*sudoku, i as int, j as int, #[trigger] cell(*sudoku, i as int, j as int)[z2]) by {
                    assert(idx[idx.len() - 1] == z);
                    if z2 < z {
                        if idx_before.contains(z2) {
                            let w = choose|w: int| 0 <= w < idx_before.len() && idx_before[w] == z2;
                            assert(idx[w] == z2);
                        }
                    }
                }
                assert forall|k: int| 0 <= k < idx.len() implies 0 <= #[trigger] idx[k] < z + 1
                    && branch_of(*sudoku, i as int, j as int, cell(*sudoku, i as int, j as int)[idx[k]], branches@[k]) by {
                    if k < idx_before.len() {
                        assert(idx[k] == idx_before[k]);
                        assert(branches@[k] == before[k]);
                    }
                }
            }
        } else {
            proof {
                assert(branch_dropped(*sudoku, i as int, j as int, v));
                assert forall|z2: int| 0 <= z2 < z + 1 && !idx.contains(z2)
                    implies branch_dropped(*sudoku, i as int, j as int, #[trigger] cell(*sudoku, i as int, j as int)[z2]) by {}
            }
        }
        proof {
            assert forall|k: int| 0 <= k < before.len() implies branches@[k] == before[k] by {}
            assert forall|s: Matrix| is_solution(s) && #[trigger] refines(s, *sudoku) && (exists|w: int| 0 <= w < z + 1
                && cell(s, i as int, j as int).contains(#[trigger] cell(*sudoku, i as int, j as int)[w]))
                implies exists|k: int| 0 <= k < branches@.len() && refines(s, #[trigger] branches@[k]) by {
                let w = choose|w: int| 0 <= w < z + 1 && cell(s, i as int, j as int).contains(#[trigger] cell(*sudoku, i as int, j as int)[w]);
                if w < z {
                    let k = choose|k: int| 0 <= k < before.len() && refines(s, #[trigger] before[k]);
                    assert(refines(s, branches@[k]));
                } else {
                    assert(cell(*sudoku, i as int, j as int)[w] == v);
                    assert(branches@[before.len() as int] == child);
                }
            }
        }
        z += 1;
    }
    proof {
        assert forall|s: Matrix| is_solution(s) && #[trigger] refines(s, *sudoku) implies exists|k: int| 0 <= k < branches@.len()
            && refines(s, #[trigger] branches@[k]) by {
            assert(cell(s, i as int, j as int).len() == 1);
            let w0 = cell(s, i as int, j as int)[0];
            assert(cell(s, i as int, j as int).contains(w0));
            assert(cell(*sudoku, i as int, j as int).contains(w0));
            let w = choose|w: int| 0 <= w < n && cell(*sudoku, i as int, j as int)[w] == w0;
            assert(cell(s, i as int, j as int).contains(cell(*sudoku, i as int, j as int)[w]));
        }
        assert(idx.len() == branches@.len());
    }
    branches
}

/// The first cell, in row-major order, that is not fixed.
pub fn firstUndetermined(sudoku: &Matrix) -> (r: Option<(usize, usize)>)
    ensures
        r matches Some(p) ==> p.0 < 9 && p.1 < 9 && cell(*sudoku, p.0 as int, p.1 as int).len() != 1
            && forall|a: int, b: int| in_grid(a, b) && 9 * a + b < 9 * p.0 + p.1 ==> #[trigger] cell(*sudoku, a, b).len() == 1,
        r is None ==> forall|a: int, b: int| in_grid(a, b) ==> #[trigger] cell(*sudoku, a, b).len() == 1,
{
    let mut i: usize = 0;
    while i < 9
        invariant
            i <= 9,
            forall|a: int, b: int| in_grid(a, b) && a < i ==> #[trigger] cell(*sudoku, a, b).len() == 1,
        decreases 9 - i,
    {
        let mut j: usize = 0;
        while j < 9
            invariant
                i < 9,
                j <= 9,
                forall|a: int, b: int| in_grid(a, b) && (a < i || (a == i && b < j)) ==> #[trigger] cell(*sudoku, a, b).len() == 1,
            decreases 9 - j,
        {
            if sudoku[i][j].len() != 1 {
                return Some((i, j));
            }
            j += 1;
        }
        i += 1;
    }
    None
}

/// Searches for a completion of the grid: finds the first undetermined cell
/// in row-major order and tries each of its branches in turn. Returns the
/// first completion found; returns `None` when every branch fails or the
/// flag asks it to stop, which it reads at each cell of the scan and before
/// each branch.
pub fn searchSolution(sudoku: Matrix, stop: Option<&AtomicBool>) -> (r: Option<Matrix>)
    requires
        wf(sudoku),
        consistent(sudoku),
    ensures
        r matches Some(s) ==> is_solution(s) && refines(s, sudoku),
        stop is None && r is None ==> forall|s: Matrix| is_solution(s) ==> !#[trigger] refines(s, sudoku),
    decreases count(sudoku),
{
    let mut i: usize = 0;
    let mut j: usize = 0;
    while i < 9 && sudoku[i][j].len() == 1
        invariant
            i <= 9,
            j < 9,
            i == 9 ==> j == 0,
            forall|r: int, c: int| in_grid(r, c) && 9 * r + c < 9 * i + j ==> #[trigger] cell(sudoku, r, c).len() == 1,
        decreases 81 - (9 * i + j),
    {
        if stop_requested(stop) {
            return None;
        }
        j += 1;
        if j == 9 {
            i += 1;
            j = 0;
        }
    }
    if i == 9 {
        return Some(sudoku);
    }
    assert(valid_cell(cell(sudoku, i as int, j as int)));
    let mut branches = forkBranches(&sudoku, i, j);
    let ghost all = branches@;
    let total = branches.len();
    let mut k: usize = 0;
    while branches.len() > 0
        invariant
            total == all.len(),
            k <= all.len(),
            branches@ == all.subrange(k as int, all.len() as int),
            wf(sudoku),
            forall|t: int| 0 <= t < all.len() ==> wf(#[trigger] all[t]) && consistent(all[t]) && refines(all[t], sudoku)
                && count(all[t]) < count(sudoku),
            forall|s: Matrix| is_solution(s) && #[trigger] refines(s, sudoku) ==> exists|t: int| 0 <= t < all.len()
                && refines(s, #[trigger] all[t]),
            stop is None ==> forall|s: Matrix| is_solution(s) ==> forall|t: int| 0 <= t < k ==> !refines(s, #[trigger] all[t]),
        decreases all.len() - k,
    {
        if stop_requested(stop) {
            return None;
        }
        assert(k < all.len());
        let branch = branches.remove(0);
        assert(branch == all[k as int]);
        proof {
            lemma_count_nonneg(branch, 81);
        }
        let found = searchSolution(branch, stop);
        match found {
            Some(s) => {
                proof {
                    assert forall|r: int, c: int, x: i8| in_grid(r, c) && #[trigger] cell(s, r, c).contains(x)
                        implies cell(sudoku, r, c).contains(x) by {
                        assert(cell(branch, r, c).contains(x));
                    }
                }
                return Some(s);
            },
            None => {},
        }
        k += 1;
        assert(branches@ =~= all.subrange(k as int, all.len() as int));
    }
    proof {
        assert(k == all.len());
        if stop is None {
            assert forall|s: Matrix| is_solution(s) implies !#[trigger] refines(s, sudoku) by {
                if refines(s, sudoku) {
                    let t = choose|t: int| 0 <= t < all.len() && refines(s, #[trigger] all[t]);
                }
            }
        }
    }
    None
}

/// Searches for a completion of the applied grid of the store and, if one
/// is found, returns it in a fresh store.
pub fn bruteForceSolving(ioManager: &sudokuIOManager) -> (r: Option<sudokuIOManager>)
    requires
        wf(ioManager.sudokuVar.sudokuMatrix),
        consistent(ioManager.sudokuVar.sudokuMatrix),
    ensures
        r matches Some(s) ==> is_solution(s.sudokuVar.sudokuMatrix)
            && refines(s.sudokuVar.sudokuMatrix, ioManager.sudokuVar.sudokuMatrix) && s.pending().len() == 0,
        r is None ==> forall|s: Matrix| is_solution(s) ==> !#[trigger] refines(s, ioManager.sudokuVar.sudokuMatrix),
{
    let sudokuTable = ioManager.GetSudoku();
    proof {
        lemma_same_cells_units(sudokuTable, ioManager.sudokuVar.sudokuMatrix);
    }
    match searchSolution(sudokuTable, None) {
        Some(sudokuSolution) => {
            proof {
                assert forall|r: int, c: int, x: i8| in_grid(r, c) && #[trigger] cell(sudokuSolution, r, c).contains(x)
                    implies cell(ioManager.sudokuVar.sudokuMatrix, r, c).contains(x) by {
                    assert(cell(sudokuTable, r, c).contains(x));
                }
            }
            let sudokuContainer = sudoku::newContainer(sudokuSolution);
            Some(sudokuIOManager::new(sudokuContainer))
        },
        None => {
            proof {
                assert forall|s: Matrix| is_solution(s) implies !#[trigger] refines(s, ioManager.sudokuVar.sudokuMatrix) by {
                    if refines(s, ioManager.sudokuVar.sudokuMatrix) {
                        assert forall|r: int, c: int, x: i8| in_grid(r, c) && #[trigger] cell(s, r, c).contains(x)
                            implies cell(sudokuTable, r, c).contains(x) by {
                            assert(cell(ioManager.sudokuVar.sudokuMatrix, r, c).contains(x));
                        }
                        assert(refines(s, sudokuTable));
                    }
                }
            }
            None
        },
    }
}

/// `known` is the one solution whose candidates lie within the puzzle.
pub open spec fn unique_solution(puzzle: Matrix, known: Matrix) -> bool {
    &&& is_solution(known)
    &&& refines(known, puzzle)
    &&& forall|s: Matrix| is_solution(s) && #[trigger] refines(s, puzzle) ==> same_cells(s, known)
}

/// Solves a puzzle: constraint elimination, then naked pairs, then naked
/// triples, then the search if cells are still undetermined. Returns the
/// completed grid, or `None` when the grid turns out inconsistent or the
/// search finds no completion.
pub fn solve(sudoku: Matrix) -> (r: Option<Matrix>)
    requires
        wf(sudoku),
    ensures
        r matches Some(s) ==> is_solution(s) && refines(s, sudoku),
        r is None ==> forall|s: Matrix| is_solution(s) ==> !#[trigger] refines(s, sudoku),
        forall|known: Matrix| #[trigger] unique_solution(sudoku, known) ==> (r matches Some(x) && same_cells(x, known)),
{
    let mut ioManager = sudokuIOManager::new(sudoku::newContainer(sudoku));
    constraintsElimination(&mut ioManager);
    let ghost a = ioManager.sudokuVar.sudokuMatrix;
    findNakedPairs(&mut ioManager);
    let ghost b = ioManager.sudokuVar.sudokuMatrix;
    findNakedTriples(&mut ioManager);
    let ghost c = ioManager.sudokuVar.sudokuMatrix;
    proof {
        assert forall|i: int, j: int, x: i8| in_grid(i, j) && #[trigger] cell(c, i, j).contains(x)
            implies cell(sudoku, i, j).contains(x) by {
            assert(cell(b, i, j).contains(x));
            assert(cell(a, i, j).contains(x));
        }
    }
    proof {
        assert(keeps_solutions(sudoku, c)) by {
            assert forall|sol: Matrix| is_solution(sol) && #[trigger] refines(sol, sudoku) implies refines(sol, c) by {
                assert(refines(sol, a));
                assert(refines(sol, b));
            }
        }
    }
    if !checkSudokuCorrectness(&ioManager) {
        proof {
            assert forall|s: Matrix| is_solution(s) implies !#[trigger] refines(s, sudoku) by {
                if refines(s, sudoku) {
                    assert(refines(s, c));
                    lemma_solution_makes_consistent(c, s);
                }
            }
        }
        return None;
    }
    if checkSudokuIsComplete(&ioManager) {
        let r = ioManager.GetSudoku();
        proof {
            lemma_same_cells_units(r, c);
            assert forall|i: int, j: int| in_grid(i, j) implies #[trigger] cell(r, i, j).len() == 1 by {
                assert(cell(r, i, j) == cell(c, i, j));
                assert(valid_cell(cell(c, i, j)));
            }
            assert forall|i: int, j: int, x: i8| in_grid(i, j) && #[trigger] cell(r, i, j).contains(x)
                implies cell(sudoku, i, j).contains(x) by {
                assert(cell(r, i, j) == cell(c, i, j));
            }
            assert(refines(r, sudoku));
            assert(is_solution(r));
        }
        return Some(r);
    }
    match bruteForceSolving(&ioManager) {
        Some(solved) => {
            let r = solved.GetSudoku();
            proof {
                let g = solved.sudokuVar.sudokuMatrix;
                lemma_same_cells_units(r, g);
                assert forall|i: int, j: int| in_grid(i, j) implies #[trigger] cell(r, i, j).len() == 1 by {
                    assert(cell(r, i, j) == cell(g, i, j));
                }
                assert forall|i: int, j: int, x: i8| in_grid(i, j) && #[trigger] cell(r, i, j).contains(x)
                    implies cell(sudoku, i, j).contains(x) by {
                    assert(cell(r, i, j) == cell(g, i, j));
                    assert(cell(c, i, j).contains(x));
                }
                assert(refines(r, sudoku));
                assert(is_solution(r));
            }
            Some(r)
        },
        None => {
            proof {
                assert forall|s: Matrix| is_solution(s) implies !#[trigger] refines(s, sudoku) by {
                    if refines(s, sudoku) {
                        assert(refines(s, c));
                    }
                }
            }
            None
        },
    }
}

} // verus!
