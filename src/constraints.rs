//! Constraint elimination: a fixed value is taken out of every other cell of
//! its row, column and box, round after round, until a round changes nothing.
use vstd::prelude::*;
use crate::grid::{
    cell, checkSliceElement, consistent, count, in_grid, is_solution, keeps_solutions, kind_consistent,
    lemma_count_nonneg, lemma_same_cells_count, lemma_solution_agrees, lemma_solution_makes_consistent,
    lemma_solution_unit_distinct, lemma_unit_cells, Matrix, model, refines, same_cells, sudoku, ucell,
    unit_cell, unit_col, unit_consistent, unit_row, UnitKind, valid_cell, wf,
};
use crate::store::{
    apply_request, apply_requests, effective, lemma_apply_concat, lemma_push_contains, lemma_single_stays,
    lemma_spared_solution_kept, request_in_grid, Run, sudokuDeleteNumber, sudokuIOManager,
};

verus! {

/// The `k1`-th cell of unit `u` is fixed, and the `k2`-th, another cell of the
/// unit, is undetermined and still admits that value.
pub open spec fn eliminates(m: Matrix, kind: UnitKind, u: int, k1: int, k2: int) -> bool {
    &&& 0 <= u < 9
    &&& 0 <= k1 < 9
    &&& 0 <= k2 < 9
    &&& k1 != k2
    &&& ucell(m, kind, u, k1).len() == 1
    &&& ucell(m, kind, u, k2).len() > 1
    &&& ucell(m, kind, u, k2).contains(ucell(m, kind, u, k1)[0])
}

/// The request that takes the value of the `k1`-th cell of unit `u` out of its `k2`-th cell.
pub open spec fn elimination_request(m: Matrix, kind: UnitKind, u: int, k1: int, k2: int) -> sudokuDeleteNumber {
    sudokuDeleteNumber {
        row: unit_row(kind, u, k2) as i8,
        column: unit_col(kind, u, k2) as i8,
        value: ucell(m, kind, u, k1)[0],
    }
}

/// Some fixed cell of a unit of the kind justifies the request.
pub open spec fn justified_elimination(m: Matrix, kind: UnitKind, d: sudokuDeleteNumber) -> bool {
    exists|u: int, k1: int, k2: int|
        #[trigger] eliminates(m, kind, u, k1, k2) && d == elimination_request(m, kind, u, k1, k2)
}

/// No unit of the kind holds a fixed value that another of its cells still admits.
pub open spec fn closed_under(m: Matrix, kind: UnitKind) -> bool {
    forall|u: int, k1: int, k2: int| !#[trigger] eliminates(m, kind, u, k1, k2)
}

/// No row, column or box holds a fixed value that another of its cells still admits.
pub open spec fn closed(m: Matrix) -> bool {
    &&& closed_under(m, UnitKind::Row)
    &&& closed_under(m, UnitKind::Column)
    &&& closed_under(m, UnitKind::Box)
}

/// The requests that the fixed `k1`-th cell of unit `u` makes against the
/// first `k2` cells of the unit, in order.
pub open spec fn scan_targets(m: Matrix, kind: UnitKind, u: int, k1: int, k2: int) -> Seq<sudokuDeleteNumber>
    decreases k2,
{
    if k2 <= 0 {
        seq![]
    } else {
        scan_targets(m, kind, u, k1, k2 - 1) + if eliminates(m, kind, u, k1, k2 - 1) {
            seq![elimination_request(m, kind, u, k1, k2 - 1)]
        } else {
            seq![]
        }
    }
}

/// The requests that the first `k1` cells of unit `u` make, in order.
pub open spec fn scan_cells(m: Matrix, kind: UnitKind, u: int, k1: int) -> Seq<sudokuDeleteNumber>
    decreases k1,
{
    if k1 <= 0 {
        seq![]
    } else {
        scan_cells(m, kind, u, k1 - 1) + scan_targets(m, kind, u, k1 - 1, 9)
    }
}

/// The requests that the first `u` units of the kind make, in order.
pub open spec fn scan_units(m: Matrix, kind: UnitKind, u: int) -> Seq<sudokuDeleteNumber>
    decreases u,
{
    if u <= 0 {
        seq![]
    } else {
        scan_units(m, kind, u - 1) + scan_cells(m, kind, u - 1, 9)
    }
}

/// What a scanner of the kind queues: units in order, the cells of each
/// unit in order, and for each fixed cell one request for each other cell
/// of the unit that it eliminates from, in order.
pub open spec fn scan_requests(m: Matrix, kind: UnitKind) -> Seq<sudokuDeleteNumber> {
    scan_units(m, kind, 9)
}

proof fn lemma_scan_targets_none(m: Matrix, kind: UnitKind, u: int, k1: int, k2: int)
    requires
        forall|k: int| 0 <= k < k2 ==> !#[trigger] eliminates(m, kind, u, k1, k),
    ensures
        scan_targets(m, kind, u, k1, k2) == Seq::<sudokuDeleteNumber>::empty(),
    decreases k2,
{
    if k2 > 0 {
        lemma_scan_targets_none(m, kind, u, k1, k2 - 1);
        assert(scan_targets(m, kind, u, k1, k2) =~= Seq::<sudokuDeleteNumber>::empty());
    }
}

/// What one scanner of the kind adds to the queue: exactly the justified
/// requests, each inside the grid and removing a candidate.
pub open spec fn scanned(m: Matrix, kind: UnitKind, added: Seq<sudokuDeleteNumber>) -> bool {
    &&& forall|k: int| 0 <= k < added.len() ==> justified_elimination(m, kind, #[trigger] added[k])
    &&& forall|u: int, k1: int, k2: int| #[trigger] eliminates(m, kind, u, k1, k2)
        ==> added.contains(elimination_request(m, kind, u, k1, k2))
}

/// A justified request lies in the grid and removes a candidate.
proof fn lemma_justified_effective(m: Matrix, kind: UnitKind, d: sudokuDeleteNumber)
    requires
        justified_elimination(m, kind, d),
    ensures
        request_in_grid(d),
        effective(m, d),
{
    let (u, k1, k2) = choose|u: int, k1: int, k2: int|
        #[trigger] eliminates(m, kind, u, k1, k2) && d == elimination_request(m, kind, u, k1, k2);
    lemma_unit_cells(kind, u, k2, k1);
}

/// Queues, for every fixed cell of every unit of the kind, the removal of its
/// value from each other cell of the unit that is undetermined and admits it.
/// Returns whether anything was queued.
fn eliminate_in_units(ioManager: &mut sudokuIOManager, kind: UnitKind) -> (updates: bool)
    requires
        old(ioManager).valid(),
    ensures
        final(ioManager).valid(),
        final(ioManager).sudokuVar == old(ioManager).sudokuVar,
        final(ioManager).pending().len() >= old(ioManager).pending().len(),
        final(ioManager).pending().subrange(0, old(ioManager).pending().len() as int) == old(ioManager).pending(),
        scanned(
            old(ioManager).sudokuVar.sudokuMatrix,
            kind,
            final(ioManager).pending().skip(old(ioManager).pending().len() as int),
        ),
        updates == (final(ioManager).pending().len() > old(ioManager).pending().len()),
        final(ioManager).pending() == old(ioManager).pending() + scan_requests(old(ioManager).sudokuVar.sudokuMatrix, kind),
{
    let ghost m = ioManager.sudokuVar.sudokuMatrix;
    let ghost queued = ioManager.pending();
    let ghost mut added: Seq<sudokuDeleteNumber> = Seq::empty();
    let snapshot = ioManager.GetSudoku();
    let mut updates = false;
    let mut u: usize = 0;
    while u < 9
        invariant
            u <= 9,
            ioManager.valid(),
            ioManager.sudokuVar.sudokuMatrix == m,
            same_cells(snapshot, m),
            ioManager.pending() == queued + added,
            forall|k: int| 0 <= k < added.len() ==> justified_elimination(m, kind, #[trigger] added[k]),
            forall|u2: int, k1: int, k2: int| u2 < u && #[trigger] eliminates(m, kind, u2, k1, k2)
                ==> added.contains(elimination_request(m, kind, u2, k1, k2)),
            updates == (added.len() > 0),
            added == scan_units(m, kind, u as int),
        decreases 9 - u,
    {
        let mut k1: usize = 0;
        while k1 < 9
            invariant
                u < 9,
                k1 <= 9,
                ioManager.valid(),
                ioManager.sudokuVar.sudokuMatrix == m,
                same_cells(snapshot, m),
                ioManager.pending() == queued + added,
                forall|k: int| 0 <= k < added.len() ==> justified_elimination(m, kind, #[trigger] added[k]),
                forall|u2: int, k1b: int, k2: int| (u2 < u || (u2 == u && k1b < k1)) && #[trigger] eliminates(m, kind, u2, k1b, k2)
                    ==> added.contains(elimination_request(m, kind, u2, k1b, k2)),
                updates == (added.len() > 0),
                added == scan_units(m, kind, u as int) + scan_cells(m, kind, u as int, k1 as int),
            decreases 9 - k1,
        {
            let (i, j) = unit_cell(kind, u, k1);
            proof {
                lemma_unit_cells(kind, u as int, k1 as int, k1 as int);
                assert(cell(snapshot, i as int, j as int) == cell(m, i as int, j as int));
            }
            if snapshot[i][j].len() == 1 {
                let v = snapshot[i][j][0];
                let mut k2: usize = 0;
                while k2 < 9
                    invariant
                        u < 9,
                        k1 < 9,
                        k2 <= 9,
                        i == unit_row(kind, u as int, k1 as int),
                        j == unit_col(kind, u as int, k1 as int),
                        ucell(m, kind, u as int, k1 as int).len() == 1,
                        v == ucell(m, kind, u as int, k1 as int)[0],
                        ioManager.valid(),
                        ioManager.sudokuVar.sudokuMatrix == m,
                        same_cells(snapshot, m),
                        ioManager.pending() == queued + added,
                        forall|k: int| 0 <= k < added.len() ==> justified_elimination(m, kind, #[trigger] added[k]),
                        forall|u2: int, k1b: int, k2b: int|
                            (u2 < u || (u2 == u && k1b < k1) || (u2 == u && k1b == k1 && k2b < k2))
                                && #[trigger] eliminates(m, kind, u2, k1b, k2b)
                                ==> added.contains(elimination_request(m, kind, u2, k1b, k2b)),
                        updates == (added.len() > 0),
                        added == scan_units(m, kind, u as int) + scan_cells(m, kind, u as int, k1 as int)
                            + scan_targets(m, kind, u as int, k1 as int, k2 as int),
                    decreases 9 - k2,
                {
                    let (a, b) = unit_cell(kind, u, k2);
                    proof {
                        lemma_unit_cells(kind, u as int, k2 as int, k1 as int);
                        assert(cell(snapshot, a as int, b as int) == cell(m, a as int, b as int));
                    }
                    if k2 != k1 && checkSliceElement(&snapshot[a][b], v) {
                        let ghost d = elimination_request(m, kind, u as int, k1 as int, k2 as int);
                        assert(eliminates(m, kind, u as int, k1 as int, k2 as int));
                        ioManager.DeleteNumber(a as i8, b as i8, v);
                        proof {
                            lemma_push_contains(added, d);
                            assert(added.push(d) =~= scan_units(m, kind, u as int) + scan_cells(m, kind, u as int, k1 as int)
                                + scan_targets(m, kind, u as int, k1 as int, k2 + 1));
                            added = added.push(d);
                            assert(ioManager.pending() =~= queued + added);
                        }
                        updates = true;
                    } else {
                        assert(!eliminates(m, kind, u as int, k1 as int, k2 as int));
                        assert(added =~= scan_units(m, kind, u as int) + scan_cells(m, kind, u as int, k1 as int)
                            + scan_targets(m, kind, u as int, k1 as int, k2 + 1));
                    }
                    k2 += 1;
                }
                assert(added =~= scan_units(m, kind, u as int) + scan_cells(m, kind, u as int, k1 + 1));
            } else {
                assert forall|k2: int| !eliminates(m, kind, u as int, k1 as int, k2) by {}
                proof {
                    lemma_scan_targets_none(m, kind, u as int, k1 as int, 9);
                }
                assert(added =~= scan_units(m, kind, u as int) + scan_cells(m, kind, u as int, k1 + 1));
            }
            k1 += 1;
        }
        assert(added =~= scan_units(m, kind, u + 1));
        u += 1;
    }
    assert(ioManager.pending().skip(queued.len() as int) =~= added);
    assert(ioManager.pending().subrange(0, queued.len() as int) =~= queued);
    assert(added == scan_requests(m, kind));
    proof {
        assert forall|k: int| 0 <= k < ioManager.pending().len() implies request_in_grid(#[trigger] ioManager.pending()[k]) by {
            if k >= queued.len() {
                lemma_justified_effective(m, kind, added[k - queued.len()]);
            }
        }
    }
    updates
}

/// The row scanner: queues the removal of each fixed value from the other
/// undetermined cells of its row that admit it, and returns whether it
/// queued anything.
pub fn horizontalConstraintElimination(ioManager: &mut sudokuIOManager) -> (updates: bool)
    requires
        old(ioManager).valid(),
    ensures
        final(ioManager).valid(),
        final(ioManager).sudokuVar == old(ioManager).sudokuVar,
        final(ioManager).pending().len() >= old(ioManager).pending().len(),
        final(ioManager).pending().subrange(0, old(ioManager).pending().len() as int) == old(ioManager).pending(),
        scanned(
            old(ioManager).sudokuVar.sudokuMatrix,
            UnitKind::Row,
            final(ioManager).pending().skip(old(ioManager).pending().len() as int),
        ),
        updates == (final(ioManager).pending().len() > old(ioManager).pending().len()),
        final(ioManager).pending() == old(ioManager).pending() + scan_requests(old(ioManager).sudokuVar.sudokuMatrix, UnitKind::Row),
{
    eliminate_in_units(ioManager, UnitKind::Row)
}

/// The column scanner: queues the removal of each fixed value from the other
/// undetermined cells of its column that admit it, and returns whether it
/// queued anything.
pub fn verticalConstraintElimination(ioManager: &mut sudokuIOManager) -> (updates: bool)
    requires
        old(ioManager).valid(),
    ensures
        final(ioManager).valid(),
        final(ioManager).sudokuVar == old(ioManager).sudokuVar,
        final(ioManager).pending().len() >= old(ioManager).pending().len(),
        final(ioManager).pending().subrange(0, old(ioManager).pending().len() as int) == old(ioManager).pending(),
        scanned(
            old(ioManager).sudokuVar.sudokuMatrix,
            UnitKind::Column,
            final(ioManager).pending().skip(old(ioManager).pending().len() as int),
        ),
        updates == (final(ioManager).pending().len() > old(ioManager).pending().len()),
        final(ioManager).pending() == old(ioManager).pending() + scan_requests(old(ioManager).sudokuVar.sudokuMatrix, UnitKind::Column),
{
    eliminate_in_units(ioManager, UnitKind::Column)
}

/// The box scanner: queues the removal of each fixed value from the other
/// undetermined cells of its box that admit it, and returns whether it
/// queued anything.
pub fn boxesConstraintElimination(ioManager: &mut sudokuIOManager) -> (updates: bool)
    requires
        old(ioManager).valid(),
    ensures
        final(ioManager).valid(),
        final(ioManager).sudokuVar == old(ioManager).sudokuVar,
        final(ioManager).pending().len() >= old(ioManager).pending().len(),
        final(ioManager).pending().subrange(0, old(ioManager).pending().len() as int) == old(ioManager).pending(),
        scanned(
            old(ioManager).sudokuVar.sudokuMatrix,
            UnitKind::Box,
            final(ioManager).pending().skip(old(ioManager).pending().len() as int),
        ),
        updates == (final(ioManager).pending().len() > old(ioManager).pending().len()),
        final(ioManager).pending() == old(ioManager).pending() + scan_requests(old(ioManager).sudokuVar.sudokuMatrix, UnitKind::Box),
{
    eliminate_in_units(ioManager, UnitKind::Box)
}

/// No solution within the grid holds a value that a justified request takes out.
pub proof fn lemma_justified_spared(m: Matrix, s: Matrix, kind: UnitKind, d: sudokuDeleteNumber)
    requires
        is_solution(s),
        refines(s, m),
        justified_elimination(m, kind, d),
    ensures
        !cell(s, d.row as int, d.column as int).contains(d.value),
{
    let (u, k1, k2) = choose|u: int, k1: int, k2: int|
        #[trigger] eliminates(m, kind, u, k1, k2) && d == elimination_request(m, kind, u, k1, k2);
    lemma_unit_cells(kind, u, k1, k2);
    lemma_unit_cells(kind, u, k2, k1);
    lemma_solution_agrees(m, s, unit_row(kind, u, k1), unit_col(kind, u, k1));
    lemma_solution_unit_distinct(s, kind, u, k2, k1);
}

/// In the candidate sets `g`, some cell sharing a unit with the request's
/// cell holds the request's value alone.
pub open spec fn peer_fixed(g: Map<(int, int), Set<i8>>, d: sudokuDeleteNumber) -> bool {
    exists|kind: UnitKind, u: int, k1: int, k2: int|
        #![trigger g[(unit_row(kind, u, k1), unit_col(kind, u, k1))], unit_row(kind, u, k2)]
        0 <= u < 9 && 0 <= k1 < 9 && 0 <= k2 < 9 && k1 != k2 && d.row == unit_row(kind, u, k2) && d.column == unit_col(kind, u, k2)
            && g.contains_key((unit_row(kind, u, k1), unit_col(kind, u, k1)))
            && g[(unit_row(kind, u, k1), unit_col(kind, u, k1))] == set![d.value]
}

/// Applied one after the other from `g`, each request of the trace is
/// justified by a fixed peer in the candidates it meets.
pub open spec fn justified_trace(g: Map<(int, int), Set<i8>>, trace: Seq<sudokuDeleteNumber>) -> bool {
    forall|t: int| 0 <= t < trace.len() ==> peer_fixed(apply_requests(g, trace.take(t)), #[trigger] trace[t])
}

/// `result` is what removing fixed values from their peers, one justified
/// removal at a time, can make of `start`.
pub open spec fn eliminated_from(start: Matrix, result: Matrix) -> bool {
    exists|trace: Seq<sudokuDeleteNumber>| justified_trace(model(start), trace)
        && #[trigger] apply_requests(model(start), trace) == model(result)
}

/// A justified request stays justified however the candidates shrink from
/// there on.
proof fn lemma_justified_peer_fixed(m: Matrix, kind: UnitKind, d: sudokuDeleteNumber, s: Seq<sudokuDeleteNumber>)
    requires
        justified_elimination(m, kind, d),
    ensures
        peer_fixed(apply_requests(model(m), s), d),
{
    let (u, k1, k2) = choose|u: int, k1: int, k2: int|
        #[trigger] eliminates(m, kind, u, k1, k2) && d == elimination_request(m, kind, u, k1, k2);
    lemma_unit_cells(kind, u, k1, k2);
    lemma_unit_cells(kind, u, k2, k1);
    let key = (unit_row(kind, u, k1), unit_col(kind, u, k1));
    let c = ucell(m, kind, u, k1);
    assert(c.to_set() =~= set![c[0]]) by {
        assert forall|x: i8| c.to_set().contains(x) <==> x == c[0] by {
            if c.contains(x) {
                let i = choose|i: int| 0 <= i < c.len() && c[i] == x;
            }
            assert(c[0] == c[0]);
            assert(c.contains(c[0]));
        }
    }
    assert(model(m)[key] == c.to_set());
    lemma_single_stays(model(m), s, key, d.value);
    let h = apply_requests(model(m), s);
    assert(h[(unit_row(kind, u, k1), unit_col(kind, u, k1))] == set![d.value]);
}

/// Closedness depends only on the cells.
pub proof fn lemma_closed_same_cells(a: Matrix, b: Matrix)
    requires
        same_cells(a, b),
        closed(b),
    ensures
        closed(a),
{
    assert forall|kind: UnitKind, u: int, k1: int, k2: int| #[trigger] eliminates(a, kind, u, k1, k2) implies eliminates(b, kind, u, k1, k2) by {
        lemma_unit_cells(kind, u, k1, k2);
        lemma_unit_cells(kind, u, k2, k1);
        assert(ucell(a, kind, u, k1) == ucell(b, kind, u, k1));
        assert(ucell(a, kind, u, k2) == ucell(b, kind, u, k2));
    }
}

/// With nothing added, the grid is closed under the kind.
proof fn lemma_nothing_scanned(m: Matrix, kind: UnitKind, added: Seq<sudokuDeleteNumber>)
    requires
        scanned(m, kind, added),
        added.len() == 0,
    ensures
        closed_under(m, kind),
{
    assert forall|u: int, k1: int, k2: int| !#[trigger] eliminates(m, kind, u, k1, k2) by {
        if eliminates(m, kind, u, k1, k2) {
            assert(added.contains(elimination_request(m, kind, u, k1, k2)));
        }
    }
}

/// Runs the three scanners, then applies what they queued, until a round
/// queues nothing. Every round removes a candidate, so the loop ends; at the
/// end no fixed value is still admitted by another cell of its row, column
/// or box.
pub fn constraintsElimination(ioManager: &mut sudokuIOManager)
    requires
        old(ioManager).valid(),
        old(ioManager).pending().len() == 0,
    ensures
        final(ioManager).valid(),
        final(ioManager).pending().len() == 0,
        refines(final(ioManager).sudokuVar.sudokuMatrix, old(ioManager).sudokuVar.sudokuMatrix),
        count(final(ioManager).sudokuVar.sudokuMatrix) <= count(old(ioManager).sudokuVar.sudokuMatrix),
        closed(final(ioManager).sudokuVar.sudokuMatrix),
        keeps_solutions(old(ioManager).sudokuVar.sudokuMatrix, final(ioManager).sudokuVar.sudokuMatrix),
        eliminated_from(old(ioManager).sudokuVar.sudokuMatrix, final(ioManager).sudokuVar.sudokuMatrix),
{
    let ghost start = ioManager.sudokuVar.sudokuMatrix;
    let ghost mut trace: Seq<sudokuDeleteNumber> = Seq::empty();
    let mut horizontalUpdates = true;
    let mut verticalUpdates = true;
    let mut boxesUpdates = true;
    while horizontalUpdates || verticalUpdates || boxesUpdates
        invariant
            ioManager.valid(),
            ioManager.pending().len() == 0,
            refines(ioManager.sudokuVar.sudokuMatrix, start),
            count(ioManager.sudokuVar.sudokuMatrix) <= count(start),
            !(horizontalUpdates || verticalUpdates || boxesUpdates) ==> closed(ioManager.sudokuVar.sudokuMatrix),
            keeps_solutions(start, ioManager.sudokuVar.sudokuMatrix),
            justified_trace(model(start), trace),
            apply_requests(model(start), trace) == model(ioManager.sudokuVar.sudokuMatrix),
        decreases count(ioManager.sudokuVar.sudokuMatrix) + if horizontalUpdates || verticalUpdates || boxesUpdates {
            1int
        } else {
            0int
        },
    {
        let ghost g = ioManager.sudokuVar.sudokuMatrix;
        let ghost queued = ioManager.pending();
        horizontalUpdates = horizontalConstraintElimination(ioManager);
        let ghost after_rows = ioManager.pending();
        verticalUpdates = verticalConstraintElimination(ioManager);
        let ghost after_columns = ioManager.pending();
        boxesUpdates = boxesConstraintElimination(ioManager);
        let ghost after_boxes = ioManager.pending();
        proof {
            assert forall|i: int| 0 <= i < after_rows.len() implies after_boxes[i] == after_rows[i] by {
                assert(after_boxes.subrange(0, after_columns.len() as int)[i] == after_boxes[i]);
                assert(after_columns.subrange(0, after_rows.len() as int)[i] == after_columns[i]);
            }
            assert forall|i: int| 0 <= i < after_columns.len() implies after_boxes[i] == after_columns[i] by {
                assert(after_boxes.subrange(0, after_columns.len() as int)[i] == after_boxes[i]);
            }
            assert(after_rows.skip(0) == after_rows);
            if horizontalUpdates {
                assert(after_boxes[0] == after_columns[0]);
                assert(after_columns[0] == after_rows[0]);
                assert(justified_elimination(g, UnitKind::Row, after_rows[0]));
                lemma_justified_effective(g, UnitKind::Row, after_boxes[0]);
            } else if verticalUpdates {
                assert(after_columns.skip(0) == after_columns);
                assert(after_boxes[0] == after_columns[0]);
                assert(justified_elimination(g, UnitKind::Column, after_columns[0]));
                lemma_justified_effective(g, UnitKind::Column, after_boxes[0]);
            } else if boxesUpdates {
                assert(after_boxes.skip(0) == after_boxes);
                assert(justified_elimination(g, UnitKind::Box, after_boxes[0]));
                lemma_justified_effective(g, UnitKind::Box, after_boxes[0]);
            } else {
                assert(after_columns.skip(0) == after_columns);
                assert(after_boxes.skip(0) == after_boxes);
                lemma_nothing_scanned(g, UnitKind::Row, after_rows);
                lemma_nothing_scanned(g, UnitKind::Column, after_columns);
                lemma_nothing_scanned(g, UnitKind::Box, after_boxes);
            }
        }
        Run(ioManager);
        proof {
            let now = ioManager.sudokuVar.sudokuMatrix;
            assert forall|sol: Matrix| is_solution(sol) && #[trigger] refines(sol, start) implies refines(sol, now) by {
                assert(refines(sol, g));
                assert forall|t: int| 0 <= t < after_boxes.len() implies !cell(sol, after_boxes[t].row as int, after_boxes[t].column as int).contains(#[trigger] after_boxes[t].value) by {
                    if t < after_rows.len() {
                        assert(after_boxes[t] == after_rows[t]);
                        assert(after_rows.skip(0)[t] == after_rows[t]);
                        lemma_justified_spared(g, sol, UnitKind::Row, after_boxes[t]);
                    } else if t < after_columns.len() {
                        assert(after_boxes[t] == after_columns[t]);
                        assert(after_columns.skip(after_rows.len() as int)[t - after_rows.len()] == after_columns[t]);
                        lemma_justified_spared(g, sol, UnitKind::Column, after_boxes[t]);
                    } else {
                        assert(after_boxes.skip(after_columns.len() as int)[t - after_columns.len()] == after_boxes[t]);
                        lemma_justified_spared(g, sol, UnitKind::Box, after_boxes[t]);
                    }
                }
                lemma_spared_solution_kept(g, now, after_boxes, sol);
            }
            let rq = after_boxes;
            lemma_apply_concat(model(start), trace, rq);
            assert forall|t: int| 0 <= t < (trace + rq).len() implies peer_fixed(apply_requests(model(start), (trace + rq).take(t)), #[trigger] (trace + rq)[t]) by {
                if t < trace.len() {
                    assert((trace + rq).take(t) =~= trace.take(t));
                    assert((trace + rq)[t] == trace[t]);
                } else {
                    let t2 = t - trace.len();
                    assert((trace + rq).take(t) =~= trace + rq.take(t2));
                    assert((trace + rq)[t] == rq[t2]);
                    lemma_apply_concat(model(start), trace, rq.take(t2));
                    if t2 < after_rows.len() {
                        assert(rq[t2] == after_rows[t2]);
                        assert(after_rows.skip(0)[t2] == after_rows[t2]);
                        lemma_justified_peer_fixed(g, UnitKind::Row, rq[t2], rq.take(t2));
                    } else if t2 < after_columns.len() {
                        assert(rq[t2] == after_columns[t2]);
                        assert(after_columns.skip(after_rows.len() as int)[t2 - after_rows.len()] == after_columns[t2]);
                        lemma_justified_peer_fixed(g, UnitKind::Column, rq[t2], rq.take(t2));
                    } else {
                        assert(rq.skip(after_columns.len() as int)[t2 - after_columns.len()] == rq[t2]);
                        lemma_justified_peer_fixed(g, UnitKind::Box, rq[t2], rq.take(t2));
                    }
                }
            }
            trace = trace + rq;
            lemma_count_nonneg(now, 81);
            if horizontalUpdates || verticalUpdates || boxesUpdates {
                assert(after_boxes.len() > 0);
                assert(effective(g, after_boxes[0]));
                assert(count(now) < count(g));
            } else {
                assert(after_boxes.len() == 0);
                assert(now == g);
            }
            assert forall|r: int, c: int, x: i8| in_grid(r, c) && #[trigger] cell(now, r, c).contains(x)
                implies cell(start, r, c).contains(x) by {
                assert(cell(g, r, c).contains(x));
            }
        }
    }
    assert(apply_requests(model(start), trace) == model(ioManager.sudokuVar.sudokuMatrix));
}

/// Runs constraint elimination on a grid in a store of its own and returns
/// the grid it ends with.
pub fn sudokuConstraintsElimination(sudoku: Matrix) -> (r: Matrix)
    requires
        wf(sudoku),
    ensures
        wf(r),
        refines(r, sudoku),
        count(r) <= count(sudoku),
        closed(r),
        keeps_solutions(sudoku, r),
        eliminated_from(sudoku, r),
{
    let sudokuContainer = sudoku::newContainer(sudoku);
    let mut ioManager = sudokuIOManager::new(sudokuContainer);
    constraintsElimination(&mut ioManager);
    let r = ioManager.GetSudoku();
    proof {
        let g = ioManager.sudokuVar.sudokuMatrix;
        lemma_closed_same_cells(r, g);
        lemma_same_cells_count(r, g);
        assert(model(r) =~= model(g));
        let trace = choose|trace: Seq<sudokuDeleteNumber>| justified_trace(model(sudoku), trace)
            && #[trigger] apply_requests(model(sudoku), trace) == model(g);
        assert(apply_requests(model(sudoku), trace) == model(r));
        assert forall|sol: Matrix| is_solution(sol) && #[trigger] refines(sol, sudoku) implies refines(sol, r) by {
            assert(refines(sol, g));
            assert forall|i: int, j: int, x: i8| in_grid(i, j) && #[trigger] cell(sol, i, j).contains(x) implies cell(r, i, j).contains(x) by {
                assert(cell(g, i, j).contains(x));
            }
        }
        assert forall|i: int, j: int, x: i8| in_grid(i, j) && #[trigger] cell(r, i, j).contains(x) implies cell(sudoku, i, j).contains(x) by {
            assert(cell(g, i, j).contains(x));
        }
    }
    r
}

/// The candidate sets of `b` lie within those of `g`.
pub open spec fn sets_within(b: Matrix, g: Map<(int, int), Set<i8>>) -> bool {
    forall|r: int, c: int, x: i8| in_grid(r, c) && #[trigger] cell(b, r, c).contains(x)
        ==> g.contains_key((r, c)) && g[(r, c)].contains(x)
}

/// A closed, consistent, well-formed grid within the candidates stays
/// within them through every justified removal.
proof fn lemma_closed_within_trace(g: Map<(int, int), Set<i8>>, trace: Seq<sudokuDeleteNumber>, b: Matrix, t: int)
    requires
        wf(b),
        closed(b),
        consistent(b),
        justified_trace(g, trace),
        sets_within(b, g),
        0 <= t <= trace.len(),
    ensures
        sets_within(b, apply_requests(g, trace.take(t))),
    decreases t,
{
    if t > 0 {
        lemma_closed_within_trace(g, trace, b, t - 1);
        let h = apply_requests(g, trace.take(t - 1));
        let d = trace[t - 1];
        assert(trace.take(t).drop_last() =~= trace.take(t - 1));
        assert(trace.take(t).last() == d);
        assert(peer_fixed(h, d));
        let (kind, u, k1, k2) = choose|kind: UnitKind, u: int, k1: int, k2: int|
            #![trigger h[(unit_row(kind, u, k1), unit_col(kind, u, k1))], unit_row(kind, u, k2)]
            0 <= u < 9 && 0 <= k1 < 9 && 0 <= k2 < 9 && k1 != k2 && d.row == unit_row(kind, u, k2) && d.column == unit_col(kind, u, k2)
                && h.contains_key((unit_row(kind, u, k1), unit_col(kind, u, k1)))
                && h[(unit_row(kind, u, k1), unit_col(kind, u, k1))] == set![d.value];
        lemma_unit_cells(kind, u, k1, k2);
        lemma_unit_cells(kind, u, k2, k1);
        let v = d.value;
        let c1 = ucell(b, kind, u, k1);
        let c2 = ucell(b, kind, u, k2);
        assert(valid_cell(c1));
        assert(valid_cell(c2));
        assert(c1.contains(c1[0]));
        assert(c1[0] == v);
        if c1.len() > 1 {
            assert(c1.contains(c1[1]));
            assert(c1[1] == v);
        }
        assert(c1.len() == 1);
        if c2.contains(v) {
            if c2.len() > 1 {
                assert(eliminates(b, kind, u, k1, k2));
            } else {
                let i = choose|i: int| 0 <= i < c2.len() && c2[i] == v;
                assert(kind_consistent(b, kind));
                assert(unit_consistent(b, kind, u));
            }
        }
        let h2 = apply_requests(g, trace.take(t));
        assert(h2 == apply_request(h, d));
        assert forall|r: int, c: int, x: i8| in_grid(r, c) && #[trigger] cell(b, r, c).contains(x)
            implies h2.contains_key((r, c)) && h2[(r, c)].contains(x) by {
            if r == d.row && c == d.column {
                assert(x != v);
            }
        }
    }
}

/// Uniqueness of elimination: two closed, well-formed results of
/// constraint elimination from the same grid that keep a common solution
/// hold the same candidates in every cell, whatever the order in which
/// their removals were made.
pub proof fn lemma_elimination_unique(start: Matrix, a: Matrix, b: Matrix, sol: Matrix)
    requires
        wf(a),
        wf(b),
        closed(a),
        closed(b),
        refines(a, start),
        refines(b, start),
        eliminated_from(start, a),
        eliminated_from(start, b),
        is_solution(sol),
        refines(sol, a),
        refines(sol, b),
    ensures
        model(a) == model(b),
{
    lemma_solution_makes_consistent(a, sol);
    lemma_solution_makes_consistent(b, sol);
    let ta = choose|trace: Seq<sudokuDeleteNumber>| justified_trace(model(start), trace)
        && #[trigger] apply_requests(model(start), trace) == model(a);
    let tb = choose|trace: Seq<sudokuDeleteNumber>| justified_trace(model(start), trace)
        && #[trigger] apply_requests(model(start), trace) == model(b);
    assert(sets_within(b, model(start)));
    assert(sets_within(a, model(start)));
    lemma_closed_within_trace(model(start), ta, b, ta.len() as int);
    lemma_closed_within_trace(model(start), tb, a, tb.len() as int);
    assert(ta.take(ta.len() as int) =~= ta);
    assert(tb.take(tb.len() as int) =~= tb);
    assert forall|p: (int, int)| model(a).contains_key(p) implies model(a)[p] =~= model(b)[p] by {
        assert forall|x: i8| model(a)[p].contains(x) <==> model(b)[p].contains(x) by {
            if model(a)[p].contains(x) {
                assert(cell(a, p.0, p.1).contains(x));
            }
            if model(b)[p].contains(x) {
                assert(cell(b, p.0, p.1).contains(x));
            }
        }
    }
    assert(model(a) =~= model(b));
}

} // verus!
