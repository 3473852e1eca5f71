//! Naked pairs: two cells of a unit that both hold exactly the same two
//! candidates take those two values out of every other cell of the unit.
use vstd::prelude::*;
use crate::combine::{combos, getCombinations, increasing, lemma_pair_complete, lemma_pair_members, views};
use crate::constraints::{closed, constraintsElimination};
use crate::grid::{
    cell, checkSliceElement, contains, count, in_grid, is_solution, keeps_solutions, lemma_count_nonneg,
    lemma_solution_unit_distinct, lemma_unit_cells, Matrix, model, refines, ucell, unit_cell, unit_col,
    unit_row, UnitKind, valid_cell, wf,
};
use crate::reduction::{
    justified_by, justified_reduction, lemma_elimination_reduction, lemma_pair_in_sets,
    lemma_reduction_concat, lemma_round_reduction, reduced_from,
};
use crate::store::{
    apply_requests, effective, lemma_apply_concat, lemma_push_contains, lemma_spared_solution_kept,
    request_in_grid, Run, sudokuDeleteNumber, sudokuIOManager,
};

verus! {

/// Cells `p` < `q` of unit `u` both hold exactly two candidates, the same two.
pub open spec fn naked_pair(m: Matrix, kind: UnitKind, u: int, p: int, q: int) -> bool {
    &&& 0 <= u < 9
    &&& 0 <= p < q < 9
    &&& ucell(m, kind, u, p).len() == 2
    &&& ucell(m, kind, u, q).len() == 2
    &&& ucell(m, kind, u, q).contains(ucell(m, kind, u, p)[0])
    &&& ucell(m, kind, u, q).contains(ucell(m, kind, u, p)[1])
}

/// Cell `k` of unit `u` lies outside the pair (`p`, `q`), is undetermined,
/// and admits a value of the pair.
pub open spec fn pair_victim(m: Matrix, kind: UnitKind, u: int, p: int, q: int, k: int) -> bool {
    &&& 0 <= k < 9
    &&& k != p
    &&& k != q
    &&& ucell(m, kind, u, k).len() > 1
    &&& (ucell(m, kind, u, k).contains(ucell(m, kind, u, p)[0]) || ucell(m, kind, u, k).contains(
        ucell(m, kind, u, p)[1],
    ))
}

/// A naked pair with at least one cell to take its values from.
pub open spec fn pair_found(m: Matrix, kind: UnitKind, u: int, p: int, q: int) -> bool {
    naked_pair(m, kind, u, p, q) && exists|k: int| #[trigger] pair_victim(m, kind, u, p, q, k)
}

/// The request that takes the `t`-th value of cell `p` out of cell `k`.
pub open spec fn pair_request(m: Matrix, kind: UnitKind, u: int, p: int, k: int, t: int) -> sudokuDeleteNumber {
    sudokuDeleteNumber {
        row: unit_row(kind, u, k) as i8,
        column: unit_col(kind, u, k) as i8,
        value: ucell(m, kind, u, p)[t],
    }
}

/// The request takes a value of the pair (`p`, `q`) out of one of its victims.
pub open spec fn from_pair(m: Matrix, kind: UnitKind, u: int, p: int, q: int, d: sudokuDeleteNumber) -> bool {
    exists|k: int, t: int| pair_victim(m, kind, u, p, q, k) && 0 <= t < 2 && d == #[trigger] pair_request(m, kind, u, p, k, t)
}

/// The requests are exactly: both values of the pair, out of each victim.
pub open spec fn pair_requests(m: Matrix, kind: UnitKind, u: int, p: int, q: int, added: Seq<sudokuDeleteNumber>) -> bool {
    &&& forall|i: int| 0 <= i < added.len() ==> from_pair(m, kind, u, p, q, #[trigger] added[i])
    &&& forall|k: int, t: int| pair_victim(m, kind, u, p, q, k) && 0 <= t < 2
        ==> added.contains(#[trigger] pair_request(m, kind, u, p, k, t))
}

/// The request takes a value of a naked pair of a unit of the kind out of a
/// cell of that unit outside the pair.
pub open spec fn pair_sound(m: Matrix, kind: UnitKind, d: sudokuDeleteNumber) -> bool {
    exists|u: int, p: int, q: int| naked_pair(m, kind, u, p, q) && #[trigger] from_pair(m, kind, u, p, q, d)
}

/// The combinations of two cells of unit `u` that the finder tries, in order:
/// those of the cells with two candidates.
pub open spec fn pair_list(m: Matrix, kind: UnitKind, u: int) -> Seq<Seq<i8>> {
    combos(positions(m, kind, u, 2, 2), 2, 0)
}

/// Combination `w` is the first of the list that is a naked pair with a victim.
pub open spec fn first_pair(m: Matrix, kind: UnitKind, u: int, w: int) -> bool {
    &&& 0 <= w < pair_list(m, kind, u).len()
    &&& pair_found(m, kind, u, pair_list(m, kind, u)[w][0] as int, pair_list(m, kind, u)[w][1] as int)
    &&& forall|w2: int| 0 <= w2 < w ==> !pair_found(m, kind, u, #[trigger] pair_list(m, kind, u)[w2][0] as int, pair_list(m, kind, u)[w2][1] as int)
}

/// Both values of the pair (`p`, `q`), out of each of its victims among the
/// first `k` cells of the unit, in order.
pub open spec fn pair_targets(m: Matrix, kind: UnitKind, u: int, p: int, q: int, k: int) -> Seq<sudokuDeleteNumber>
    decreases k,
{
    if k <= 0 {
        seq![]
    } else {
        pair_targets(m, kind, u, p, q, k - 1) + if pair_victim(m, kind, u, p, q, k - 1) {
            seq![pair_request(m, kind, u, p, k - 1, 0), pair_request(m, kind, u, p, k - 1, 1)]
        } else {
            seq![]
        }
    }
}

/// What the finder queues for unit `u`: the removals of the first pair in
/// the list that has a victim, or nothing.
pub open spec fn unit_pair_requests(m: Matrix, kind: UnitKind, u: int) -> Seq<sudokuDeleteNumber> {
    if exists|w: int| first_pair(m, kind, u, w) {
        let w = choose|w: int| first_pair(m, kind, u, w);
        pair_targets(m, kind, u, pair_list(m, kind, u)[w][0] as int, pair_list(m, kind, u)[w][1] as int, 9)
    } else {
        seq![]
    }
}

/// What the finder queues for the first `u` units of the kind, in order.
pub open spec fn pair_requests_upto(m: Matrix, kind: UnitKind, u: int) -> Seq<sudokuDeleteNumber>
    decreases u,
{
    if u <= 0 {
        seq![]
    } else {
        pair_requests_upto(m, kind, u - 1) + unit_pair_requests(m, kind, u - 1)
    }
}

proof fn lemma_first_pair_unique(m: Matrix, kind: UnitKind, u: int, w: int)
    requires
        first_pair(m, kind, u, w),
    ensures
        forall|w2: int| #[trigger] first_pair(m, kind, u, w2) ==> w2 == w,
        unit_pair_requests(m, kind, u) == pair_targets(m, kind, u, pair_list(m, kind, u)[w][0] as int, pair_list(m, kind, u)[w][1] as int, 9),
{
    assert forall|w2: int| #[trigger] first_pair(m, kind, u, w2) implies w2 == w by {
        if w2 < w {
            assert(!pair_found(m, kind, u, pair_list(m, kind, u)[w2][0] as int, pair_list(m, kind, u)[w2][1] as int));
        } else if w2 > w {
            assert(!pair_found(m, kind, u, pair_list(m, kind, u)[w][0] as int, pair_list(m, kind, u)[w][1] as int));
        }
    }
}

/// `s` starts with `prefix`.
pub open spec fn extends(s: Seq<sudokuDeleteNumber>, prefix: Seq<sudokuDeleteNumber>) -> bool {
    s.len() >= prefix.len() && s.subrange(0, prefix.len() as int) == prefix
}

/// The positions among the first `k` of unit `u`, in increasing order, of the
/// cells whose number of candidates is `n1` or `n2`.
pub open spec fn positions_upto(m: Matrix, kind: UnitKind, u: int, n1: int, n2: int, k: int) -> Seq<i8>
    decreases k,
{
    if k <= 0 {
        seq![]
    } else if ucell(m, kind, u, k - 1).len() == n1 || ucell(m, kind, u, k - 1).len() == n2 {
        positions_upto(m, kind, u, n1, n2, k - 1).push((k - 1) as i8)
    } else {
        positions_upto(m, kind, u, n1, n2, k - 1)
    }
}

/// The positions, in increasing order, of the cells of unit `u` whose number
/// of candidates is `n1` or `n2`.
pub open spec fn positions(m: Matrix, kind: UnitKind, u: int, n1: int, n2: int) -> Seq<i8> {
    positions_upto(m, kind, u, n1, n2, 9)
}

/// The positions, in increasing order, of the cells of unit `u` whose number
/// of candidates is one of the two given.
pub fn positions_with_len(m: &Matrix, kind: UnitKind, u: usize, n1: usize, n2: usize) -> (r: Vec<i8>)
    requires
        u < 9,
    ensures
        increasing(r@),
        r@.len() <= 9,
        forall|t: int| 0 <= t < r@.len() ==> 0 <= #[trigger] r@[t] < 9 && (ucell(*m, kind, u as int, r@[t] as int).len() == n1
            || ucell(*m, kind, u as int, r@[t] as int).len() == n2),
        forall|k: int| 0 <= k < 9 && (ucell(*m, kind, u as int, k).len() == n1 || ucell(*m, kind, u as int, k).len() == n2)
            ==> #[trigger] r@.contains(k as i8),
        r@ == positions(*m, kind, u as int, n1 as int, n2 as int),
{
    let mut r: Vec<i8> = Vec::new();
    let mut k: usize = 0;
    while k < 9
        invariant
            u < 9,
            k <= 9,
            r@.len() <= k,
            increasing(r@),
            forall|t: int| 0 <= t < r@.len() ==> 0 <= #[trigger] r@[t] < k && (ucell(*m, kind, u as int, r@[t] as int).len() == n1
                || ucell(*m, kind, u as int, r@[t] as int).len() == n2),
            forall|k2: int| 0 <= k2 < k && (ucell(*m, kind, u as int, k2).len() == n1 || ucell(*m, kind, u as int, k2).len() == n2)
                ==> #[trigger] r@.contains(k2 as i8),
            r@ == positions_upto(*m, kind, u as int, n1 as int, n2 as int, k as int),
        decreases 9 - k,
    {
        let (i, j) = unit_cell(kind, u, k);
        let len = m[i][j].len();
        if len == n1 || len == n2 {
            let ghost prev = r@;
            r.push(k as i8);
            proof {
                assert forall|k2: int| 0 <= k2 < k + 1 && (ucell(*m, kind, u as int, k2).len() == n1 || ucell(*m, kind, u as int, k2).len() == n2)
                    implies #[trigger] r@.contains(k2 as i8) by {
                    if k2 < k {
                        assert(prev.contains(k2 as i8));
                        let w = choose|w: int| 0 <= w < prev.len() && prev[w] == k2 as i8;
                        assert(r@[w] == k2 as i8);
                    } else {
                        assert(r@[prev.len() as int] == k2 as i8);
                    }
                }
            }
        }
        k += 1;
    }
    r
}

/// Looks in unit `u` for the first naked pair, in the order of combinations,
/// that has a victim, and queues the removal of both its values from each
/// victim. Returns whether it queued anything.
fn find_pair_in_unit(ioManager: &mut sudokuIOManager, kind: UnitKind, u: usize) -> (found: bool)
    requires
        old(ioManager).valid(),
        u < 9,
    ensures
        final(ioManager).valid(),
        final(ioManager).sudokuVar == old(ioManager).sudokuVar,
        extends(final(ioManager).pending(), old(ioManager).pending()),
        found == (final(ioManager).pending().len() > old(ioManager).pending().len()),
        !found <==> forall|p: int, q: int| !#[trigger] pair_found(old(ioManager).sudokuVar.sudokuMatrix, kind, u as int, p, q),
        found ==> exists|p: int, q: int| #[trigger] pair_found(old(ioManager).sudokuVar.sudokuMatrix, kind, u as int, p, q)
            && pair_requests(
            old(ioManager).sudokuVar.sudokuMatrix,
            kind,
            u as int,
            p,
            q,
            final(ioManager).pending().skip(old(ioManager).pending().len() as int),
        ),
        final(ioManager).pending() == old(ioManager).pending() + unit_pair_requests(old(ioManager).sudokuVar.sudokuMatrix, kind, u as int),
{
    let ghost m = ioManager.sudokuVar.sudokuMatrix;
    let ghost queued = ioManager.pending();
    let ghost mut added: Seq<sudokuDeleteNumber> = Seq::empty();
    let validCellsPosition = positions_with_len(&ioManager.sudokuVar.sudokuMatrix, kind, u, 2, 2);
    let ghost vs = validCellsPosition@;
    let mut validCombination = false;
    if validCellsPosition.len() > 1 {
        let combinationsList = getCombinations(validCellsPosition, 2, 0);
        proof {
            lemma_pair_members(vs);
        }
        let mut z: usize = 0;
        while z < combinationsList.len() && !validCombination
            invariant
                u < 9,
                z <= combinationsList@.len(),
                views(combinationsList@) == combos(vs, 2, 0),
                forall|c: Seq<i8>| #[trigger] combos(vs, 2, 0).contains(c) ==> c.len() == 2 && c[0] < c[1]
                    && vs.contains(c[0]) && vs.contains(c[1]),
                forall|t: int| 0 <= t < vs.len() ==> 0 <= #[trigger] vs[t] < 9 && ucell(m, kind, u as int, vs[t] as int).len() == 2,
                ioManager.valid(),
                ioManager.sudokuVar.sudokuMatrix == m,
                ioManager.pending() == queued + added,
                !validCombination ==> added.len() == 0,
                !validCombination ==> forall|w: int| 0 <= w < z ==> !pair_found(m, kind, u as int, #[trigger] combos(vs, 2, 0)[w][0] as int, combos(vs, 2, 0)[w][1] as int),
                validCombination ==> added.len() > 0 && exists|p: int, q: int| #[trigger] pair_found(m, kind, u as int, p, q)
                    && pair_requests(m, kind, u as int, p, q, added),
                vs == positions(m, kind, u as int, 2, 2),
                validCombination ==> added == unit_pair_requests(m, kind, u as int),
            decreases combinationsList@.len() - z,
        {
            let ghost c = combos(vs, 2, 0)[z as int];
            assert(views(combinationsList@)[z as int] == combinationsList@[z as int]@);
            assert(combos(vs, 2, 0).contains(c));
            let first = combinationsList[z][0];
            let second = combinationsList[z][1];
            let ghost fi = vs.index_of(first);
            let ghost si = vs.index_of(second);
            let firstValuePosition = first as usize;
            let secondValuePosition = second as usize;
            let (pi, pj) = unit_cell(kind, u, firstValuePosition);
            let (qi, qj) = unit_cell(kind, u, secondValuePosition);
            assert(ucell(m, kind, u as int, first as int).len() == 2);
            assert(ucell(m, kind, u as int, second as int).len() == 2);
            let a = ioManager.sudokuVar.sudokuMatrix[pi][pj][0];
            let b = ioManager.sudokuVar.sudokuMatrix[pi][pj][1];
            if contains(&ioManager.sudokuVar.sudokuMatrix[qi][qj], a) && contains(&ioManager.sudokuVar.sudokuMatrix[qi][qj], b) {
                assert(naked_pair(m, kind, u as int, first as int, second as int));
                let mut k: usize = 0;
                while k < 9
                    invariant
                        u < 9,
                        k <= 9,
                        firstValuePosition < 9,
                        secondValuePosition < 9,
                        naked_pair(m, kind, u as int, first as int, second as int),
                        firstValuePosition == first,
                        secondValuePosition == second,
                        a == ucell(m, kind, u as int, first as int)[0],
                        b == ucell(m, kind, u as int, first as int)[1],
                        ioManager.valid(),
                        ioManager.sudokuVar.sudokuMatrix == m,
                        ioManager.pending() == queued + added,
                        !validCombination ==> added.len() == 0,
                        validCombination ==> added.len() > 0 && exists|k2: int| #[trigger] pair_victim(m, kind, u as int, first as int, second as int, k2),
                        validCombination || added.len() == 0,
                        !validCombination ==> forall|k2: int| 0 <= k2 < k ==> !#[trigger] pair_victim(m, kind, u as int, first as int, second as int, k2),
                        added == pair_targets(m, kind, u as int, first as int, second as int, k as int),
                        forall|i: int| 0 <= i < added.len() ==> from_pair(m, kind, u as int, first as int, second as int, #[trigger] added[i]),
                        forall|k2: int, t: int| 0 <= k2 < k && pair_victim(m, kind, u as int, first as int, second as int, k2) && 0 <= t < 2
                            ==> added.contains(#[trigger] pair_request(m, kind, u as int, first as int, k2, t)),
                    decreases 9 - k,
                {
                    let (ki, kj) = unit_cell(kind, u, k);
                    proof {
                        lemma_unit_cells(kind, u as int, k as int, k as int);
                    }
                    if k != firstValuePosition && k != secondValuePosition && (checkSliceElement(
                        &ioManager.sudokuVar.sudokuMatrix[ki][kj],
                        a,
                    ) || checkSliceElement(&ioManager.sudokuVar.sudokuMatrix[ki][kj], b)) {
                        assert(pair_victim(m, kind, u as int, first as int, second as int, k as int));
                        let ghost d0 = pair_request(m, kind, u as int, first as int, k as int, 0);
                        let ghost d1 = pair_request(m, kind, u as int, first as int, k as int, 1);
                        ioManager.DeleteNumber(ki as i8, kj as i8, a);
                        ioManager.DeleteNumber(ki as i8, kj as i8, b);
                        proof {
                            lemma_push_contains(added, d0);
                            lemma_push_contains(added.push(d0), d1);
                            let old_added = added;
                            added = added.push(d0).push(d1);
                            assert(ioManager.pending() =~= queued + added);
                            assert forall|i: int| 0 <= i < added.len() implies from_pair(m, kind, u as int, first as int, second as int, #[trigger] added[i]) by {
                                if i < old_added.len() {
                                    assert(added[i] == old_added[i]);
                                } else if i == old_added.len() {
                                    assert(added[i] == d0);
                                    assert(from_pair(m, kind, u as int, first as int, second as int, d0));
                                } else {
                                    assert(added[i] == d1);
                                    assert(from_pair(m, kind, u as int, first as int, second as int, d1));
                                }
                            }
                            assert(added =~= pair_targets(m, kind, u as int, first as int, second as int, k + 1));
                        }
                        validCombination = true;
                    } else {
                        assert(!pair_victim(m, kind, u as int, first as int, second as int, k as int));
                        assert(added =~= pair_targets(m, kind, u as int, first as int, second as int, k + 1));
                    }
                    k += 1;
                }
                proof {
                    if validCombination {
                        assert(pair_found(m, kind, u as int, first as int, second as int));
                        assert(pair_list(m, kind, u as int) == combos(vs, 2, 0));
                        assert(c[0] == first && c[1] == second);
                        assert(first_pair(m, kind, u as int, z as int));
                        lemma_first_pair_unique(m, kind, u as int, z as int);
                    } else {
                        assert forall|k2: int| !#[trigger] pair_victim(m, kind, u as int, first as int, second as int, k2) by {}
                    }
                }
            } else {
                assert(!naked_pair(m, kind, u as int, first as int, second as int));
            }
            z += 1;
        }
        proof {
            if !validCombination {
                assert forall|p: int, q: int| !#[trigger] pair_found(m, kind, u as int, p, q) by {
                    if pair_found(m, kind, u as int, p, q) {
                        lemma_unit_cells(kind, u as int, p, q);
                        assert(vs.contains(p as i8));
                        assert(vs.contains(q as i8));
                        let i = choose|i: int| 0 <= i < vs.len() && vs[i] == p as i8;
                        let j = choose|j: int| 0 <= j < vs.len() && vs[j] == q as i8;
                        assert(i < j);
                        lemma_pair_complete(vs, i, j);
                        let w = choose|w: int| 0 <= w < combos(vs, 2, 0).len() && combos(vs, 2, 0)[w] == seq![vs[i], vs[j]];
                        assert(combos(vs, 2, 0)[w][0] == p as i8);
                        assert(combos(vs, 2, 0)[w][1] == q as i8);
                    }
                }
            }
        }
    } else {
        proof {
            assert forall|p: int, q: int| !#[trigger] pair_found(m, kind, u as int, p, q) by {
                if pair_found(m, kind, u as int, p, q) {
                    assert(vs.contains(p as i8));
                    assert(vs.contains(q as i8));
                    let i = choose|i: int| 0 <= i < vs.len() && vs[i] == p as i8;
                    let j = choose|j: int| 0 <= j < vs.len() && vs[j] == q as i8;
                }
            }
        }
    }
    proof {
        assert(ioManager.pending().skip(queued.len() as int) =~= added);
        assert(ioManager.pending().subrange(0, queued.len() as int) =~= queued);
        if !validCombination {
            assert forall|w: int| !#[trigger] first_pair(m, kind, u as int, w) by {
                if first_pair(m, kind, u as int, w) {
                    assert(pair_found(m, kind, u as int, pair_list(m, kind, u as int)[w][0] as int, pair_list(m, kind, u as int)[w][1] as int));
                }
            }
            assert(added =~= unit_pair_requests(m, kind, u as int));
        }
    }
    validCombination
}

/// The cell a pair request names lies outside the pair that justifies it:
/// the pair finders never take a candidate out of the pair's own cells.
pub proof fn lemma_pair_request_outside_pair(m: Matrix, kind: UnitKind, d: sudokuDeleteNumber)
    requires
        pair_sound(m, kind, d),
    ensures
        exists|u: int, p: int, q: int| #[trigger] naked_pair(m, kind, u, p, q) && from_pair(m, kind, u, p, q, d)
            && (d.row != unit_row(kind, u, p) || d.column != unit_col(kind, u, p))
            && (d.row != unit_row(kind, u, q) || d.column != unit_col(kind, u, q)),
{
    let (u, p, q) = choose|u: int, p: int, q: int| naked_pair(m, kind, u, p, q) && #[trigger] from_pair(m, kind, u, p, q, d);
    let (k, t) = choose|k: int, t: int| pair_victim(m, kind, u, p, q, k) && 0 <= t < 2 && d == #[trigger] pair_request(m, kind, u, p, k, t);
    lemma_unit_cells(kind, u, k, p);
    lemma_unit_cells(kind, u, k, q);
    assert(naked_pair(m, kind, u, p, q));
}

/// Unit `u` holds a naked pair with a victim.
pub open spec fn unit_has_pair(m: Matrix, kind: UnitKind, u: int) -> bool {
    exists|p: int, q: int| #[trigger] pair_found(m, kind, u, p, q)
}

/// `added` takes both values of some naked pair of unit `u` out of each of
/// its victims.
pub open spec fn unit_pair_queued(m: Matrix, kind: UnitKind, u: int, added: Seq<sudokuDeleteNumber>) -> bool {
    exists|p: int, q: int| #[trigger] pair_found(m, kind, u, p, q) && forall|k: int, t: int|
        pair_victim(m, kind, u, p, q, k) && 0 <= t < 2 ==> added.contains(#[trigger] pair_request(m, kind, u, p, k, t))
}

/// Every unit of the kind that holds a naked pair with a victim has one such
/// pair applied in full.
pub open spec fn pairs_queued(m: Matrix, kind: UnitKind, added: Seq<sudokuDeleteNumber>) -> bool {
    forall|u: int| 0 <= u < 9 && #[trigger] unit_has_pair(m, kind, u) ==> unit_pair_queued(m, kind, u, added)
}

proof fn lemma_pair_queued_grows(m: Matrix, kind: UnitKind, u: int, a: Seq<sudokuDeleteNumber>, b: Seq<sudokuDeleteNumber>)
    requires
        unit_pair_queued(m, kind, u, a),
        forall|x: sudokuDeleteNumber| a.contains(x) ==> b.contains(x),
    ensures
        unit_pair_queued(m, kind, u, b),
{
    let (p, q) = choose|p: int, q: int| #[trigger] pair_found(m, kind, u, p, q) && forall|k: int, t: int|
        pair_victim(m, kind, u, p, q, k) && 0 <= t < 2 ==> a.contains(#[trigger] pair_request(m, kind, u, p, k, t));
    assert forall|k: int, t: int| pair_victim(m, kind, u, p, q, k) && 0 <= t < 2 implies b.contains(#[trigger] pair_request(m, kind, u, p, k, t)) by {
        assert(a.contains(pair_request(m, kind, u, p, k, t)));
    }
}

/// No solution within a well-formed grid holds a value that a naked pair
/// takes out of another cell of its unit.
#[verifier::rlimit(60)]
pub proof fn lemma_pair_spared(m: Matrix, s: Matrix, kind: UnitKind, d: sudokuDeleteNumber)
    requires
        wf(m),
        is_solution(s),
        refines(s, m),
        pair_sound(m, kind, d),
    ensures
        !cell(s, d.row as int, d.column as int).contains(d.value),
{
    let (u, p, q) = choose|u: int, p: int, q: int| naked_pair(m, kind, u, p, q) && #[trigger] from_pair(m, kind, u, p, q, d);
    let (k, t) = choose|k: int, t: int| pair_victim(m, kind, u, p, q, k) && 0 <= t < 2 && d == #[trigger] pair_request(m, kind, u, p, k, t);
    lemma_unit_cells(kind, u, p, q);
    lemma_unit_cells(kind, u, q, p);
    lemma_unit_cells(kind, u, k, p);
    lemma_unit_cells(kind, u, k, q);
    let mp = ucell(m, kind, u, p);
    let mq = ucell(m, kind, u, q);
    assert(valid_cell(mp));
    let a = mp[0];
    let b = mp[1];
    assert(a != b);
    lemma_solution_unit_distinct(s, kind, u, p, q);
    lemma_solution_unit_distinct(s, kind, u, k, p);
    lemma_solution_unit_distinct(s, kind, u, k, q);
    let x = ucell(s, kind, u, p)[0];
    let y = ucell(s, kind, u, q)[0];
    assert(ucell(s, kind, u, p).contains(x));
    assert(ucell(s, kind, u, q).contains(y));
    assert(mp.contains(x));
    assert(mq.contains(y));
    assert(x == a || x == b);
    assert(mq.contains(a) && mq.contains(b));
    assert(y == a || y == b) by {
        let i = choose|i: int| 0 <= i < 2 && mq[i] == y;
        let ia = choose|i: int| 0 <= i < 2 && mq[i] == a;
        let ib = choose|i: int| 0 <= i < 2 && mq[i] == b;
    }
}

/// A pair with a victim yields a request that removes a candidate.
proof fn lemma_pair_effective(m: Matrix, kind: UnitKind, u: int, p: int, q: int, added: Seq<sudokuDeleteNumber>)
    requires
        pair_found(m, kind, u, p, q),
        pair_requests(m, kind, u, p, q, added),
    ensures
        exists|t: int| 0 <= t < added.len() && effective(m, #[trigger] added[t]),
{
    let k = choose|k: int| #[trigger] pair_victim(m, kind, u, p, q, k);
    lemma_unit_cells(kind, u, k, k);
    let t = if ucell(m, kind, u, k).contains(ucell(m, kind, u, p)[0]) { 0int } else { 1int };
    let d = pair_request(m, kind, u, p, k, t);
    assert(added.contains(d));
    let i = choose|i: int| 0 <= i < added.len() && added[i] == d;
    assert(effective(m, added[i]));
}

/// Every request of a pair is sound and lies in the grid.
proof fn lemma_pair_requests_sound(m: Matrix, kind: UnitKind, u: int, p: int, q: int, added: Seq<sudokuDeleteNumber>)
    requires
        pair_found(m, kind, u, p, q),
        pair_requests(m, kind, u, p, q, added),
    ensures
        forall|i: int| 0 <= i < added.len() ==> pair_sound(m, kind, #[trigger] added[i]) && request_in_grid(added[i]),
{
    assert forall|i: int| 0 <= i < added.len() implies pair_sound(m, kind, #[trigger] added[i]) && request_in_grid(added[i]) by {
        assert(from_pair(m, kind, u, p, q, added[i]));
        let (k, t) = choose|k: int, t: int| pair_victim(m, kind, u, p, q, k) && 0 <= t < 2
            && added[i] == #[trigger] pair_request(m, kind, u, p, k, t);
        lemma_unit_cells(kind, u, k, k);
    }
}

/// Looks for naked pairs in every unit of the kind, at most one pattern per
/// unit, and queues the removals. Returns whether it queued anything.
#[verifier::rlimit(100)]
fn find_pairs_in_units(ioManager: &mut sudokuIOManager, kind: UnitKind) -> (updates: bool)
    requires
        old(ioManager).valid(),
    ensures
        final(ioManager).valid(),
        final(ioManager).sudokuVar == old(ioManager).sudokuVar,
        extends(final(ioManager).pending(), old(ioManager).pending()),
        forall|i: int| old(ioManager).pending().len() <= i < final(ioManager).pending().len()
            ==> pair_sound(old(ioManager).sudokuVar.sudokuMatrix, kind, #[trigger] final(ioManager).pending()[i]),
        updates == (final(ioManager).pending().len() > old(ioManager).pending().len()),
        !updates <==> forall|u: int, p: int, q: int| !#[trigger] pair_found(old(ioManager).sudokuVar.sudokuMatrix, kind, u, p, q),
        updates ==> exists|t: int| old(ioManager).pending().len() <= t < final(ioManager).pending().len()
            && effective(old(ioManager).sudokuVar.sudokuMatrix, #[trigger] final(ioManager).pending()[t]),
        pairs_queued(
            old(ioManager).sudokuVar.sudokuMatrix,
            kind,
            final(ioManager).pending().skip(old(ioManager).pending().len() as int),
        ),
        final(ioManager).pending() == old(ioManager).pending() + pair_requests_upto(old(ioManager).sudokuVar.sudokuMatrix, kind, 9),
{
    let ghost m = ioManager.sudokuVar.sudokuMatrix;
    let ghost queued = ioManager.pending();
    let mut updates = false;
    let mut u: usize = 0;
    assert(queued.subrange(0, queued.len() as int) =~= queued);
    while u < 9
        invariant
            u <= 9,
            ioManager.valid(),
            ioManager.sudokuVar.sudokuMatrix == m,
            extends(ioManager.pending(), queued),
            updates ==> exists|u2: int, p: int, q: int| #[trigger] pair_found(m, kind, u2, p, q),
            forall|i: int| queued.len() <= i < ioManager.pending().len() ==> pair_sound(m, kind, #[trigger] ioManager.pending()[i]),
            updates == (ioManager.pending().len() > queued.len()),
            !updates ==> forall|u2: int, p: int, q: int| u2 < u ==> !#[trigger] pair_found(m, kind, u2, p, q),
            updates ==> exists|t: int| queued.len() <= t < ioManager.pending().len() && effective(m, #[trigger] ioManager.pending()[t]),
            forall|u2: int| 0 <= u2 < u && #[trigger] unit_has_pair(m, kind, u2)
                ==> unit_pair_queued(m, kind, u2, ioManager.pending().skip(queued.len() as int)),
            ioManager.pending() == queued + pair_requests_upto(m, kind, u as int),
        decreases 9 - u,
    {
        let ghost before = ioManager.pending();
        let found = find_pair_in_unit(ioManager, kind, u);
        proof {
            let now = ioManager.pending();
            assert(now =~= queued + pair_requests_upto(m, kind, u + 1));
            assert forall|x: sudokuDeleteNumber| before.skip(queued.len() as int).contains(x) implies now.skip(queued.len() as int).contains(x) by {
                let i = choose|i: int| 0 <= i < before.skip(queued.len() as int).len() && before.skip(queued.len() as int)[i] == x;
                assert(now.subrange(0, before.len() as int)[queued.len() + i] == now[queued.len() + i]);
                assert(now.skip(queued.len() as int)[i] == x);
            }
            assert forall|u2: int| 0 <= u2 < u && #[trigger] unit_has_pair(m, kind, u2)
                implies unit_pair_queued(m, kind, u2, now.skip(queued.len() as int)) by {
                lemma_pair_queued_grows(m, kind, u2, before.skip(queued.len() as int), now.skip(queued.len() as int));
            }
            if found {
                let (p, q) = choose|p: int, q: int| #[trigger] pair_found(m, kind, u as int, p, q)
                    && pair_requests(m, kind, u as int, p, q, now.skip(before.len() as int));
                let unit_added = now.skip(before.len() as int);
                assert forall|x: sudokuDeleteNumber| unit_added.contains(x) implies now.skip(queued.len() as int).contains(x) by {
                    let i = choose|i: int| 0 <= i < unit_added.len() && unit_added[i] == x;
                    assert(now.skip(queued.len() as int)[before.len() - queued.len() + i] == x);
                }
                assert(unit_pair_queued(m, kind, u as int, unit_added));
                lemma_pair_queued_grows(m, kind, u as int, unit_added, now.skip(queued.len() as int));
            }
            assert forall|i: int| 0 <= i < before.len() implies now[i] == before[i] by {
                assert(now.subrange(0, before.len() as int)[i] == now[i]);
            }
            assert(now.subrange(0, queued.len() as int) =~= queued) by {
                assert forall|i: int| 0 <= i < queued.len() implies now[i] == queued[i] by {
                    assert(before.subrange(0, queued.len() as int)[i] == before[i]);
                }
            }
            if found {
                let (p, q) = choose|p: int, q: int| #[trigger] pair_found(m, kind, u as int, p, q)
                    && pair_requests(m, kind, u as int, p, q, now.skip(before.len() as int));
                let added = now.skip(before.len() as int);
                lemma_pair_requests_sound(m, kind, u as int, p, q, added);
                lemma_pair_effective(m, kind, u as int, p, q, added);
                let t = choose|t: int| 0 <= t < added.len() && effective(m, #[trigger] added[t]);
                assert(now[before.len() + t] == added[t]);
                assert forall|i: int| queued.len() <= i < now.len() implies pair_sound(m, kind, #[trigger] now[i]) by {
                    if i >= before.len() {
                        assert(now[i] == added[i - before.len()]);
                    }
                }
            } else {
                assert(now.len() == before.len());
                if !updates {
                    assert forall|u2: int, p: int, q: int| u2 < u + 1 implies !#[trigger] pair_found(m, kind, u2, p, q) by {
                        if u2 == u {
                            assert(!pair_found(m, kind, u as int, p, q));
                        } else {
                            assert(u2 < u);
                        }
                    }
                }
                if updates {
                    let t = choose|t: int| queued.len() <= t < before.len() && effective(m, #[trigger] before[t]);
                    assert(now[t] == before[t]);
                }
            }
        }
        updates = updates || found;
        u += 1;
    }
    assert forall|u2: int| 0 <= u2 < 9 && #[trigger] unit_has_pair(m, kind, u2)
        implies unit_pair_queued(m, kind, u2, ioManager.pending().skip(queued.len() as int)) by {}
    updates
}

/// Looks for a naked pair in each row and queues the removal of its values
/// from the other cells of that row. Returns whether it queued anything.
pub fn findHorizontalNakedPairs(ioManager: &mut sudokuIOManager) -> (updates: bool)
    requires
        old(ioManager).valid(),
    ensures
        final(ioManager).valid(),
        final(ioManager).sudokuVar == old(ioManager).sudokuVar,
        extends(final(ioManager).pending(), old(ioManager).pending()),
        forall|i: int| old(ioManager).pending().len() <= i < final(ioManager).pending().len()
            ==> pair_sound(old(ioManager).sudokuVar.sudokuMatrix, UnitKind::Row, #[trigger] final(ioManager).pending()[i]),
        updates == (final(ioManager).pending().len() > old(ioManager).pending().len()),
        !updates <==> forall|u: int, p: int, q: int| !#[trigger] pair_found(old(ioManager).sudokuVar.sudokuMatrix, UnitKind::Row, u, p, q),
        updates ==> exists|t: int| old(ioManager).pending().len() <= t < final(ioManager).pending().len()
            && effective(old(ioManager).sudokuVar.sudokuMatrix, #[trigger] final(ioManager).pending()[t]),
        pairs_queued(
            old(ioManager).sudokuVar.sudokuMatrix,
            UnitKind::Row,
            final(ioManager).pending().skip(old(ioManager).pending().len() as int),
        ),
        final(ioManager).pending() == old(ioManager).pending() + pair_requests_upto(old(ioManager).sudokuVar.sudokuMatrix, UnitKind::Row, 9),
{
    find_pairs_in_units(ioManager, UnitKind::Row)
}

/// Looks for a naked pair in each column and queues the removal of its values
/// from the other cells of that column. Returns whether it queued anything.
pub fn findVerticalNakedPairs(ioManager: &mut sudokuIOManager) -> (updates: bool)
    requires
        old(ioManager).valid(),
    ensures
        final(ioManager).valid(),
        final(ioManager).sudokuVar == old(ioManager).sudokuVar,
        extends(final(ioManager).pending(), old(ioManager).pending()),
        forall|i: int| old(ioManager).pending().len() <= i < final(ioManager).pending().len()
            ==> pair_sound(old(ioManager).sudokuVar.sudokuMatrix, UnitKind::Column, #[trigger] final(ioManager).pending()[i]),
        updates == (final(ioManager).pending().len() > old(ioManager).pending().len()),
        !updates <==> forall|u: int, p: int, q: int| !#[trigger] pair_found(old(ioManager).sudokuVar.sudokuMatrix, UnitKind::Column, u, p, q),
        updates ==> exists|t: int| old(ioManager).pending().len() <= t < final(ioManager).pending().len()
            && effective(old(ioManager).sudokuVar.sudokuMatrix, #[trigger] final(ioManager).pending()[t]),
        pairs_queued(
            old(ioManager).sudokuVar.sudokuMatrix,
            UnitKind::Column,
            final(ioManager).pending().skip(old(ioManager).pending().len() as int),
        ),
        final(ioManager).pending() == old(ioManager).pending() + pair_requests_upto(old(ioManager).sudokuVar.sudokuMatrix, UnitKind::Column, 9),
{
    find_pairs_in_units(ioManager, UnitKind::Column)
}

/// Looks for a naked pair in each box and queues the removal of its values
/// from the other cells of that box. Returns whether it queued anything.
pub fn findBoxesNakedPairs(ioManager: &mut sudokuIOManager) -> (updates: bool)
    requires
        old(ioManager).valid(),
    ensures
        final(ioManager).valid(),
        final(ioManager).sudokuVar == old(ioManager).sudokuVar,
        extends(final(ioManager).pending(), old(ioManager).pending()),
        forall|i: int| old(ioManager).pending().len() <= i < final(ioManager).pending().len()
            ==> pair_sound(old(ioManager).sudokuVar.sudokuMatrix, UnitKind::Box, #[trigger] final(ioManager).pending()[i]),
        updates == (final(ioManager).pending().len() > old(ioManager).pending().len()),
        !updates <==> forall|u: int, p: int, q: int| !#[trigger] pair_found(old(ioManager).sudokuVar.sudokuMatrix, UnitKind::Box, u, p, q),
        updates ==> exists|t: int| old(ioManager).pending().len() <= t < final(ioManager).pending().len()
            && effective(old(ioManager).sudokuVar.sudokuMatrix, #[trigger] final(ioManager).pending()[t]),
        pairs_queued(
            old(ioManager).sudokuVar.sudokuMatrix,
            UnitKind::Box,
            final(ioManager).pending().skip(old(ioManager).pending().len() as int),
        ),
        final(ioManager).pending() == old(ioManager).pending() + pair_requests_upto(old(ioManager).sudokuVar.sudokuMatrix, UnitKind::Box, 9),
{
    find_pairs_in_units(ioManager, UnitKind::Box)
}

/// No row, column or box holds a naked pair with a victim.
pub open spec fn pair_closed(m: Matrix) -> bool {
    forall|kind: UnitKind, u: int, p: int, q: int| !#[trigger] pair_found(m, kind, u, p, q)
}

/// Runs the three pair finders and applies what they queued, followed by
/// constraint elimination, until a round finds no pair with a victim.
pub fn findNakedPairs(ioManager: &mut sudokuIOManager)
    requires
        old(ioManager).valid(),
        old(ioManager).pending().len() == 0,
    ensures
        final(ioManager).valid(),
        final(ioManager).pending().len() == 0,
        refines(final(ioManager).sudokuVar.sudokuMatrix, old(ioManager).sudokuVar.sudokuMatrix),
        count(final(ioManager).sudokuVar.sudokuMatrix) <= count(old(ioManager).sudokuVar.sudokuMatrix),
        pair_closed(final(ioManager).sudokuVar.sudokuMatrix),
        closed(old(ioManager).sudokuVar.sudokuMatrix) ==> closed(final(ioManager).sudokuVar.sudokuMatrix),
        keeps_solutions(old(ioManager).sudokuVar.sudokuMatrix, final(ioManager).sudokuVar.sudokuMatrix),
        reduced_from(old(ioManager).sudokuVar.sudokuMatrix, final(ioManager).sudokuVar.sudokuMatrix, false),
{
    let ghost start = ioManager.sudokuVar.sudokuMatrix;
    let ghost mut trace: Seq<sudokuDeleteNumber> = Seq::empty();
    let mut horizontalUpdates = true;
    let mut verticalUpdates = true;
    let mut boxesUpdates = true;
    while horizontalUpdates || verticalUpdates || boxesUpdates
        invariant
            ioManager.valid(),
            ioManager.pending().len() == 0,
            refines(ioManager.sudokuVar.sudokuMatrix, start),
            count(ioManager.sudokuVar.sudokuMatrix) <= count(start),
            closed(start) ==> closed(ioManager.sudokuVar.sudokuMatrix),
            !(horizontalUpdates || verticalUpdates || boxesUpdates) ==> pair_closed(ioManager.sudokuVar.sudokuMatrix),
            keeps_solutions(start, ioManager.sudokuVar.sudokuMatrix),
            justified_reduction(model(start), trace, false),
            apply_requests(model(start), trace) == model(ioManager.sudokuVar.sudokuMatrix),
        decreases count(ioManager.sudokuVar.sudokuMatrix) + if horizontalUpdates || verticalUpdates || boxesUpdates {
            1int
        } else {
            0int
        },
    {
        let ghost g = ioManager.sudokuVar.sudokuMatrix;
        horizontalUpdates = findHorizontalNakedPairs(ioManager);
        let ghost after_rows = ioManager.pending();
        verticalUpdates = findVerticalNakedPairs(ioManager);
        let ghost after_columns = ioManager.pending();
        boxesUpdates = findBoxesNakedPairs(ioManager);
        let ghost after_boxes = ioManager.pending();
        proof {
            assert forall|i: int| 0 <= i < after_rows.len() implies after_boxes[i] == after_rows[i] by {
                assert(after_boxes.subrange(0, after_columns.len() as int)[i] == after_boxes[i]);
                assert(after_columns.subrange(0, after_rows.len() as int)[i] == after_columns[i]);
            }
            assert forall|i: int| 0 <= i < after_columns.len() implies after_boxes[i] == after_columns[i] by {
                assert(after_boxes.subrange(0, after_columns.len() as int)[i] == after_boxes[i]);
            }
            if horizontalUpdates {
                let t = choose|t: int| 0 <= t < after_rows.len() && effective(g, #[trigger] after_rows[t]);
                assert(effective(g, after_boxes[t]));
            } else if verticalUpdates {
                let t = choose|t: int| after_rows.len() <= t < after_columns.len() && effective(g, #[trigger] after_columns[t]);
                assert(effective(g, after_boxes[t]));
            } else if boxesUpdates {
                let t = choose|t: int| after_columns.len() <= t < after_boxes.len() && effective(g, #[trigger] after_boxes[t]);
            } else {
                assert forall|kind: UnitKind, u: int, p: int, q: int| !#[trigger] pair_found(g, kind, u, p, q) by {
                    match kind {
                        UnitKind::Row => {},
                        UnitKind::Column => {},
                        UnitKind::Box => {},
                    }
                }
            }
        }
        Run(ioManager);
        proof {
            let now = ioManager.sudokuVar.sudokuMatrix;
            assert forall|sol: Matrix| is_solution(sol) && #[trigger] refines(sol, start) implies refines(sol, now) by {
                assert(refines(sol, g));
                assert forall|t: int| 0 <= t < after_boxes.len() implies !cell(sol, after_boxes[t].row as int, after_boxes[t].column as int).contains(#[trigger] after_boxes[t].value) by {
                    if t < after_rows.len() {
                        assert(after_boxes[t] == after_rows[t]);
                        lemma_pair_spared(g, sol, UnitKind::Row, after_boxes[t]);
                    } else if t < after_columns.len() {
                        assert(after_boxes[t] == after_columns[t]);
                        lemma_pair_spared(g, sol, UnitKind::Column, after_boxes[t]);
                    } else {
                        lemma_pair_spared(g, sol, UnitKind::Box, after_boxes[t]);
                    }
                }
                lemma_spared_solution_kept(g, now, after_boxes, sol);
            }
            let rq = after_boxes;
            assert forall|t: int| 0 <= t < rq.len() implies justified_by(model(g), #[trigger] rq[t], false) by {
                if t < after_rows.len() {
                    assert(rq[t] == after_rows[t]);
                    lemma_pair_in_sets(g, UnitKind::Row, rq[t]);
                } else if t < after_columns.len() {
                    assert(rq[t] == after_columns[t]);
                    lemma_pair_in_sets(g, UnitKind::Column, rq[t]);
                } else {
                    lemma_pair_in_sets(g, UnitKind::Box, rq[t]);
                }
            }
            lemma_round_reduction(model(g), rq, false);
            lemma_reduction_concat(model(start), trace, rq, false);
            lemma_apply_concat(model(start), trace, rq);
            trace = trace + rq;
            lemma_count_nonneg(now, 81);
            if !(horizontalUpdates || verticalUpdates || boxesUpdates) {
                assert(after_boxes.len() == 0);
            }
            assert forall|r: int, c: int, x: i8| in_grid(r, c) && #[trigger] cell(now, r, c).contains(x)
                implies cell(start, r, c).contains(x) by {
                assert(cell(g, r, c).contains(x));
            }
        }
        if horizontalUpdates || verticalUpdates || boxesUpdates {
            let ghost mid = ioManager.sudokuVar.sudokuMatrix;
            constraintsElimination(ioManager);
            proof {
                let now = ioManager.sudokuVar.sudokuMatrix;
                lemma_elimination_reduction(mid, now, false);
                let ce = choose|ce: Seq<sudokuDeleteNumber>| justified_reduction(model(mid), ce, false)
                    && #[trigger] apply_requests(model(mid), ce) == model(now);
                lemma_reduction_concat(model(start), trace, ce, false);
                lemma_apply_concat(model(start), trace, ce);
                trace = trace + ce;
                lemma_count_nonneg(now, 81);
                assert forall|r: int, c: int, x: i8| in_grid(r, c) && #[trigger] cell(now, r, c).contains(x)
                    implies cell(start, r, c).contains(x) by {
                    assert(cell(mid, r, c).contains(x));
                }
                assert forall|sol: Matrix| is_solution(sol) && #[trigger] refines(sol, start) implies refines(sol, now) by {
                    assert(refines(sol, mid));
                }
            }
        }
    }
    assert(apply_requests(model(start), trace) == model(ioManager.sudokuVar.sudokuMatrix));
}

} // verus!
