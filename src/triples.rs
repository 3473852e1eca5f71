//! Naked triples: three cells of a unit, each with two or three candidates,
//! that hold three values between them take those values out of every other
//! cell of the unit.
use vstd::prelude::*;
use crate::combine::{combos, getCombinations, lemma_triple_complete, lemma_triple_members, views};
use crate::constraints::{closed, constraintsElimination};
use crate::grid::{
    cell, checkSliceElement, contains, count, in_grid, is_solution, keeps_solutions, lemma_count_nonneg,
    lemma_solution_unit_distinct, lemma_unit_cells, Matrix, model, refines, ucell, unit_cell, unit_col,
    unit_row, UnitKind,
};
use crate::pairs::{extends, findNakedPairs, pair_closed, positions, positions_with_len};
use crate::reduction::{
    justified_by, justified_reduction, lemma_elimination_reduction, lemma_reduction_concat,
    lemma_reduction_widen, lemma_round_reduction, lemma_triple_in_sets, reduced_from,
};
use crate::store::{
    apply_requests, effective, lemma_apply_concat, lemma_spared_solution_kept, request_in_grid, Run,
    sudokuDeleteNumber, sudokuIOManager,
};

verus! {

/// `x` is a candidate of cell `p`, `q` or `s` of unit `u`.
pub open spec fn in_union(m: Matrix, kind: UnitKind, u: int, p: int, q: int, s: int, x: i8) -> bool {
    ucell(m, kind, u, p).contains(x) || ucell(m, kind, u, q).contains(x) || ucell(m, kind, u, s).contains(x)
}

/// `vals` lists, once each, exactly the candidates of cells `p`, `q` and `s`.
pub open spec fn union_values(m: Matrix, kind: UnitKind, u: int, p: int, q: int, s: int, vals: Seq<i8>) -> bool {
    &&& vals.no_duplicates()
    &&& forall|x: i8| #[trigger] vals.contains(x) <==> in_union(m, kind, u, p, q, s, x)
}

/// The cell holds two or three candidates.
pub open spec fn two_or_three(c: Seq<i8>) -> bool {
    c.len() == 2 || c.len() == 3
}

/// Cells `p` < `q` < `s` of unit `u` each hold two or three candidates, and
/// three values between them.
pub open spec fn naked_triple(m: Matrix, kind: UnitKind, u: int, p: int, q: int, s: int) -> bool {
    &&& 0 <= u < 9
    &&& 0 <= p < q < s < 9
    &&& two_or_three(ucell(m, kind, u, p))
    &&& two_or_three(ucell(m, kind, u, q))
    &&& two_or_three(ucell(m, kind, u, s))
    &&& exists|vals: Seq<i8>| vals.len() == 3 && #[trigger] union_values(m, kind, u, p, q, s, vals)
}

/// Cell `k` of unit `u` lies outside the triple, is undetermined, and admits
/// a value of the triple.
pub open spec fn triple_victim(m: Matrix, kind: UnitKind, u: int, p: int, q: int, s: int, k: int) -> bool {
    &&& 0 <= k < 9
    &&& k != p
    &&& k != q
    &&& k != s
    &&& ucell(m, kind, u, k).len() > 1
    &&& exists|x: i8| #[trigger] ucell(m, kind, u, k).contains(x) && in_union(m, kind, u, p, q, s, x)
}

/// A naked triple with at least one cell to take its values from.
pub open spec fn triple_found(m: Matrix, kind: UnitKind, u: int, p: int, q: int, s: int) -> bool {
    naked_triple(m, kind, u, p, q, s) && exists|k: int| #[trigger] triple_victim(m, kind, u, p, q, s, k)
}

/// The request takes value `x` out of cell `k` of unit `u`.
pub open spec fn triple_request(kind: UnitKind, u: int, k: int, x: i8) -> sudokuDeleteNumber {
    sudokuDeleteNumber { row: unit_row(kind, u, k) as i8, column: unit_col(kind, u, k) as i8, value: x }
}

/// The request takes a value of the triple out of one of its victims.
pub open spec fn from_triple(m: Matrix, kind: UnitKind, u: int, p: int, q: int, s: int, d: sudokuDeleteNumber) -> bool {
    exists|k: int, x: i8| triple_victim(m, kind, u, p, q, s, k) && in_union(m, kind, u, p, q, s, x)
        && d == #[trigger] triple_request(kind, u, k, x)
}

/// The requests are exactly: each value of the triple, out of each victim.
pub open spec fn triple_requests(m: Matrix, kind: UnitKind, u: int, p: int, q: int, s: int, added: Seq<sudokuDeleteNumber>) -> bool {
    &&& forall|i: int| 0 <= i < added.len() ==> from_triple(m, kind, u, p, q, s, #[trigger] added[i])
    &&& forall|k: int, x: i8| triple_victim(m, kind, u, p, q, s, k) && in_union(m, kind, u, p, q, s, x)
        ==> added.contains(#[trigger] triple_request(kind, u, k, x))
}

/// The request takes a value of a naked triple of a unit of the kind out of
/// a cell of that unit outside the triple.
pub open spec fn triple_sound(m: Matrix, kind: UnitKind, d: sudokuDeleteNumber) -> bool {
    exists|u: int, p: int, q: int, s: int| naked_triple(m, kind, u, p, q, s) && #[trigger] from_triple(m, kind, u, p, q, s, d)
}

/// No row, column or box holds a naked triple with a victim.
pub open spec fn triple_closed(m: Matrix) -> bool {
    forall|kind: UnitKind, u: int, p: int, q: int, s: int| !#[trigger] triple_found(m, kind, u, p, q, s)
}

/// `vals` with `x` appended unless it is already there.
pub open spec fn add_value(vals: Seq<i8>, x: i8) -> Seq<i8> {
    if vals.contains(x) {
        vals
    } else {
        vals.push(x)
    }
}

/// `vals` with the third candidate of `c` added, if `c` has one.
pub open spec fn add_third(vals: Seq<i8>, c: Seq<i8>) -> Seq<i8> {
    if c.len() == 3 {
        add_value(vals, c[2])
    } else {
        vals
    }
}

/// The candidates of cells `p`, `q` and `s` of unit `u`, each once, in the
/// order the finder meets them: the first candidate of each cell, then the
/// second of each, then the third of each that has one.
pub open spec fn triple_values(m: Matrix, kind: UnitKind, u: int, p: int, q: int, s: int) -> Seq<i8> {
    let cp = ucell(m, kind, u, p);
    let cq = ucell(m, kind, u, q);
    let cs = ucell(m, kind, u, s);
    add_third(
        add_third(
            add_third(
                add_value(add_value(add_value(add_value(add_value(add_value(seq![], cp[0]), cq[0]), cs[0]), cp[1]), cq[1]), cs[1]),
                cp,
            ),
            cq,
        ),
        cs,
    )
}

/// The combinations of three cells of unit `u` that the finder tries, in
/// order: those of the cells with two or three candidates.
pub open spec fn triple_list(m: Matrix, kind: UnitKind, u: int) -> Seq<Seq<i8>> {
    combos(positions(m, kind, u, 2, 3), 3, 0)
}

/// Combination `w` is the first of the list that is a naked triple with a victim.
pub open spec fn first_triple(m: Matrix, kind: UnitKind, u: int, w: int) -> bool {
    &&& 0 <= w < triple_list(m, kind, u).len()
    &&& triple_found(m, kind, u, triple_list(m, kind, u)[w][0] as int, triple_list(m, kind, u)[w][1] as int, triple_list(m, kind, u)[w][2] as int)
    &&& forall|w2: int| 0 <= w2 < w ==> !triple_found(m, kind, u, #[trigger] triple_list(m, kind, u)[w2][0] as int,
        triple_list(m, kind, u)[w2][1] as int, triple_list(m, kind, u)[w2][2] as int)
}

/// The three values `vals` out of each victim of the triple among the first
/// `k` cells of the unit, in order.
pub open spec fn triple_targets(m: Matrix, kind: UnitKind, u: int, p: int, q: int, s: int, vals: Seq<i8>, k: int) -> Seq<sudokuDeleteNumber>
    decreases k,
{
    if k <= 0 {
        seq![]
    } else {
        triple_targets(m, kind, u, p, q, s, vals, k - 1) + if triple_victim(m, kind, u, p, q, s, k - 1) {
            seq![triple_request(kind, u, k - 1, vals[0]), triple_request(kind, u, k - 1, vals[1]), triple_request(kind, u, k - 1, vals[2])]
        } else {
            seq![]
        }
    }
}

/// What the finder queues for unit `u`: the removals of the first triple in
/// the list that has a victim, or nothing.
pub open spec fn unit_triple_requests(m: Matrix, kind: UnitKind, u: int) -> Seq<sudokuDeleteNumber> {
    if exists|w: int| first_triple(m, kind, u, w) {
        let w = choose|w: int| first_triple(m, kind, u, w);
        let c = triple_list(m, kind, u)[w];
        triple_targets(m, kind, u, c[0] as int, c[1] as int, c[2] as int, triple_values(m, kind, u, c[0] as int, c[1] as int, c[2] as int), 9)
    } else {
        seq![]
    }
}

/// What the finder queues for the first `u` units of the kind, in order.
pub open spec fn triple_requests_upto(m: Matrix, kind: UnitKind, u: int) -> Seq<sudokuDeleteNumber>
    decreases u,
{
    if u <= 0 {
        seq![]
    } else {
        triple_requests_upto(m, kind, u - 1) + unit_triple_requests(m, kind, u - 1)
    }
}

proof fn lemma_first_triple_unique(m: Matrix, kind: UnitKind, u: int, w: int)
    requires
        first_triple(m, kind, u, w),
    ensures
        unit_triple_requests(m, kind, u) == triple_targets(m, kind, u, triple_list(m, kind, u)[w][0] as int,
            triple_list(m, kind, u)[w][1] as int, triple_list(m, kind, u)[w][2] as int, triple_values(m, kind, u,
            triple_list(m, kind, u)[w][0] as int, triple_list(m, kind, u)[w][1] as int, triple_list(m, kind, u)[w][2] as int), 9),
{
    let l = triple_list(m, kind, u);
    assert forall|w2: int| #[trigger] first_triple(m, kind, u, w2) implies w2 == w by {
        if w2 < w {
            assert(!triple_found(m, kind, u, l[w2][0] as int, l[w2][1] as int, l[w2][2] as int));
        } else if w2 > w {
            assert(!triple_found(m, kind, u, l[w][0] as int, l[w][1] as int, l[w][2] as int));
        }
    }
}

/// The candidates of a cell with two or three of them.
proof fn lemma_cell_members(c: Seq<i8>)
    requires
        two_or_three(c),
    ensures
        forall|y: i8| c.contains(y) <==> (y == c[0] || y == c[1] || (c.len() == 3 && y == c[2])),
{
    assert forall|y: i8| c.contains(y) implies (y == c[0] || y == c[1] || (c.len() == 3 && y == c[2])) by {
        let i = choose|i: int| 0 <= i < c.len() && c[i] == y;
    }
    assert(c.contains(c[0]));
    assert(c.contains(c[1]));
    if c.len() == 3 {
        assert(c.contains(c[2]));
    }
}

/// Appends `x` unless it is already there.
fn add_unique(values: &mut Vec<i8>, x: i8)
    requires
        old(values)@.no_duplicates(),
    ensures
        final(values)@.no_duplicates(),
        forall|y: i8| #[trigger] final(values)@.contains(y) <==> (old(values)@.contains(y) || y == x),
        final(values)@ == add_value(old(values)@, x),
{
    if !contains(values, x) {
        let ghost prev = values@;
        values.push(x);
        proof {
            assert(values@ == prev.push(x));
            assert forall|y: i8| #[trigger] values@.contains(y) <==> (prev.contains(y) || y == x) by {
                if values@.contains(y) {
                    let i = choose|i: int| 0 <= i < values@.len() && values@[i] == y;
                    if i < prev.len() {
                        assert(prev[i] == y);
                    }
                }
                if prev.contains(y) {
                    let i = choose|i: int| 0 <= i < prev.len() && prev[i] == y;
                    assert(values@[i] == y);
                }
                if y == x {
                    assert(values@[prev.len() as int] == y);
                }
            }
        }
    }
}

proof fn lemma_add_value(vals: Seq<i8>, x: i8)
    requires
        vals.no_duplicates(),
    ensures
        add_value(vals, x).no_duplicates(),
        forall|y: i8| #[trigger] add_value(vals, x).contains(y) <==> (vals.contains(y) || y == x),
{
    if !vals.contains(x) {
        let w = vals.push(x);
        assert forall|y: i8| #[trigger] w.contains(y) <==> (vals.contains(y) || y == x) by {
            if w.contains(y) {
                let i = choose|i: int| 0 <= i < w.len() && w[i] == y;
                if i < vals.len() {
                    assert(vals[i] == y);
                }
            }
            if vals.contains(y) {
                let i = choose|i: int| 0 <= i < vals.len() && vals[i] == y;
                assert(w[i] == y);
            }
            assert(w[vals.len() as int] == x);
        }
    }
}

/// The values of a triple are its union, each once.
proof fn lemma_triple_values_union(m: Matrix, kind: UnitKind, u: int, p: int, q: int, s: int)
    requires
        two_or_three(ucell(m, kind, u, p)),
        two_or_three(ucell(m, kind, u, q)),
        two_or_three(ucell(m, kind, u, s)),
    ensures
        union_values(m, kind, u, p, q, s, triple_values(m, kind, u, p, q, s)),
{
    let cp = ucell(m, kind, u, p);
    let cq = ucell(m, kind, u, q);
    let cs = ucell(m, kind, u, s);
    lemma_cell_members(cp);
    lemma_cell_members(cq);
    lemma_cell_members(cs);
    let a1 = add_value(seq![], cp[0]);
    let a2 = add_value(a1, cq[0]);
    let a3 = add_value(a2, cs[0]);
    let a4 = add_value(a3, cp[1]);
    let a5 = add_value(a4, cq[1]);
    let a6 = add_value(a5, cs[1]);
    lemma_add_value(seq![], cp[0]);
    lemma_add_value(a1, cq[0]);
    lemma_add_value(a2, cs[0]);
    lemma_add_value(a3, cp[1]);
    lemma_add_value(a4, cq[1]);
    lemma_add_value(a5, cs[1]);
    let a7 = add_third(a6, cp);
    if cp.len() == 3 {
        lemma_add_value(a6, cp[2]);
    }
    let a8 = add_third(a7, cq);
    if cq.len() == 3 {
        lemma_add_value(a7, cq[2]);
    }
    let a9 = add_third(a8, cs);
    if cs.len() == 3 {
        lemma_add_value(a8, cs[2]);
    }
    assert(a9 == triple_values(m, kind, u, p, q, s));
}

/// What `triple_targets` holds: requests of the triple only, all of them,
/// and some exactly when the triple has a victim.
proof fn lemma_triple_targets_facts(m: Matrix, kind: UnitKind, u: int, p: int, q: int, s: int, vals: Seq<i8>, k: int)
    requires
        vals.len() == 3,
        forall|x: i8| in_union(m, kind, u, p, q, s, x) <==> (x == vals[0] || x == vals[1] || x == vals[2]),
    ensures
        forall|i: int| 0 <= i < triple_targets(m, kind, u, p, q, s, vals, k).len()
            ==> from_triple(m, kind, u, p, q, s, #[trigger] triple_targets(m, kind, u, p, q, s, vals, k)[i]),
        forall|k2: int, x: i8| 0 <= k2 < k && triple_victim(m, kind, u, p, q, s, k2) && in_union(m, kind, u, p, q, s, x)
            ==> triple_targets(m, kind, u, p, q, s, vals, k).contains(#[trigger] triple_request(kind, u, k2, x)),
        triple_targets(m, kind, u, p, q, s, vals, k).len() > 0 <==> exists|k2: int| 0 <= k2 < k && #[trigger] triple_victim(m, kind, u, p, q, s, k2),
    decreases k,
{
    if k > 0 {
        lemma_triple_targets_facts(m, kind, u, p, q, s, vals, k - 1);
        let prev = triple_targets(m, kind, u, p, q, s, vals, k - 1);
        let cur = triple_targets(m, kind, u, p, q, s, vals, k);
        assert(in_union(m, kind, u, p, q, s, vals[0]));
        assert(in_union(m, kind, u, p, q, s, vals[1]));
        assert(in_union(m, kind, u, p, q, s, vals[2]));
        assert forall|i: int| 0 <= i < cur.len() implies from_triple(m, kind, u, p, q, s, #[trigger] cur[i]) by {
            if i < prev.len() {
                assert(cur[i] == prev[i]);
            } else {
                let j = i - prev.len();
                assert(cur[i] == triple_request(kind, u, k - 1, vals[j]));
            }
        }
        assert forall|k2: int, x: i8| 0 <= k2 < k && triple_victim(m, kind, u, p, q, s, k2) && in_union(m, kind, u, p, q, s, x)
            implies cur.contains(#[trigger] triple_request(kind, u, k2, x)) by {
            if k2 < k - 1 {
                let i = choose|i: int| 0 <= i < prev.len() && prev[i] == triple_request(kind, u, k2, x);
                assert(cur[i] == prev[i]);
            } else {
                let j = if x == vals[0] { 0int } else if x == vals[1] { 1int } else { 2int };
                assert(cur[prev.len() + j] == triple_request(kind, u, k2, x));
            }
        }
        if exists|k2: int| 0 <= k2 < k && #[trigger] triple_victim(m, kind, u, p, q, s, k2) {
            let k2 = choose|k2: int| 0 <= k2 < k && #[trigger] triple_victim(m, kind, u, p, q, s, k2);
            if k2 < k - 1 {
                assert(prev.len() > 0);
            }
        }
    }
}

/// Two lists without repeats of the same values have the same length.
proof fn lemma_same_values_same_len(a: Seq<i8>, b: Seq<i8>)
    requires
        a.no_duplicates(),
        b.no_duplicates(),
        forall|x: i8| a.contains(x) <==> b.contains(x),
    ensures
        a.len() == b.len(),
{
    a.unique_seq_to_set();
    b.unique_seq_to_set();
    assert(a.to_set() =~= b.to_set());
}

/// Queues, for each cell of unit `u` outside the naked triple (`p`, `q`, `s`)
/// that is undetermined and admits one of its values `v0`, `v1`, `v2`, the
/// removal of all three. Returns whether there was such a cell.
#[verifier::rlimit(100)]
fn queue_triple_removals(
    ioManager: &mut sudokuIOManager,
    kind: UnitKind,
    u: usize,
    firstValuePosition: usize,
    secondValuePosition: usize,
    thirdValuePosition: usize,
    v0: i8,
    v1: i8,
    v2: i8,
) -> (found: bool)
    requires
        old(ioManager).valid(),
        u < 9,
        naked_triple(old(ioManager).sudokuVar.sudokuMatrix, kind, u as int, firstValuePosition as int, secondValuePosition as int, thirdValuePosition as int),
        forall|x: i8| in_union(old(ioManager).sudokuVar.sudokuMatrix, kind, u as int, firstValuePosition as int, secondValuePosition as int, thirdValuePosition as int, x)
            <==> (x == v0 || x == v1 || x == v2),
    ensures
        final(ioManager).valid(),
        final(ioManager).sudokuVar == old(ioManager).sudokuVar,
        extends(final(ioManager).pending(), old(ioManager).pending()),
        found == (final(ioManager).pending().len() > old(ioManager).pending().len()),
        found <==> triple_found(old(ioManager).sudokuVar.sudokuMatrix, kind, u as int, firstValuePosition as int, secondValuePosition as int, thirdValuePosition as int),
        found ==> triple_requests(
            old(ioManager).sudokuVar.sudokuMatrix,
            kind,
            u as int,
            firstValuePosition as int,
            secondValuePosition as int,
            thirdValuePosition as int,
            final(ioManager).pending().skip(old(ioManager).pending().len() as int),
        ),
        final(ioManager).pending() == old(ioManager).pending() + triple_targets(old(ioManager).sudokuVar.sudokuMatrix, kind,
            u as int, firstValuePosition as int, secondValuePosition as int, thirdValuePosition as int, seq![v0, v1, v2], 9),
{
    let ghost m = ioManager.sudokuVar.sudokuMatrix;
    let ghost queued = ioManager.pending();
    let ghost mut added: Seq<sudokuDeleteNumber> = Seq::empty();
    let ghost (p, q, s) = (firstValuePosition as int, secondValuePosition as int, thirdValuePosition as int);
    let mut validCombination = false;
    let mut k: usize = 0;
    while k < 9
        invariant
            u < 9,
            k <= 9,
            firstValuePosition == p,
            secondValuePosition == q,
            thirdValuePosition == s,
            ioManager.valid(),
            ioManager.sudokuVar.sudokuMatrix == m,
            ioManager.pending() == queued + added,
            added == triple_targets(m, kind, u as int, p, q, s, seq![v0, v1, v2], k as int),
            forall|x: i8| in_union(m, kind, u as int, p, q, s, x) <==> (x == v0 || x == v1 || x == v2),
            validCombination <==> exists|k2: int| 0 <= k2 < k && #[trigger] triple_victim(m, kind, u as int, p, q, s, k2),
        decreases 9 - k,
    {
        let (ki, kj) = unit_cell(kind, u, k);
        proof {
            lemma_unit_cells(kind, u as int, k as int, k as int);
        }
        if k != firstValuePosition && k != secondValuePosition && k != thirdValuePosition && (checkSliceElement(
            &ioManager.sudokuVar.sudokuMatrix[ki][kj],
            v0,
        ) || checkSliceElement(&ioManager.sudokuVar.sudokuMatrix[ki][kj], v1) || checkSliceElement(
            &ioManager.sudokuVar.sudokuMatrix[ki][kj],
            v2,
        )) {
            proof {
                let x = if ucell(m, kind, u as int, k as int).contains(v0) { v0 } else if ucell(m, kind, u as int, k as int).contains(v1) { v1 } else { v2 };
                assert(ucell(m, kind, u as int, k as int).contains(x) && in_union(m, kind, u as int, p, q, s, x));
                assert(triple_victim(m, kind, u as int, p, q, s, k as int));
            }
            ioManager.DeleteNumber(ki as i8, kj as i8, v0);
            ioManager.DeleteNumber(ki as i8, kj as i8, v1);
            ioManager.DeleteNumber(ki as i8, kj as i8, v2);
            proof {
                added = added + seq![triple_request(kind, u as int, k as int, v0), triple_request(kind, u as int, k as int, v1),
                    triple_request(kind, u as int, k as int, v2)];
                assert(ioManager.pending() =~= queued + added);
                assert(added =~= triple_targets(m, kind, u as int, p, q, s, seq![v0, v1, v2], k + 1));
            }
            validCombination = true;
        } else {
            proof {
                if triple_victim(m, kind, u as int, p, q, s, k as int) {
                    let x = choose|x: i8| #[trigger] ucell(m, kind, u as int, k as int).contains(x) && in_union(m, kind, u as int, p, q, s, x);
                    assert(x == v0 || x == v1 || x == v2);
                }
                assert(added =~= triple_targets(m, kind, u as int, p, q, s, seq![v0, v1, v2], k + 1));
            }
        }
        k += 1;
    }
    proof {
        lemma_triple_targets_facts(m, kind, u as int, p, q, s, seq![v0, v1, v2], 9);
        assert(ioManager.pending().skip(queued.len() as int) =~= added);
        assert(ioManager.pending().subrange(0, queued.len() as int) =~= queued);
        if validCombination {
            assert(triple_found(m, kind, u as int, p, q, s));
        }
    }
    validCombination
}

/// The candidates of cells `p`, `q` and `s` of unit `u`, each once, in the
/// order the finder meets them.
fn triple_union(m: &Matrix, kind: UnitKind, u: usize, p: usize, q: usize, s: usize) -> (values: Vec<i8>)
    requires
        u < 9,
        p < 9,
        q < 9,
        s < 9,
        two_or_three(ucell(*m, kind, u as int, p as int)),
        two_or_three(ucell(*m, kind, u as int, q as int)),
        two_or_three(ucell(*m, kind, u as int, s as int)),
    ensures
        values@ == triple_values(*m, kind, u as int, p as int, q as int, s as int),
        union_values(*m, kind, u as int, p as int, q as int, s as int, values@),
{
    let (pi, pj) = unit_cell(kind, u, p);
    let (qi, qj) = unit_cell(kind, u, q);
    let (si, sj) = unit_cell(kind, u, s);
    let mut values: Vec<i8> = Vec::new();
    let mut t: usize = 0;
    while t < 2
        invariant
            t <= 2,
            pi < 9 && pj < 9 && qi < 9 && qj < 9 && si < 9 && sj < 9,
            two_or_three(cell(*m, pi as int, pj as int)),
            two_or_three(cell(*m, qi as int, qj as int)),
            two_or_three(cell(*m, si as int, sj as int)),
            values@.no_duplicates(),
            t == 0 ==> values@ == Seq::<i8>::empty(),
            t == 1 ==> values@ == add_value(add_value(add_value(seq![], cell(*m, pi as int, pj as int)[0]),
                cell(*m, qi as int, qj as int)[0]), cell(*m, si as int, sj as int)[0]),
            t == 2 ==> values@ == add_value(add_value(add_value(add_value(add_value(add_value(seq![],
                cell(*m, pi as int, pj as int)[0]), cell(*m, qi as int, qj as int)[0]), cell(*m, si as int, sj as int)[0]),
                cell(*m, pi as int, pj as int)[1]), cell(*m, qi as int, qj as int)[1]), cell(*m, si as int, sj as int)[1]),
        decreases 2 - t,
    {
        add_unique(&mut values, m[pi][pj][t]);
        add_unique(&mut values, m[qi][qj][t]);
        add_unique(&mut values, m[si][sj][t]);
        t += 1;
    }
    if m[pi][pj].len() == 3 {
        add_unique(&mut values, m[pi][pj][2]);
    }
    if m[qi][qj].len() == 3 {
        add_unique(&mut values, m[qi][qj][2]);
    }
    if m[si][sj].len() == 3 {
        add_unique(&mut values, m[si][sj][2]);
    }
    proof {
        assert(values@ == triple_values(*m, kind, u as int, p as int, q as int, s as int));
        lemma_triple_values_union(*m, kind, u as int, p as int, q as int, s as int);
    }
    values
}

/// Looks in unit `u` for the first naked triple, in the order of
/// combinations, that has a victim, and queues the removal of its three
/// values from each victim. Returns whether it queued anything.
#[verifier::rlimit(50)]
fn find_triple_in_unit(ioManager: &mut sudokuIOManager, kind: UnitKind, u: usize) -> (found: bool)
    requires
        old(ioManager).valid(),
        u < 9,
    ensures
        final(ioManager).valid(),
        final(ioManager).sudokuVar == old(ioManager).sudokuVar,
        extends(final(ioManager).pending(), old(ioManager).pending()),
        found == (final(ioManager).pending().len() > old(ioManager).pending().len()),
        !found <==> forall|p: int, q: int, s: int| !#[trigger] triple_found(old(ioManager).sudokuVar.sudokuMatrix, kind, u as int, p, q, s),
        found ==> exists|p: int, q: int, s: int| #[trigger] triple_found(old(ioManager).sudokuVar.sudokuMatrix, kind, u as int, p, q, s)
            && triple_requests(
            old(ioManager).sudokuVar.sudokuMatrix,
            kind,
            u as int,
            p,
            q,
            s,
            final(ioManager).pending().skip(old(ioManager).pending().len() as int),
        ),
        final(ioManager).pending() == old(ioManager).pending() + unit_triple_requests(old(ioManager).sudokuVar.sudokuMatrix, kind, u as int),
{
    let ghost m = ioManager.sudokuVar.sudokuMatrix;
    let ghost queued = ioManager.pending();
    let ghost mut added: Seq<sudokuDeleteNumber> = Seq::empty();
    let validCellsPosition = positions_with_len(&ioManager.sudokuVar.sudokuMatrix, kind, u, 2, 3);
    let ghost vs = validCellsPosition@;
    let mut validCombination = false;
    if validCellsPosition.len() > 2 {
        let combinationsList = getCombinations(validCellsPosition, 3, 0);
        proof {
            lemma_triple_members(vs);
        }
        let mut z: usize = 0;
        while z < combinationsList.len() && !validCombination
            invariant
                u < 9,
                z <= combinationsList@.len(),
                views(combinationsList@) == combos(vs, 3, 0),
                forall|c: Seq<i8>| #[trigger] combos(vs, 3, 0).contains(c) ==> c.len() == 3 && c[0] < c[1] && c[1] < c[2]
                    && vs.contains(c[0]) && vs.contains(c[1]) && vs.contains(c[2]),
                forall|t: int| 0 <= t < vs.len() ==> 0 <= #[trigger] vs[t] < 9 && two_or_three(ucell(m, kind, u as int, vs[t] as int)),
                ioManager.valid(),
                ioManager.sudokuVar.sudokuMatrix == m,
                ioManager.pending() == queued + added,
                !validCombination ==> added.len() == 0,
                !validCombination ==> forall|w: int| 0 <= w < z ==> !triple_found(m, kind, u as int,
                    #[trigger] combos(vs, 3, 0)[w][0] as int, combos(vs, 3, 0)[w][1] as int, combos(vs, 3, 0)[w][2] as int),
                validCombination ==> added.len() > 0 && exists|p: int, q: int, s: int| #[trigger] triple_found(m, kind, u as int, p, q, s)
                    && triple_requests(m, kind, u as int, p, q, s, added),
                vs == positions(m, kind, u as int, 2, 3),
                validCombination ==> added == unit_triple_requests(m, kind, u as int),
            decreases combinationsList@.len() - z,
        {
            let ghost c = combos(vs, 3, 0)[z as int];
            assert(views(combinationsList@)[z as int] == combinationsList@[z as int]@);
            assert(combos(vs, 3, 0).contains(c));
            let first = combinationsList[z][0];
            let second = combinationsList[z][1];
            let third = combinationsList[z][2];
            let firstValuePosition = first as usize;
            let secondValuePosition = second as usize;
            let thirdValuePosition = third as usize;
            let ghost (p, q, s) = (first as int, second as int, third as int);
            assert(two_or_three(ucell(m, kind, u as int, p)));
            assert(two_or_three(ucell(m, kind, u as int, q)));
            assert(two_or_three(ucell(m, kind, u as int, s)));
            let values = triple_union(&ioManager.sudokuVar.sudokuMatrix, kind, u, firstValuePosition, secondValuePosition, thirdValuePosition);
            assert(union_values(m, kind, u as int, p, q, s, values@));
            if values.len() == 3 {
                assert(naked_triple(m, kind, u as int, p, q, s));
                let v0 = values[0];
                let v1 = values[1];
                let v2 = values[2];
                assert forall|x: i8| in_union(m, kind, u as int, p, q, s, x) <==> (x == v0 || x == v1 || x == v2) by {
                    if values@.contains(x) {
                        let i = choose|i: int| 0 <= i < 3 && values@[i] == x;
                    }
                    assert(values@.contains(values@[0]));
                    assert(values@.contains(values@[1]));
                    assert(values@.contains(values@[2]));
                }
                validCombination = queue_triple_removals(ioManager, kind, u, firstValuePosition, secondValuePosition, thirdValuePosition, v0, v1, v2);
                proof {
                    let now = ioManager.pending();
                    assert(now.subrange(0, queued.len() as int) == queued);
                    assert(now.skip(queued.len() as int) =~= now.subrange(queued.len() as int, now.len() as int));
                    added = now.skip(queued.len() as int);
                    assert(now =~= queued + added);
                    if validCombination {
                        assert(triple_list(m, kind, u as int) == combos(vs, 3, 0));
                        assert(c[0] == first && c[1] == second && c[2] == third);
                        assert(first_triple(m, kind, u as int, z as int));
                        lemma_first_triple_unique(m, kind, u as int, z as int);
                        assert(seq![v0, v1, v2] =~= values@);
                    }
                }
            } else {
                proof {
                    if naked_triple(m, kind, u as int, p, q, s) {
                        let vals = choose|vals: Seq<i8>| vals.len() == 3 && #[trigger] union_values(m, kind, u as int, p, q, s, vals);
                        lemma_same_values_same_len(vals, values@);
                    }
                }
            }
            z += 1;
        }
        proof {
            if !validCombination {
                assert forall|p: int, q: int, s: int| !#[trigger] triple_found(m, kind, u as int, p, q, s) by {
                    if triple_found(m, kind, u as int, p, q, s) {
                        lemma_unit_cells(kind, u as int, p, q);
                        assert(vs.contains(p as i8));
                        assert(vs.contains(q as i8));
                        assert(vs.contains(s as i8));
                        let i = choose|i: int| 0 <= i < vs.len() && vs[i] == p as i8;
                        let j = choose|j: int| 0 <= j < vs.len() && vs[j] == q as i8;
                        let l = choose|l: int| 0 <= l < vs.len() && vs[l] == s as i8;
                        assert(i < j);
                        assert(j < l);
                        lemma_triple_complete(vs, i, j, l);
                        let w = choose|w: int| 0 <= w < combos(vs, 3, 0).len() && combos(vs, 3, 0)[w] == seq![vs[i], vs[j], vs[l]];
                        assert(combos(vs, 3, 0)[w][0] == p as i8);
                        assert(combos(vs, 3, 0)[w][1] == q as i8);
                        assert(combos(vs, 3, 0)[w][2] == s as i8);
                    }
                }
            }
        }
    } else {
        proof {
            assert forall|p: int, q: int, s: int| !#[trigger] triple_found(m, kind, u as int, p, q, s) by {
                if triple_found(m, kind, u as int, p, q, s) {
                    assert(vs.contains(p as i8));
                    assert(vs.contains(q as i8));
                    assert(vs.contains(s as i8));
                    let i = choose|i: int| 0 <= i < vs.len() && vs[i] == p as i8;
                    let j = choose|j: int| 0 <= j < vs.len() && vs[j] == q as i8;
                    let l = choose|l: int| 0 <= l < vs.len() && vs[l] == s as i8;
                    assert(i != j && j != l && i != l);
                }
            }
        }
    }
    proof {
        assert(ioManager.pending().skip(queued.len() as int) =~= added);
        assert(ioManager.pending().subrange(0, queued.len() as int) =~= queued);
        if !validCombination {
            let l = triple_list(m, kind, u as int);
            assert forall|w: int| !#[trigger] first_triple(m, kind, u as int, w) by {
                if first_triple(m, kind, u as int, w) {
                    assert(triple_found(m, kind, u as int, l[w][0] as int, l[w][1] as int, l[w][2] as int));
                }
            }
            assert(added =~= unit_triple_requests(m, kind, u as int));
        }
    }
    validCombination
}

/// The cell a triple request names lies outside the triple that justifies
/// it: the triple finders never take a candidate out of the triple's own cells.
pub proof fn lemma_triple_request_outside_triple(m: Matrix, kind: UnitKind, d: sudokuDeleteNumber)
    requires
        triple_sound(m, kind, d),
    ensures
        exists|u: int, p: int, q: int, s: int| #[trigger] naked_triple(m, kind, u, p, q, s) && from_triple(m, kind, u, p, q, s, d)
            && (d.row != unit_row(kind, u, p) || d.column != unit_col(kind, u, p))
            && (d.row != unit_row(kind, u, q) || d.column != unit_col(kind, u, q))
            && (d.row != unit_row(kind, u, s) || d.column != unit_col(kind, u, s)),
{
    let (u, p, q, s) = choose|u: int, p: int, q: int, s: int| naked_triple(m, kind, u, p, q, s) && #[trigger] from_triple(m, kind, u, p, q, s, d);
    let (k, x) = choose|k: int, x: i8| triple_victim(m, kind, u, p, q, s, k) && in_union(m, kind, u, p, q, s, x)
        && d == #[trigger] triple_request(kind, u, k, x);
    lemma_unit_cells(kind, u, k, p);
    lemma_unit_cells(kind, u, k, q);
    lemma_unit_cells(kind, u, k, s);
    assert(naked_triple(m, kind, u, p, q, s));
}

/// Unit `u` holds a naked triple with a victim.
pub open spec fn unit_has_triple(m: Matrix, kind: UnitKind, u: int) -> bool {
    exists|p: int, q: int, s: int| #[trigger] triple_found(m, kind, u, p, q, s)
}

/// `added` takes every value of some naked triple of unit `u` out of each of
/// its victims.
pub open spec fn unit_triple_queued(m: Matrix, kind: UnitKind, u: int, added: Seq<sudokuDeleteNumber>) -> bool {
    exists|p: int, q: int, s: int| #[trigger] triple_found(m, kind, u, p, q, s) && forall|k: int, x: i8|
        triple_victim(m, kind, u, p, q, s, k) && in_union(m, kind, u, p, q, s, x) ==> added.contains(#[trigger] triple_request(kind, u, k, x))
}

/// Every unit of the kind that holds a naked triple with a victim has one
/// such triple applied in full.
pub open spec fn triples_queued(m: Matrix, kind: UnitKind, added: Seq<sudokuDeleteNumber>) -> bool {
    forall|u: int| 0 <= u < 9 && #[trigger] unit_has_triple(m, kind, u) ==> unit_triple_queued(m, kind, u, added)
}

proof fn lemma_triple_queued_grows(m: Matrix, kind: UnitKind, u: int, a: Seq<sudokuDeleteNumber>, b: Seq<sudokuDeleteNumber>)
    requires
        unit_triple_queued(m, kind, u, a),
        forall|x: sudokuDeleteNumber| a.contains(x) ==> b.contains(x),
    ensures
        unit_triple_queued(m, kind, u, b),
{
    let (p, q, s) = choose|p: int, q: int, s: int| #[trigger] triple_found(m, kind, u, p, q, s) && forall|k: int, x: i8|
        triple_victim(m, kind, u, p, q, s, k) && in_union(m, kind, u, p, q, s, x) ==> a.contains(#[trigger] triple_request(kind, u, k, x));
    assert forall|k: int, x: i8| triple_victim(m, kind, u, p, q, s, k) && in_union(m, kind, u, p, q, s, x)
        implies b.contains(#[trigger] triple_request(kind, u, k, x)) by {
        assert(a.contains(triple_request(kind, u, k, x)));
    }
}

/// No solution within the grid holds a value that a naked triple takes out
/// of another cell of its unit: the three cells of the triple use up its
/// three values.
pub proof fn lemma_triple_spared(m: Matrix, s: Matrix, kind: UnitKind, d: sudokuDeleteNumber)
    requires
        is_solution(s),
        refines(s, m),
        triple_sound(m, kind, d),
    ensures
        !cell(s, d.row as int, d.column as int).contains(d.value),
{
    let (u, p, q, r) = choose|u: int, p: int, q: int, r: int| naked_triple(m, kind, u, p, q, r) && #[trigger] from_triple(m, kind, u, p, q, r, d);
    let (k, v) = choose|k: int, x: i8| triple_victim(m, kind, u, p, q, r, k) && in_union(m, kind, u, p, q, r, x)
        && d == #[trigger] triple_request(kind, u, k, x);
    let vals = choose|vals: Seq<i8>| vals.len() == 3 && #[trigger] union_values(m, kind, u, p, q, r, vals);
    lemma_unit_cells(kind, u, p, q);
    lemma_unit_cells(kind, u, q, r);
    lemma_unit_cells(kind, u, r, p);
    lemma_unit_cells(kind, u, k, p);
    lemma_solution_unit_distinct(s, kind, u, p, q);
    lemma_solution_unit_distinct(s, kind, u, q, r);
    lemma_solution_unit_distinct(s, kind, u, r, p);
    lemma_solution_unit_distinct(s, kind, u, k, p);
    lemma_solution_unit_distinct(s, kind, u, k, q);
    lemma_solution_unit_distinct(s, kind, u, k, r);
    let x = ucell(s, kind, u, p)[0];
    let y = ucell(s, kind, u, q)[0];
    let z = ucell(s, kind, u, r)[0];
    assert(ucell(s, kind, u, p).contains(x));
    assert(ucell(s, kind, u, q).contains(y));
    assert(ucell(s, kind, u, r).contains(z));
    assert(ucell(m, kind, u, p).contains(x));
    assert(ucell(m, kind, u, q).contains(y));
    assert(ucell(m, kind, u, r).contains(z));
    assert(vals.contains(x) && vals.contains(y) && vals.contains(z) && vals.contains(v));
    assert(vals[0] != vals[1] && vals[1] != vals[2] && vals[0] != vals[2]);
    assert(forall|e: i8| vals.contains(e) ==> e == vals[0] || e == vals[1] || e == vals[2]);
    assert(v == x || v == y || v == z);
}

/// A triple with a victim yields a request that removes a candidate.
proof fn lemma_triple_effective(m: Matrix, kind: UnitKind, u: int, p: int, q: int, s: int, added: Seq<sudokuDeleteNumber>)
    requires
        triple_found(m, kind, u, p, q, s),
        triple_requests(m, kind, u, p, q, s, added),
    ensures
        exists|t: int| 0 <= t < added.len() && effective(m, #[trigger] added[t]),
{
    let k = choose|k: int| #[trigger] triple_victim(m, kind, u, p, q, s, k);
    lemma_unit_cells(kind, u, k, k);
    let x = choose|x: i8| #[trigger] ucell(m, kind, u, k).contains(x) && in_union(m, kind, u, p, q, s, x);
    let d = triple_request(kind, u, k, x);
    assert(added.contains(d));
    let i = choose|i: int| 0 <= i < added.len() && added[i] == d;
    assert(effective(m, added[i]));
}

/// Every request of a triple is sound and lies in the grid.
proof fn lemma_triple_requests_sound(m: Matrix, kind: UnitKind, u: int, p: int, q: int, s: int, added: Seq<sudokuDeleteNumber>)
    requires
        triple_found(m, kind, u, p, q, s),
        triple_requests(m, kind, u, p, q, s, added),
    ensures
        forall|i: int| 0 <= i < added.len() ==> triple_sound(m, kind, #[trigger] added[i]) && request_in_grid(added[i]),
{
    assert forall|i: int| 0 <= i < added.len() implies triple_sound(m, kind, #[trigger] added[i]) && request_in_grid(added[i]) by {
        assert(from_triple(m, kind, u, p, q, s, added[i]));
        let (k, x) = choose|k: int, x: i8| triple_victim(m, kind, u, p, q, s, k) && in_union(m, kind, u, p, q, s, x)
            && added[i] == #[trigger] triple_request(kind, u, k, x);
        lemma_unit_cells(kind, u, k, k);
    }
}

/// Looks for naked triples in every unit of the kind, at most one pattern per
/// unit, and queues the removals. Returns whether it queued anything.
#[verifier::rlimit(100)]
fn find_triples_in_units(ioManager: &mut sudokuIOManager, kind: UnitKind) -> (updates: bool)
    requires
        old(ioManager).valid(),
    ensures
        final(ioManager).valid(),
        final(ioManager).sudokuVar == old(ioManager).sudokuVar,
        extends(final(ioManager).pending(), old(ioManager).pending()),
        forall|i: int| old(ioManager).pending().len() <= i < final(ioManager).pending().len()
            ==> triple_sound(old(ioManager).sudokuVar.sudokuMatrix, kind, #[trigger] final(ioManager).pending()[i]),
        updates == (final(ioManager).pending().len() > old(ioManager).pending().len()),
        !updates <==> forall|u: int, p: int, q: int, s: int| !#[trigger] triple_found(old(ioManager).sudokuVar.sudokuMatrix, kind, u, p, q, s),
        updates ==> exists|t: int| old(ioManager).pending().len() <= t < final(ioManager).pending().len()
            && effective(old(ioManager).sudokuVar.sudokuMatrix, #[trigger] final(ioManager).pending()[t]),
        triples_queued(
            old(ioManager).sudokuVar.sudokuMatrix,
            kind,
            final(ioManager).pending().skip(old(ioManager).pending().len() as int),
        ),
        final(ioManager).pending() == old(ioManager).pending() + triple_requests_upto(old(ioManager).sudokuVar.sudokuMatrix, kind, 9),
{
    let ghost m = ioManager.sudokuVar.sudokuMatrix;
    let ghost queued = ioManager.pending();
    let mut updates = false;
    let mut u: usize = 0;
    assert(queued.subrange(0, queued.len() as int) =~= queued);
    while u < 9
        invariant
            u <= 9,
            ioManager.valid(),
            ioManager.sudokuVar.sudokuMatrix == m,
            extends(ioManager.pending(), queued),
            updates ==> exists|u2: int, p: int, q: int, s: int| #[trigger] triple_found(m, kind, u2, p, q, s),
            forall|i: int| queued.len() <= i < ioManager.pending().len() ==> triple_sound(m, kind, #[trigger] ioManager.pending()[i]),
            updates == (ioManager.pending().len() > queued.len()),
            !updates ==> forall|u2: int, p: int, q: int, s: int| u2 < u ==> !#[trigger] triple_found(m, kind, u2, p, q, s),
            updates ==> exists|t: int| queued.len() <= t < ioManager.pending().len() && effective(m, #[trigger] ioManager.pending()[t]),
            forall|u2: int| 0 <= u2 < u && #[trigger] unit_has_triple(m, kind, u2)
                ==> unit_triple_queued(m, kind, u2, ioManager.pending().skip(queued.len() as int)),
            ioManager.pending() == queued + triple_requests_upto(m, kind, u as int),
        decreases 9 - u,
    {
        let ghost before = ioManager.pending();
        let found = find_triple_in_unit(ioManager, kind, u);
        proof {
            let now = ioManager.pending();
            assert(now =~= queued + triple_requests_upto(m, kind, u + 1));
            assert forall|x: sudokuDeleteNumber| before.skip(queued.len() as int).contains(x) implies now.skip(queued.len() as int).contains(x) by {
                let i = choose|i: int| 0 <= i < before.skip(queued.len() as int).len() && before.skip(queued.len() as int)[i] == x;
                assert(now.subrange(0, before.len() as int)[queued.len() + i] == now[queued.len() + i]);
                assert(now.skip(queued.len() as int)[i] == x);
            }
            assert forall|u2: int| 0 <= u2 < u && #[trigger] unit_has_triple(m, kind, u2)
                implies unit_triple_queued(m, kind, u2, now.skip(queued.len() as int)) by {
                lemma_triple_queued_grows(m, kind, u2, before.skip(queued.len() as int), now.skip(queued.len() as int));
            }
            if found {
                let (p, q, s) = choose|p: int, q: int, s: int| #[trigger] triple_found(m, kind, u as int, p, q, s)
                    && triple_requests(m, kind, u as int, p, q, s, now.skip(before.len() as int));
                let unit_added = now.skip(before.len() as int);
                assert forall|x: sudokuDeleteNumber| unit_added.contains(x) implies now.skip(queued.len() as int).contains(x) by {
                    let i = choose|i: int| 0 <= i < unit_added.len() && unit_added[i] == x;
                    assert(now.skip(queued.len() as int)[before.len() - queued.len() + i] == x);
                }
                assert(unit_triple_queued(m, kind, u as int, unit_added));
                lemma_triple_queued_grows(m, kind, u as int, unit_added, now.skip(queued.len() as int));
            }
            assert forall|i: int| 0 <= i < before.len() implies now[i] == before[i] by {
                assert(now.subrange(0, before.len() as int)[i] == now[i]);
            }
            assert(now.subrange(0, queued.len() as int) =~= queued) by {
                assert forall|i: int| 0 <= i < queued.len() implies now[i] == queued[i] by {
                    assert(before.subrange(0, queued.len() as int)[i] == before[i]);
                }
            }
            if found {
                let (p, q, s) = choose|p: int, q: int, s: int| #[trigger] triple_found(m, kind, u as int, p, q, s)
                    && triple_requests(m, kind, u as int, p, q, s, now.skip(before.len() as int));
                let added = now.skip(before.len() as int);
                lemma_triple_requests_sound(m, kind, u as int, p, q, s, added);
                lemma_triple_effective(m, kind, u as int, p, q, s, added);
                let t = choose|t: int| 0 <= t < added.len() && effective(m, #[trigger] added[t]);
                assert(now[before.len() + t] == added[t]);
                assert forall|i: int| queued.len() <= i < now.len() implies triple_sound(m, kind, #[trigger] now[i]) by {
                    if i >= before.len() {
                        assert(now[i] == added[i - before.len()]);
                    }
                }
            } else {
                assert(now.len() == before.len());
                if !updates {
                    assert forall|u2: int, p: int, q: int, s: int| u2 < u + 1 implies !#[trigger] triple_found(m, kind, u2, p, q, s) by {
                        if u2 == u {
                            assert(!triple_found(m, kind, u as int, p, q, s));
                        } else {
                            assert(u2 < u);
                        }
                    }
                }
                if updates {
                    let t = choose|t: int| queued.len() <= t < before.len() && effective(m, #[trigger] before[t]);
                    assert(now[t] == before[t]);
                }
            }
        }
        updates = updates || found;
        u += 1;
    }
    assert forall|u2: int| 0 <= u2 < 9 && #[trigger] unit_has_triple(m, kind, u2)
        implies unit_triple_queued(m, kind, u2, ioManager.pending().skip(queued.len() as int)) by {}
    updates
}

/// Looks for a naked triple in each row and queues the removal of its values
/// from the other cells of that row. Returns whether it queued anything.
pub fn findHorizontalNakedTriples(ioManager: &mut sudokuIOManager) -> (updates: bool)
    requires
        old(ioManager).valid(),
    ensures
        final(ioManager).valid(),
        final(ioManager).sudokuVar == old(ioManager).sudokuVar,
        extends(final(ioManager).pending(), old(ioManager).pending()),
        forall|i: int| old(ioManager).pending().len() <= i < final(ioManager).pending().len()
            ==> triple_sound(old(ioManager).sudokuVar.sudokuMatrix, UnitKind::Row, #[trigger] final(ioManager).pending()[i]),
        updates == (final(ioManager).pending().len() > old(ioManager).pending().len()),
        !updates <==> forall|u: int, p: int, q: int, s: int| !#[trigger] triple_found(old(ioManager).sudokuVar.sudokuMatrix, UnitKind::Row, u, p, q, s),
        updates ==> exists|t: int| old(ioManager).pending().len() <= t < final(ioManager).pending().len()
            && effective(old(ioManager).sudokuVar.sudokuMatrix, #[trigger] final(ioManager).pending()[t]),
        triples_queued(
            old(ioManager).sudokuVar.sudokuMatrix,
            UnitKind::Row,
            final(ioManager).pending().skip(old(ioManager).pending().len() as int),
        ),
        final(ioManager).pending() == old(ioManager).pending() + triple_requests_upto(old(ioManager).sudokuVar.sudokuMatrix, UnitKind::Row, 9),
{
    find_triples_in_units(ioManager, UnitKind::Row)
}

/// Looks for a naked triple in each column and queues the removal of its values
/// from the other cells of that column. Returns whether it queued anything.
pub fn findVerticalNakedTriples(ioManager: &mut sudokuIOManager) -> (updates: bool)
    requires
        old(ioManager).valid(),
    ensures
        final(ioManager).valid(),
        final(ioManager).sudokuVar == old(ioManager).sudokuVar,
        extends(final(ioManager).pending(), old(ioManager).pending()),
        forall|i: int| old(ioManager).pending().len() <= i < final(ioManager).pending().len()
            ==> triple_sound(old(ioManager).sudokuVar.sudokuMatrix, UnitKind::Column, #[trigger] final(ioManager).pending()[i]),
        updates == (final(ioManager).pending().len() > old(ioManager).pending().len()),
        !updates <==> forall|u: int, p: int, q: int, s: int| !#[trigger] triple_found(old(ioManager).sudokuVar.sudokuMatrix, UnitKind::Column, u, p, q, s),
        updates ==> exists|t: int| old(ioManager).pending().len() <= t < final(ioManager).pending().len()
            && effective(old(ioManager).sudokuVar.sudokuMatrix, #[trigger] final(ioManager).pending()[t]),
        triples_queued(
            old(ioManager).sudokuVar.sudokuMatrix,
            UnitKind::Column,
            final(ioManager).pending().skip(old(ioManager).pending().len() as int),
        ),
        final(ioManager).pending() == old(ioManager).pending() + triple_requests_upto(old(ioManager).sudokuVar.sudokuMatrix, UnitKind::Column, 9),
{
    find_triples_in_units(ioManager, UnitKind::Column)
}

/// Looks for a naked triple in each box and queues the removal of its values
/// from the other cells of that box. Returns whether it queued anything.
pub fn findBoxesNakedTriples(ioManager: &mut sudokuIOManager) -> (updates: bool)
    requires
        old(ioManager).valid(),
    ensures
        final(ioManager).valid(),
        final(ioManager).sudokuVar == old(ioManager).sudokuVar,
        extends(final(ioManager).pending(), old(ioManager).pending()),
        forall|i: int| old(ioManager).pending().len() <= i < final(ioManager).pending().len()
            ==> triple_sound(old(ioManager).sudokuVar.sudokuMatrix, UnitKind::Box, #[trigger] final(ioManager).pending()[i]),
        updates == (final(ioManager).pending().len() > old(ioManager).pending().len()),
        !updates <==> forall|u: int, p: int, q: int, s: int| !#[trigger] triple_found(old(ioManager).sudokuVar.sudokuMatrix, UnitKind::Box, u, p, q, s),
        updates ==> exists|t: int| old(ioManager).pending().len() <= t < final(ioManager).pending().len()
            && effective(old(ioManager).sudokuVar.sudokuMatrix, #[trigger] final(ioManager).pending()[t]),
        triples_queued(
            old(ioManager).sudokuVar.sudokuMatrix,
            UnitKind::Box,
            final(ioManager).pending().skip(old(ioManager).pending().len() as int),
        ),
        final(ioManager).pending() == old(ioManager).pending() + triple_requests_upto(old(ioManager).sudokuVar.sudokuMatrix, UnitKind::Box, 9),
{
    find_triples_in_units(ioManager, UnitKind::Box)
}

/// Runs the three triple finders and applies what they queued, followed by
/// constraint elimination and the pair search, until a round finds no triple
/// with a victim.
pub fn findNakedTriples(ioManager: &mut sudokuIOManager)
    requires
        old(ioManager).valid(),
        old(ioManager).pending().len() == 0,
    ensures
        final(ioManager).valid(),
        final(ioManager).pending().len() == 0,
        refines(final(ioManager).sudokuVar.sudokuMatrix, old(ioManager).sudokuVar.sudokuMatrix),
        count(final(ioManager).sudokuVar.sudokuMatrix) <= count(old(ioManager).sudokuVar.sudokuMatrix),
        triple_closed(final(ioManager).sudokuVar.sudokuMatrix),
        keeps_solutions(old(ioManager).sudokuVar.sudokuMatrix, final(ioManager).sudokuVar.sudokuMatrix),
        reduced_from(old(ioManager).sudokuVar.sudokuMatrix, final(ioManager).sudokuVar.sudokuMatrix, true),
        closed(old(ioManager).sudokuVar.sudokuMatrix) ==> closed(final(ioManager).sudokuVar.sudokuMatrix),
        pair_closed(old(ioManager).sudokuVar.sudokuMatrix) ==> pair_closed(final(ioManager).sudokuVar.sudokuMatrix),
{
    let ghost start = ioManager.sudokuVar.sudokuMatrix;
    let ghost mut trace: Seq<sudokuDeleteNumber> = Seq::empty();
    let mut horizontalUpdates = true;
    let mut verticalUpdates = true;
    let mut boxesUpdates = true;
    while horizontalUpdates || verticalUpdates || boxesUpdates
        invariant
            ioManager.valid(),
            ioManager.pending().len() == 0,
            refines(ioManager.sudokuVar.sudokuMatrix, start),
            count(ioManager.sudokuVar.sudokuMatrix) <= count(start),
            closed(start) ==> closed(ioManager.sudokuVar.sudokuMatrix),
            pair_closed(start) ==> pair_closed(ioManager.sudokuVar.sudokuMatrix),
            !(horizontalUpdates || verticalUpdates || boxesUpdates) ==> triple_closed(ioManager.sudokuVar.sudokuMatrix),
            keeps_solutions(start, ioManager.sudokuVar.sudokuMatrix),
            justified_reduction(model(start), trace, true),
            apply_requests(model(start), trace) == model(ioManager.sudokuVar.sudokuMatrix),
        decreases count(ioManager.sudokuVar.sudokuMatrix) + if horizontalUpdates || verticalUpdates || boxesUpdates {
            1int
        } else {
            0int
        },
    {
        let ghost g = ioManager.sudokuVar.sudokuMatrix;
        horizontalUpdates = findHorizontalNakedTriples(ioManager);
        let ghost after_rows = ioManager.pending();
        verticalUpdates = findVerticalNakedTriples(ioManager);
        let ghost after_columns = ioManager.pending();
        boxesUpdates = findBoxesNakedTriples(ioManager);
        let ghost after_boxes = ioManager.pending();
        proof {
            assert forall|i: int| 0 <= i < after_rows.len() implies after_boxes[i] == after_rows[i] by {
                assert(after_boxes.subrange(0, after_columns.len() as int)[i] == after_boxes[i]);
                assert(after_columns.subrange(0, after_rows.len() as int)[i] == after_columns[i]);
            }
            assert forall|i: int| 0 <= i < after_columns.len() implies after_boxes[i] == after_columns[i] by {
                assert(after_boxes.subrange(0, after_columns.len() as int)[i] == after_boxes[i]);
            }
            if horizontalUpdates {
                let t = choose|t: int| 0 <= t < after_rows.len() && effective(g, #[trigger] after_rows[t]);
                assert(effective(g, after_boxes[t]));
            } else if verticalUpdates {
                let t = choose|t: int| after_rows.len() <= t < after_columns.len() && effective(g, #[trigger] after_columns[t]);
                assert(effective(g, after_boxes[t]));
            } else if boxesUpdates {
                let t = choose|t: int| after_columns.len() <= t < after_boxes.len() && effective(g, #[trigger] after_boxes[t]);
            } else {
                assert forall|kind: UnitKind, u: int, p: int, q: int, s: int| !#[trigger] triple_found(g, kind, u, p, q, s) by {
                    match kind {
                        UnitKind::Row => {},
                        UnitKind::Column => {},
                        UnitKind::Box => {},
                    }
                }
            }
        }
        Run(ioManager);
        proof {
            let now = ioManager.sudokuVar.sudokuMatrix;
            assert forall|sol: Matrix| is_solution(sol) && #[trigger] refines(sol, start) implies refines(sol, now) by {
                assert(refines(sol, g));
                assert forall|t: int| 0 <= t < after_boxes.len() implies !cell(sol, after_boxes[t].row as int, after_boxes[t].column as int).contains(#[trigger] after_boxes[t].value) by {
                    if t < after_rows.len() {
                        assert(after_boxes[t] == after_rows[t]);
                        lemma_triple_spared(g, sol, UnitKind::Row, after_boxes[t]);
                    } else if t < after_columns.len() {
                        assert(after_boxes[t] == after_columns[t]);
                        lemma_triple_spared(g, sol, UnitKind::Column, after_boxes[t]);
                    } else {
                        lemma_triple_spared(g, sol, UnitKind::Box, after_boxes[t]);
                    }
                }
                lemma_spared_solution_kept(g, now, after_boxes, sol);
            }
            let rq = after_boxes;
            assert forall|t: int| 0 <= t < rq.len() implies justified_by(model(g), #[trigger] rq[t], true) by {
                if t < after_rows.len() {
                    assert(rq[t] == after_rows[t]);
                    lemma_triple_in_sets(g, UnitKind::Row, rq[t]);
                } else if t < after_columns.len() {
                    assert(rq[t] == after_columns[t]);
                    lemma_triple_in_sets(g, UnitKind::Column, rq[t]);
                } else {
                    lemma_triple_in_sets(g, UnitKind::Box, rq[t]);
                }
            }
            lemma_round_reduction(model(g), rq, true);
            lemma_reduction_concat(model(start), trace, rq, true);
            lemma_apply_concat(model(start), trace, rq);
            trace = trace + rq;
            lemma_count_nonneg(now, 81);
            if !(horizontalUpdates || verticalUpdates || boxesUpdates) {
                assert(after_boxes.len() == 0);
            }
            assert forall|r: int, c: int, x: i8| in_grid(r, c) && #[trigger] cell(now, r, c).contains(x)
                implies cell(start, r, c).contains(x) by {
                assert(cell(g, r, c).contains(x));
            }
        }
        if horizontalUpdates || verticalUpdates || boxesUpdates {
            let ghost mid = ioManager.sudokuVar.sudokuMatrix;
            constraintsElimination(ioManager);
            let ghost mid2 = ioManager.sudokuVar.sudokuMatrix;
            findNakedPairs(ioManager);
            proof {
                let now = ioManager.sudokuVar.sudokuMatrix;
                lemma_elimination_reduction(mid, mid2, true);
                let ce = choose|ce: Seq<sudokuDeleteNumber>| justified_reduction(model(mid), ce, true)
                    && #[trigger] apply_requests(model(mid), ce) == model(mid2);
                lemma_reduction_concat(model(start), trace, ce, true);
                lemma_apply_concat(model(start), trace, ce);
                trace = trace + ce;
                let pr = choose|pr: Seq<sudokuDeleteNumber>| justified_reduction(model(mid2), pr, false)
                    && #[trigger] apply_requests(model(mid2), pr) == model(now);
                lemma_reduction_widen(model(mid2), pr);
                lemma_reduction_concat(model(start), trace, pr, true);
                lemma_apply_concat(model(start), trace, pr);
                trace = trace + pr;
                lemma_count_nonneg(now, 81);
                assert forall|r: int, c: int, x: i8| in_grid(r, c) && #[trigger] cell(now, r, c).contains(x)
                    implies cell(start, r, c).contains(x) by {
                    assert(cell(mid2, r, c).contains(x));
                    assert(cell(mid, r, c).contains(x));
                }
                assert forall|sol: Matrix| is_solution(sol) && #[trigger] refines(sol, start) implies refines(sol, now) by {
                    assert(refines(sol, mid));
                    assert(refines(sol, mid2));
                }
            }
        }
    }
    assert(apply_requests(model(start), trace) == model(ioManager.sudokuVar.sudokuMatrix));
}

} // verus!
