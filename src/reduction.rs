//! Reductions of a grid: sequences of removals, each justified, at some
//! earlier point of the sequence, by a fixed peer, a naked pair or a naked
//! triple of the candidate sets.
use vstd::prelude::*;
use crate::constraints::{eliminated_from, justified_trace, peer_fixed};
use crate::grid::{lemma_unit_cells, Matrix, model, ucell, unit_col, unit_row, UnitKind, valid_cell, wf};
use crate::pairs::{from_pair, naked_pair, pair_request, pair_sound, pair_victim};
use crate::store::{apply_requests, lemma_apply_concat, sudokuDeleteNumber};
use crate::triples::{
    from_triple, in_union, naked_triple, triple_request, triple_sound, triple_victim, union_values,
};

verus! {

/// The key of the `k`-th cell of unit `u` in the candidate sets.
pub open spec fn ukey(kind: UnitKind, u: int, k: int) -> (int, int) {
    (unit_row(kind, u, k), unit_col(kind, u, k))
}

/// In the candidate sets `g`, two cells `p`, `q` of a unit hold the same
/// two values, and the request takes one of them out of a third cell `k` of
/// the unit.
pub open spec fn pair_in_sets(g: Map<(int, int), Set<i8>>, d: sudokuDeleteNumber) -> bool {
    exists|kind: UnitKind, u: int, p: int, q: int, k: int, a: i8, b: i8|
        #![trigger g[ukey(kind, u, p)], g[ukey(kind, u, q)], ukey(kind, u, k), set![a, b]]
        0 <= u < 9 && 0 <= p < 9 && 0 <= q < 9 && 0 <= k < 9 && p != q && k != p && k != q
            && d.row == unit_row(kind, u, k) && d.column == unit_col(kind, u, k) && a != b
            && g[ukey(kind, u, p)] == set![a, b] && g[ukey(kind, u, q)] == set![a, b] && (d.value == a || d.value == b)
}

/// In the candidate sets `g`, three cells `p`, `q`, `s` of a unit hold three
/// values between them, and the request takes one of them out of a fourth
/// cell `k` of the unit.
pub open spec fn triple_in_sets(g: Map<(int, int), Set<i8>>, d: sudokuDeleteNumber) -> bool {
    exists|kind: UnitKind, u: int, p: int, q: int, s: int, k: int, a: i8, b: i8, c: i8|
        #![trigger g[ukey(kind, u, p)], g[ukey(kind, u, q)], g[ukey(kind, u, s)], ukey(kind, u, k), set![a, b, c]]
        0 <= u < 9 && 0 <= p < 9 && 0 <= q < 9 && 0 <= s < 9 && 0 <= k < 9 && p != q && q != s && p != s
            && k != p && k != q && k != s && d.row == unit_row(kind, u, k) && d.column == unit_col(kind, u, k)
            && a != b && b != c && a != c
            && g[ukey(kind, u, p)].union(g[ukey(kind, u, q)]).union(g[ukey(kind, u, s)]) == set![a, b, c]
            && (d.value == a || d.value == b || d.value == c)
}

/// The request is justified in the candidate sets `g` by a fixed peer or a
/// naked pair, or, where `triples` holds, a naked triple.
pub open spec fn justified_by(g: Map<(int, int), Set<i8>>, d: sudokuDeleteNumber, triples: bool) -> bool {
    peer_fixed(g, d) || pair_in_sets(g, d) || (triples && triple_in_sets(g, d))
}

/// Request `t` of the trace is justified in the candidates reached from `g`
/// after some part of the trace before it.
pub open spec fn step_justified(g: Map<(int, int), Set<i8>>, trace: Seq<sudokuDeleteNumber>, t: int, triples: bool) -> bool {
    exists|t0: int| 0 <= t0 <= t && justified_by(apply_requests(g, #[trigger] trace.take(t0)), trace[t], triples)
}

/// Each request of the trace, applied in turn from `g`, is justified in the
/// candidates reached after some earlier part of the trace.
pub open spec fn justified_reduction(g: Map<(int, int), Set<i8>>, trace: Seq<sudokuDeleteNumber>, triples: bool) -> bool {
    forall|t: int| 0 <= t < trace.len() ==> #[trigger] step_justified(g, trace, t, triples)
}

/// `result` is what a justified reduction makes of `start`.
pub open spec fn reduced_from(start: Matrix, result: Matrix, triples: bool) -> bool {
    exists|trace: Seq<sudokuDeleteNumber>| justified_reduction(model(start), trace, triples)
        && #[trigger] apply_requests(model(start), trace) == model(result)
}

/// Two justified reductions, one after the other, make one.
pub proof fn lemma_reduction_concat(g: Map<(int, int), Set<i8>>, a: Seq<sudokuDeleteNumber>, b: Seq<sudokuDeleteNumber>, triples: bool)
    requires
        justified_reduction(g, a, triples),
        justified_reduction(apply_requests(g, a), b, triples),
    ensures
        justified_reduction(g, a + b, triples),
{
    assert forall|t: int| 0 <= t < (a + b).len() implies #[trigger] step_justified(g, a + b, t, triples) by {
        if t < a.len() {
            assert(step_justified(g, a, t, triples));
            let t0 = choose|t0: int| 0 <= t0 <= t && justified_by(apply_requests(g, #[trigger] a.take(t0)), a[t], triples);
            assert((a + b).take(t0) =~= a.take(t0));
            assert((a + b)[t] == a[t]);
        } else {
            let t2 = t - a.len();
            assert((a + b)[t] == b[t2]);
            assert(step_justified(apply_requests(g, a), b, t2, triples));
            let t0 = choose|t0: int| 0 <= t0 <= t2 && justified_by(apply_requests(apply_requests(g, a), #[trigger] b.take(t0)), b[t2], triples);
            assert((a + b).take(a.len() + t0) =~= a + b.take(t0));
            lemma_apply_concat(g, a, b.take(t0));
            assert(justified_by(apply_requests(g, (a + b).take(a.len() + t0)), (a + b)[t], triples));
        }
    }
}

/// A reduction by fixed peers and pairs is also one where triples may serve.
pub proof fn lemma_reduction_widen(g: Map<(int, int), Set<i8>>, trace: Seq<sudokuDeleteNumber>)
    requires
        justified_reduction(g, trace, false),
    ensures
        justified_reduction(g, trace, true),
{
    assert forall|t: int| 0 <= t < trace.len() implies #[trigger] step_justified(g, trace, t, true) by {
        assert(step_justified(g, trace, t, false));
        let t0 = choose|t0: int| 0 <= t0 <= t && justified_by(apply_requests(g, #[trigger] trace.take(t0)), trace[t], false);
        assert(justified_by(apply_requests(g, trace.take(t0)), trace[t], true));
    }
}

/// Requests all justified in `g` make a justified reduction of `g`.
pub proof fn lemma_round_reduction(g: Map<(int, int), Set<i8>>, rq: Seq<sudokuDeleteNumber>, triples: bool)
    requires
        forall|t: int| 0 <= t < rq.len() ==> justified_by(g, #[trigger] rq[t], triples),
    ensures
        justified_reduction(g, rq, triples),
{
    assert forall|t: int| 0 <= t < rq.len() implies #[trigger] step_justified(g, rq, t, triples) by {
        assert(rq.take(0) =~= Seq::<sudokuDeleteNumber>::empty());
        assert(apply_requests(g, rq.take(0)) == g);
        assert(justified_by(apply_requests(g, rq.take(0)), rq[t], triples));
    }
}

/// A constraint elimination is a justified reduction.
pub proof fn lemma_elimination_reduction(start: Matrix, result: Matrix, triples: bool)
    requires
        eliminated_from(start, result),
    ensures
        reduced_from(start, result, triples),
{
    let trace = choose|trace: Seq<sudokuDeleteNumber>| justified_trace(model(start), trace)
        && #[trigger] apply_requests(model(start), trace) == model(result);
    assert forall|t: int| 0 <= t < trace.len() implies #[trigger] step_justified(model(start), trace, t, triples) by {
        assert(peer_fixed(apply_requests(model(start), trace.take(t)), trace[t]));
        assert(justified_by(apply_requests(model(start), trace.take(t)), trace[t], triples));
    }
    assert(justified_reduction(model(start), trace, triples));
}

proof fn lemma_two_set(c: Seq<i8>, a: i8, b: i8)
    requires
        c.len() == 2,
        a != b,
        c.contains(a),
        c.contains(b),
    ensures
        c.to_set() == set![a, b],
{
    assert forall|x: i8| c.to_set().contains(x) <==> set![a, b].contains(x) by {
        if c.contains(x) {
            let i = choose|i: int| 0 <= i < 2 && c[i] == x;
            let ia = choose|i: int| 0 <= i < 2 && c[i] == a;
            let ib = choose|i: int| 0 <= i < 2 && c[i] == b;
        }
    }
    assert(c.to_set() =~= set![a, b]);
}

/// A sound pair request is justified by a naked pair of the candidate sets.
pub proof fn lemma_pair_in_sets(m: Matrix, kind: UnitKind, d: sudokuDeleteNumber)
    requires
        wf(m),
        pair_sound(m, kind, d),
    ensures
        pair_in_sets(model(m), d),
{
    let (u, p, q) = choose|u: int, p: int, q: int| naked_pair(m, kind, u, p, q) && #[trigger] from_pair(m, kind, u, p, q, d);
    let (k, t) = choose|k: int, t: int| pair_victim(m, kind, u, p, q, k) && 0 <= t < 2 && d == #[trigger] pair_request(m, kind, u, p, k, t);
    lemma_unit_cells(kind, u, p, q);
    lemma_unit_cells(kind, u, q, p);
    lemma_unit_cells(kind, u, k, p);
    let cp = ucell(m, kind, u, p);
    let cq = ucell(m, kind, u, q);
    assert(valid_cell(cp));
    let a = cp[0];
    let b = cp[1];
    assert(cp.contains(a) && cp.contains(b));
    lemma_two_set(cp, a, b);
    lemma_two_set(cq, a, b);
    let g = model(m);
    assert(g[ukey(kind, u, p)] == set![a, b]);
    assert(g[ukey(kind, u, q)] == set![a, b]);
    assert(g.contains_key(ukey(kind, u, k)));
}

/// A sound triple request is justified by a naked triple of the candidate sets.
pub proof fn lemma_triple_in_sets(m: Matrix, kind: UnitKind, d: sudokuDeleteNumber)
    requires
        triple_sound(m, kind, d),
    ensures
        triple_in_sets(model(m), d),
{
    let (u, p, q, s) = choose|u: int, p: int, q: int, s: int| naked_triple(m, kind, u, p, q, s) && #[trigger] from_triple(m, kind, u, p, q, s, d);
    let (k, x) = choose|k: int, x: i8| triple_victim(m, kind, u, p, q, s, k) && in_union(m, kind, u, p, q, s, x)
        && d == #[trigger] triple_request(kind, u, k, x);
    let vals = choose|vals: Seq<i8>| vals.len() == 3 && #[trigger] union_values(m, kind, u, p, q, s, vals);
    lemma_unit_cells(kind, u, p, q);
    lemma_unit_cells(kind, u, q, s);
    lemma_unit_cells(kind, u, s, p);
    lemma_unit_cells(kind, u, k, p);
    let g = model(m);
    let un = g[ukey(kind, u, p)].union(g[ukey(kind, u, q)]).union(g[ukey(kind, u, s)]);
    assert(vals.contains(vals[0]) && vals.contains(vals[1]) && vals.contains(vals[2]));
    assert forall|y: i8| un.contains(y) <==> set![vals[0], vals[1], vals[2]].contains(y) by {
        assert(un.contains(y) <==> in_union(m, kind, u, p, q, s, y));
        if vals.contains(y) {
            let i = choose|i: int| 0 <= i < 3 && vals[i] == y;
        }
    }
    assert(un =~= set![vals[0], vals[1], vals[2]]);
    assert(vals.contains(x));
    let i = choose|i: int| 0 <= i < 3 && vals[i] == x;
    let (a, b, c) = (vals[0], vals[1], vals[2]);
    assert(d.row == unit_row(kind, u, k) && d.column == unit_col(kind, u, k));
    let _kk = ukey(kind, u, k);
    assert(a != b && b != c && a != c);
    assert(g[ukey(kind, u, p)].union(g[ukey(kind, u, q)]).union(g[ukey(kind, u, s)]) == set![a, b, c]);
    assert(d.value == a || d.value == b || d.value == c);
}

} // verus!
