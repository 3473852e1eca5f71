//! The state store: one authoritative grid, a queue of deletion requests and a
//! single writer that drains it.
use vstd::prelude::*;
use crate::grid::{
    cell, copySudokuMatrix, count, first_pos, has_other, in_grid, lemma_count_mono, lemma_has_other,
    lemma_remove_valid, Matrix, model, refines, same_cells, sudoku, valid_cell, wf,
};

verus! {

/// A request to remove `value` from the cell at (`row`, `column`) if it is there.
#[derive(Clone, Copy, PartialEq, Eq, Structural)]
pub struct sudokuDeleteNumber {
    pub row: i8,
    pub column: i8,
    pub value: i8,
}

/// The channel that carries deletion requests to the writer, both of its ends
/// held together.
#[verifier::external_body]
pub struct DeletionQueue {
    sender: crossbeam::channel::Sender<sudokuDeleteNumber>,
    receiver: crossbeam::channel::Receiver<sudokuDeleteNumber>,
}

/// The requests waiting in the channel, oldest first.
pub uninterp spec fn queued_requests(q: DeletionQueue) -> Seq<sudokuDeleteNumber>;

/// Relies on crossbeam::channel::unbounded: a new channel holds no message.
#[verifier::external_body]
fn new_queue() -> (q: DeletionQueue)
    ensures
        queued_requests(q) == Seq::<sudokuDeleteNumber>::empty(),
{
    let (sender, receiver) = crossbeam::channel::unbounded();
    DeletionQueue { sender, receiver }
}

/// Relies on crossbeam::channel::Sender::send: on an unbounded channel whose
/// receiver is alive the message is appended and the call succeeds.
#[verifier::external_body]
fn enqueue(q: &mut DeletionQueue, d: sudokuDeleteNumber)
    ensures
        queued_requests(*final(q)) == queued_requests(*old(q)).push(d),
{
    let _ = q.sender.send(d);
}

/// Relies on crossbeam::channel::Receiver::try_recv: it returns the oldest
/// message, or an error at once when the channel is empty.
#[verifier::external_body]
fn dequeue(q: &mut DeletionQueue) -> (r: Option<sudokuDeleteNumber>)
    ensures
        queued_requests(*old(q)).len() == 0 ==> r is None && queued_requests(*final(q)) == queued_requests(*old(q)),
        queued_requests(*old(q)).len() > 0 ==> r == Some(queued_requests(*old(q))[0])
            && queued_requests(*final(q)) == queued_requests(*old(q)).drop_first(),
{
    q.receiver.try_recv().ok()
}

/// A request once queued stays in the queue as more are added.
pub proof fn lemma_push_contains(s: Seq<sudokuDeleteNumber>, d: sudokuDeleteNumber)
    ensures
        forall|x: sudokuDeleteNumber| s.contains(x) ==> #[trigger] s.push(d).contains(x),
        s.push(d).contains(d),
{
    assert forall|x: sudokuDeleteNumber| s.contains(x) implies #[trigger] s.push(d).contains(x) by {
        let i = choose|i: int| 0 <= i < s.len() && s[i] == x;
        assert(s.push(d)[i] == x);
    }
    assert(s.push(d)[s.len() as int] == d);
}

/// The request lies inside the grid.
pub open spec fn request_in_grid(d: sudokuDeleteNumber) -> bool {
    in_grid(d.row as int, d.column as int)
}

/// Applying the request removes a candidate: the cell holds its value and
/// at least one other.
pub open spec fn effective(m: Matrix, d: sudokuDeleteNumber) -> bool {
    &&& request_in_grid(d)
    &&& cell(m, d.row as int, d.column as int).len() > 1
    &&& cell(m, d.row as int, d.column as int).contains(d.value)
}

/// One request applied to candidate sets: the value goes if the cell holds it
/// and something else; otherwise nothing changes.
pub open spec fn apply_request(g: Map<(int, int), Set<i8>>, d: sudokuDeleteNumber) -> Map<(int, int), Set<i8>> {
    let p = (d.row as int, d.column as int);
    if g.contains_key(p) && g[p].contains(d.value) && has_other(g[p], d.value) {
        g.insert(p, g[p].remove(d.value))
    } else {
        g
    }
}

/// The requests applied one after the other, first to last.
pub open spec fn apply_requests(g: Map<(int, int), Set<i8>>, s: Seq<sudokuDeleteNumber>) -> Map<(int, int), Set<i8>>
    decreases s.len(),
{
    if s.len() == 0 {
        g
    } else {
        apply_request(apply_requests(g, s.drop_last()), s.last())
    }
}

/// The store: the applied grid and the requests not applied yet.
pub struct sudokuIOManager {
    pub sudokuVar: sudoku,
    pub deleteQueue: DeletionQueue,
}

impl sudokuIOManager {
    /// The requests waiting to be applied, oldest first.
    pub open spec fn pending(&self) -> Seq<sudokuDeleteNumber> {
        queued_requests(self.deleteQueue)
    }

    /// The grid is well formed and every waiting request lies inside it.
    pub open spec fn valid(&self) -> bool {
        &&& wf(self.sudokuVar.sudokuMatrix)
        &&& forall|k: int| 0 <= k < self.pending().len() ==> request_in_grid(#[trigger] self.pending()[k])
    }

    /// A store around the grid, with nothing waiting.
    pub fn new(sudokuVar: sudoku) -> (r: sudokuIOManager)
        ensures
            r.sudokuVar == sudokuVar,
            r.pending().len() == 0,
    {
        sudokuIOManager { sudokuVar, deleteQueue: new_queue() }
    }

    /// Queues the removal of `value` from the cell at (`i`, `j`).
    pub fn DeleteNumber(&mut self, i: i8, j: i8, value: i8)
        requires
            0 <= i < 9,
            0 <= j < 9,
        ensures
            final(self).sudokuVar == old(self).sudokuVar,
            final(self).pending() == old(self).pending().push(sudokuDeleteNumber { row: i, column: j, value }),
    {
        enqueue(&mut self.deleteQueue, sudokuDeleteNumber { row: i, column: j, value });
    }

    /// The applied candidates of the cell at (`i`, `j`).
    pub fn GetSlice(&self, i: i8, j: i8) -> (r: Vec<i8>)
        requires
            0 <= i < 9,
            0 <= j < 9,
        ensures
            r@ == cell(self.sudokuVar.sudokuMatrix, i as int, j as int),
    {
        self.sudokuVar.getCellValue(i, j)
    }

    /// Whether the applied cell at (`i`, `j`) is undetermined and admits `value`.
    pub fn CheckNumber(&self, i: i8, j: i8, value: i8) -> (r: bool)
        requires
            0 <= i < 9,
            0 <= j < 9,
        ensures
            r == (cell(self.sudokuVar.sudokuMatrix, i as int, j as int).len() > 1
                && cell(self.sudokuVar.sudokuMatrix, i as int, j as int).contains(value)),
    {
        self.sudokuVar.checkCellValue(i, j, value)
    }

    /// A copy of the applied grid.
    pub fn GetSudoku(&self) -> (r: Matrix)
        ensures
            same_cells(r, self.sudokuVar.sudokuMatrix),
    {
        copySudokuMatrix(&self.sudokuVar.sudokuMatrix)
    }
}

/// Applies one request to a well-formed grid.
proof fn lemma_apply_step(before: Matrix, after: Matrix, d: sudokuDeleteNumber)
    requires
        wf(before),
        request_in_grid(d),
        effective(before, d) ==> exists|p: int|
            first_pos(cell(before, d.row as int, d.column as int), d.value, p)
            && cell(after, d.row as int, d.column as int) == cell(before, d.row as int, d.column as int).remove(p),
        !effective(before, d) ==> cell(after, d.row as int, d.column as int) == cell(before, d.row as int, d.column as int),
        forall|r: int, c: int| in_grid(r, c) && (r != d.row || c != d.column)
            ==> #[trigger] cell(after, r, c) == cell(before, r, c),
    ensures
        wf(after),
        model(after) == apply_request(model(before), d),
        refines(after, before),
        forall|r: int, c: int| in_grid(r, c) ==> #[trigger] cell(after, r, c).len() <= cell(before, r, c).len(),
        effective(before, d) ==> cell(after, d.row as int, d.column as int).len()
            < cell(before, d.row as int, d.column as int).len(),
{
    let (i, j) = (d.row as int, d.column as int);
    let s = cell(before, i, j);
    assert(valid_cell(s));
    if s.contains(d.value) {
        lemma_has_other(s, d.value);
    }
    if effective(before, d) {
        let p = choose|p: int| first_pos(s, d.value, p) && cell(after, i, j) == s.remove(p);
        lemma_remove_valid(s, p);
        assert forall|v: i8| cell(after, i, j).contains(v) implies s.contains(v) by {
            assert(s.remove(p).to_set().contains(v));
        }
    }
    assert(model(after) =~= apply_request(model(before), d));
}

/// The writer: applies every waiting request, oldest first, to the grid.
pub fn Run(ioManager: &mut sudokuIOManager)
    requires
        old(ioManager).valid(),
    ensures
        final(ioManager).valid(),
        final(ioManager).pending().len() == 0,
        model(final(ioManager).sudokuVar.sudokuMatrix)
            == apply_requests(model(old(ioManager).sudokuVar.sudokuMatrix), old(ioManager).pending()),
        refines(final(ioManager).sudokuVar.sudokuMatrix, old(ioManager).sudokuVar.sudokuMatrix),
        count(final(ioManager).sudokuVar.sudokuMatrix) <= count(old(ioManager).sudokuVar.sudokuMatrix),
        (exists|t: int| 0 <= t < old(ioManager).pending().len()
            && effective(old(ioManager).sudokuVar.sudokuMatrix, #[trigger] old(ioManager).pending()[t]))
            ==> count(final(ioManager).sudokuVar.sudokuMatrix) < count(old(ioManager).sudokuVar.sudokuMatrix),
        old(ioManager).pending().len() == 0 ==> final(ioManager).sudokuVar == old(ioManager).sudokuVar,
        forall|r: int, c: int, x: i8| in_grid(r, c) && cell(old(ioManager).sudokuVar.sudokuMatrix, r, c).contains(x)
            && !#[trigger] cell(final(ioManager).sudokuVar.sudokuMatrix, r, c).contains(x)
            ==> old(ioManager).pending().contains(sudokuDeleteNumber { row: r as i8, column: c as i8, value: x }),
{
    let ghost start = ioManager.sudokuVar.sudokuMatrix;
    let ghost reqs = ioManager.pending();
    let ghost mut n: int = 0;
    loop
        invariant
            0 <= n <= reqs.len(),
            ioManager.valid(),
            ioManager.pending() == reqs.skip(n),
            model(ioManager.sudokuVar.sudokuMatrix) == apply_requests(model(start), reqs.take(n)),
            refines(ioManager.sudokuVar.sudokuMatrix, start),
            count(ioManager.sudokuVar.sudokuMatrix) <= count(start),
            forall|t: int| 0 <= t < n && effective(start, #[trigger] reqs[t])
                ==> count(ioManager.sudokuVar.sudokuMatrix) < count(start),
            forall|r: int, c: int| in_grid(r, c) ==> #[trigger] cell(ioManager.sudokuVar.sudokuMatrix, r, c) == cell(start, r, c)
                || cell(ioManager.sudokuVar.sudokuMatrix, r, c).len() < cell(start, r, c).len(),
            forall|k: int| 0 <= k < reqs.len() ==> request_in_grid(#[trigger] reqs[k]),
            n == 0 ==> ioManager.sudokuVar.sudokuMatrix == start,
            forall|r: int, c: int, x: i8| in_grid(r, c) && cell(start, r, c).contains(x)
                && !#[trigger] cell(ioManager.sudokuVar.sudokuMatrix, r, c).contains(x)
                ==> reqs.take(n).contains(sudokuDeleteNumber { row: r as i8, column: c as i8, value: x }),
        ensures
            ioManager.valid(),
            ioManager.pending().len() == 0,
            model(ioManager.sudokuVar.sudokuMatrix) == apply_requests(model(start), reqs),
            refines(ioManager.sudokuVar.sudokuMatrix, start),
            count(ioManager.sudokuVar.sudokuMatrix) <= count(start),
            (exists|t: int| 0 <= t < reqs.len() && effective(start, #[trigger] reqs[t]))
                ==> count(ioManager.sudokuVar.sudokuMatrix) < count(start),
            reqs.len() == 0 ==> ioManager.sudokuVar.sudokuMatrix == start,
            forall|r: int, c: int, x: i8| in_grid(r, c) && cell(start, r, c).contains(x)
                && !#[trigger] cell(ioManager.sudokuVar.sudokuMatrix, r, c).contains(x)
                ==> reqs.contains(sudokuDeleteNumber { row: r as i8, column: c as i8, value: x }),
        decreases reqs.len() - n,
    {
        let ghost before = ioManager.sudokuVar.sudokuMatrix;
        let next = dequeue(&mut ioManager.deleteQueue);
        match next {
            None => {
                assert(reqs.skip(n).len() == 0);
                assert(n == reqs.len());
                assert(reqs.take(n) =~= reqs);
                assert(reqs.take(n) == reqs);
                break;
            },
            Some(d) => {
                assert(d == reqs[n]);
                if ioManager.sudokuVar.checkCellValue(d.row, d.column, d.value) {
                    ioManager.sudokuVar.deleteCellValue(d.row, d.column, d.value);
                }
                let ghost after = ioManager.sudokuVar.sudokuMatrix;
                proof {
                    lemma_apply_step(before, after, d);
                    lemma_count_mono(after, before, 81);
                    assert forall|r: int, c: int| in_grid(r, c) implies #[trigger] cell(after, r, c).len() <= cell(start, r, c).len() by {
                        assert(cell(after, r, c).len() <= cell(before, r, c).len());
                    }
                    assert forall|r: int, c: int| in_grid(r, c) implies #[trigger] cell(after, r, c) == cell(start, r, c)
                        || cell(after, r, c).len() < cell(start, r, c).len() by {
                        assert(cell(after, r, c).len() <= cell(before, r, c).len());
                        if r != d.row || c != d.column {
                            assert(cell(after, r, c) == cell(before, r, c));
                        } else if !effective(before, d) {
                            assert(cell(after, r, c) == cell(before, r, c));
                        }
                    }
                    if effective(start, d) {
                        let (r, c) = (d.row as int, d.column as int);
                        assert(9 * r + c < 81);
                        if cell(before, r, c) == cell(start, r, c) {
                            assert(cell(after, r, c).len() < cell(before, r, c).len());
                        }
                        assert(cell(after, r, c).len() < cell(start, r, c).len());
                        lemma_count_mono(after, start, 81);
                    }
                    assert(reqs.take(n + 1).drop_last() =~= reqs.take(n));
                    assert forall|r: int, c: int, x: i8| in_grid(r, c) && cell(start, r, c).contains(x)
                        && !#[trigger] cell(after, r, c).contains(x)
                        implies reqs.take(n + 1).contains(sudokuDeleteNumber { row: r as i8, column: c as i8, value: x }) by {
                        let e = sudokuDeleteNumber { row: r as i8, column: c as i8, value: x };
                        if !cell(before, r, c).contains(x) {
                            assert(reqs.take(n).contains(e));
                            let w = choose|w: int| 0 <= w < n && reqs.take(n)[w] == e;
                            assert(reqs.take(n + 1)[w] == e);
                        } else {
                            assert(model(after)[(r, c)] == cell(after, r, c).to_set());
                            assert(model(before)[(r, c)] == cell(before, r, c).to_set());
                            assert(cell(before, r, c).to_set().contains(x));
                            assert(!cell(after, r, c).to_set().contains(x));
                            assert(r == d.row && c == d.column && x == d.value);
                            assert(e == d);
                            assert(reqs.take(n + 1)[n] == d);
                        }
                    }
                    assert(reqs.skip(n + 1) =~= reqs.skip(n).drop_first());
                    n = n + 1;
                }
            },
        }
    }
}

/// Each cell loses every value that some request in `reqs` names for it.
pub open spec fn remove_requested(g: Map<(int, int), Set<i8>>, reqs: Set<sudokuDeleteNumber>) -> Map<(int, int), Set<i8>> {
    Map::new(
        |p: (int, int)| g.contains_key(p),
        |p: (int, int)| g[p].filter(|x: i8| !reqs.contains(sudokuDeleteNumber { row: p.0 as i8, column: p.1 as i8, value: x })),
    )
}

/// No cell of the grid would lose all its candidates to the requests.
pub open spec fn leaves_candidates(g: Map<(int, int), Set<i8>>, reqs: Set<sudokuDeleteNumber>) -> bool {
    forall|p: (int, int)| #[trigger] g.contains_key(p) ==> exists|x: i8| g[p].contains(x)
        && !reqs.contains(sudokuDeleteNumber { row: p.0 as i8, column: p.1 as i8, value: x })
}

/// The keys of the model are the positions of the grid.
pub open spec fn grid_keys(g: Map<(int, int), Set<i8>>) -> bool {
    forall|p: (int, int)| #[trigger] g.contains_key(p) ==> in_grid(p.0, p.1)
}

/// Requests that empty no cell act, in whatever order they are applied, as
/// one removal of everything they name.
pub proof fn lemma_apply_as_removal(g: Map<(int, int), Set<i8>>, s: Seq<sudokuDeleteNumber>, all: Set<sudokuDeleteNumber>)
    requires
        grid_keys(g),
        s.to_set().subset_of(all),
        leaves_candidates(g, all),
    ensures
        apply_requests(g, s) == remove_requested(g, s.to_set()),
    decreases s.len(),
{
    if s.len() == 0 {
        assert(remove_requested(g, s.to_set()) =~= g) by {
            assert forall|p: (int, int)| g.contains_key(p) implies remove_requested(g, s.to_set())[p] =~= g[p] by {}
        }
    } else {
        let rest = s.drop_last();
        let d = s.last();
        assert forall|x: sudokuDeleteNumber| rest.to_set().contains(x) implies all.contains(x) by {
            let i = choose|i: int| 0 <= i < rest.len() && rest[i] == x;
            assert(s[i] == x);
            assert(s.to_set().contains(x));
        }
        lemma_apply_as_removal(g, rest, all);
        assert(s.to_set().contains(d)) by {
            assert(s[s.len() - 1] == d);
        }
        assert(s.to_set() =~= rest.to_set().insert(d)) by {
            assert forall|x: sudokuDeleteNumber| s.to_set().contains(x) implies rest.to_set().insert(d).contains(x) by {
                let i = choose|i: int| 0 <= i < s.len() && s[i] == x;
                if i < s.len() - 1 {
                    assert(rest[i] == x);
                }
            }
            assert forall|x: sudokuDeleteNumber| rest.to_set().contains(x) implies s.to_set().contains(x) by {
                let i = choose|i: int| 0 <= i < rest.len() && rest[i] == x;
                assert(s[i] == x);
            }
        }
        let before = remove_requested(g, rest.to_set());
        let after = remove_requested(g, s.to_set());
        let key = (d.row as int, d.column as int);
        assert(apply_request(before, d) =~= after) by {
            if before.contains_key(key) {
                assert(d == sudokuDeleteNumber { row: key.0 as i8, column: key.1 as i8, value: d.value });
                if before[key].contains(d.value) && !has_other(before[key], d.value) {
                    let x = choose|x: i8| g[key].contains(x)
                        && !all.contains(sudokuDeleteNumber { row: key.0 as i8, column: key.1 as i8, value: x });
                    assert(x != d.value);
                    assert(before[key].contains(x));
                }
                assert forall|p: (int, int)| after.contains_key(p) implies apply_request(before, d)[p] =~= after[p] by {
                    if p != key {
                        assert forall|x: i8| after[p].contains(x) <==> before[p].contains(x) by {
                            if rest.to_set().insert(d).contains(sudokuDeleteNumber { row: p.0 as i8, column: p.1 as i8, value: x }) {
                            }
                        }
                    }
                }
            } else {
                assert forall|p: (int, int)| after.contains_key(p) implies apply_request(before, d)[p] =~= after[p] by {
                    assert(in_grid(p.0, p.1));
                    assert(sudokuDeleteNumber { row: p.0 as i8, column: p.1 as i8, value: d.value } != d);
                }
            }
        }
    }
}

/// Confluence: two orders of the same requests, none of which would empty a
/// cell, leave the same candidates in every cell.
pub proof fn lemma_round_confluent(g: Map<(int, int), Set<i8>>, a: Seq<sudokuDeleteNumber>, b: Seq<sudokuDeleteNumber>)
    requires
        grid_keys(g),
        a.to_set() == b.to_set(),
        leaves_candidates(g, a.to_set()),
    ensures
        apply_requests(g, a) == apply_requests(g, b),
{
    lemma_apply_as_removal(g, a, a.to_set());
    lemma_apply_as_removal(g, b, a.to_set());
}

/// The solution holds none of the values the requests take out.
pub open spec fn spares(s: Matrix, reqs: Seq<sudokuDeleteNumber>) -> bool {
    forall|t: int| 0 <= t < reqs.len() ==> !cell(s, reqs[t].row as int, reqs[t].column as int).contains(#[trigger] reqs[t].value)
}

/// Where only requested values left the grid, a solution that none of the
/// requests touches stays within it.
pub proof fn lemma_spared_solution_kept(before: Matrix, after: Matrix, reqs: Seq<sudokuDeleteNumber>, s: Matrix)
    requires
        forall|r: int, c: int, x: i8| in_grid(r, c) && cell(before, r, c).contains(x)
            && !#[trigger] cell(after, r, c).contains(x)
            ==> reqs.contains(sudokuDeleteNumber { row: r as i8, column: c as i8, value: x }),
        refines(s, before),
        spares(s, reqs),
    ensures
        refines(s, after),
{
    assert forall|r: int, c: int, x: i8| in_grid(r, c) && #[trigger] cell(s, r, c).contains(x) implies cell(after, r, c).contains(x) by {
        if !cell(after, r, c).contains(x) {
            let e = sudokuDeleteNumber { row: r as i8, column: c as i8, value: x };
            assert(reqs.contains(e));
            let t = choose|t: int| 0 <= t < reqs.len() && reqs[t] == e;
            assert(!cell(s, reqs[t].row as int, reqs[t].column as int).contains(reqs[t].value));
        }
    }
}

/// Applying `a` then `b` is applying `a + b`.
pub proof fn lemma_apply_concat(g: Map<(int, int), Set<i8>>, a: Seq<sudokuDeleteNumber>, b: Seq<sudokuDeleteNumber>)
    ensures
        apply_requests(g, a + b) == apply_requests(apply_requests(g, a), b),
    decreases b.len(),
{
    if b.len() == 0 {
        assert(a + b =~= a);
    } else {
        lemma_apply_concat(g, a, b.drop_last());
        assert((a + b).drop_last() =~= a + b.drop_last());
        assert((a + b).last() == b.last());
    }
}

/// A cell holding a single candidate keeps it whatever requests come.
pub proof fn lemma_single_stays(g: Map<(int, int), Set<i8>>, s: Seq<sudokuDeleteNumber>, key: (int, int), v: i8)
    requires
        g.contains_key(key),
        g[key] == set![v],
    ensures
        apply_requests(g, s).contains_key(key),
        apply_requests(g, s)[key] == set![v],
    decreases s.len(),
{
    if s.len() > 0 {
        lemma_single_stays(g, s.drop_last(), key, v);
        let h = apply_requests(g, s.drop_last());
        let d = s.last();
        let p = (d.row as int, d.column as int);
        if p == key && h[p].contains(d.value) && has_other(h[p], d.value) {
            let w = choose|w: i8| w != d.value && h[p].contains(w);
        }
    }
}

} // verus!
