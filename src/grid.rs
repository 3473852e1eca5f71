//! The candidate grid and the primitive operations on one cell.
use vstd::prelude::*;

verus! {

/// Nine rows of nine cells; each cell lists the digits still possible there.
pub type Matrix = [[Vec<i8>; 9]; 9];

/// The candidates of the cell at row `r`, column `c`.
pub open spec fn cell(m: Matrix, r: int, c: int) -> Seq<i8> {
    m@[r]@[c]@
}

pub open spec fn in_grid(r: int, c: int) -> bool {
    0 <= r < 9 && 0 <= c < 9
}

/// A cell holds at least one candidate, each a digit from 1 to 9, none twice.
pub open spec fn valid_cell(s: Seq<i8>) -> bool {
    &&& s.len() >= 1
    &&& s.no_duplicates()
    &&& forall|k: int| 0 <= k < s.len() ==> 1 <= #[trigger] s[k] <= 9
}

/// Every cell of the matrix is a valid cell.
pub open spec fn wf(m: Matrix) -> bool {
    forall|r: int, c: int| in_grid(r, c) ==> valid_cell(#[trigger] cell(m, r, c))
}

/// The two matrices hold the same candidates, in the same order, in every cell.
pub open spec fn same_cells(a: Matrix, b: Matrix) -> bool {
    forall|r: int, c: int| in_grid(r, c) ==> #[trigger] cell(a, r, c) == cell(b, r, c)
}

/// Each cell of `a` holds only candidates that the same cell of `b` holds.
pub open spec fn refines(a: Matrix, b: Matrix) -> bool {
    forall|r: int, c: int, v: i8| in_grid(r, c) && #[trigger] cell(a, r, c).contains(v)
        ==> cell(b, r, c).contains(v)
}

/// Every cell is fixed.
pub open spec fn all_fixed(m: Matrix) -> bool {
    forall|r: int, c: int| in_grid(r, c) ==> #[trigger] cell(m, r, c).len() == 1
}

/// The position of the first occurrence of `v` in `s`, given that it occurs.
pub open spec fn first_pos(s: Seq<i8>, v: i8, p: int) -> bool {
    &&& 0 <= p < s.len()
    &&& s[p] == v
    &&& forall|k: int| 0 <= k < p ==> s[k] != v
}

/// The candidates of every cell, as sets keyed by (row, column).
pub open spec fn model(m: Matrix) -> Map<(int, int), Set<i8>> {
    Map::new(|p: (int, int)| in_grid(p.0, p.1), |p: (int, int)| cell(m, p.0, p.1).to_set())
}

/// The number of candidates in the first `n` cells, in row-major order.
pub open spec fn count_upto(m: Matrix, n: int) -> int
    decreases n,
{
    if n <= 0 {
        0
    } else {
        count_upto(m, n - 1) + cell(m, (n - 1) / 9, (n - 1) % 9).len()
    }
}

/// The number of candidates in the whole grid.
pub open spec fn count(m: Matrix) -> int {
    count_upto(m, 81)
}

/// A count of candidates is never negative.
pub proof fn lemma_count_nonneg(m: Matrix, n: int)
    ensures
        count_upto(m, n) >= 0,
    decreases n,
{
    if n > 0 {
        lemma_count_nonneg(m, n - 1);
    }
}

/// Cells never grow from `b` to `a`; where one shrinks, so does the total.
pub proof fn lemma_count_mono(a: Matrix, b: Matrix, n: int)
    requires
        0 <= n <= 81,
        forall|r: int, c: int| in_grid(r, c) ==> #[trigger] cell(a, r, c).len() <= cell(b, r, c).len(),
    ensures
        count_upto(a, n) <= count_upto(b, n),
        (exists|r: int, c: int| in_grid(r, c) && 9 * r + c < n && #[trigger] cell(a, r, c).len() < cell(b, r, c).len())
            ==> count_upto(a, n) < count_upto(b, n),
    decreases n,
{
    if n > 0 {
        lemma_count_mono(a, b, n - 1);
        let r0 = (n - 1) / 9;
        let c0 = (n - 1) % 9;
        assert(in_grid(r0, c0));
        assert(cell(a, r0, c0).len() <= cell(b, r0, c0).len());
        if exists|r: int, c: int| in_grid(r, c) && 9 * r + c < n && #[trigger] cell(a, r, c).len() < cell(b, r, c).len() {
            let (r, c) = choose|r: int, c: int| in_grid(r, c) && 9 * r + c < n && #[trigger] cell(a, r, c).len() < cell(b, r, c).len();
            if 9 * r + c < n - 1 {
            } else {
                assert(r == r0 && c == c0);
            }
        }
    }
}

/// Matrices with the same cells hold the same number of candidates.
pub proof fn lemma_same_cells_count(a: Matrix, b: Matrix)
    requires
        same_cells(a, b),
    ensures
        count(a) == count(b),
{
    lemma_count_mono(a, b, 81);
    lemma_count_mono(b, a, 81);
}

/// Matrices with the same cells agree on every cell of every unit.
pub proof fn lemma_same_cells_units(a: Matrix, b: Matrix)
    requires
        same_cells(a, b),
    ensures
        forall|kind: UnitKind, u: int, k: int| 0 <= u < 9 && 0 <= k < 9 ==> #[trigger] ucell(a, kind, u, k) == ucell(b, kind, u, k),
        wf(a) == wf(b),
        consistent(a) == consistent(b),
{
    assert forall|kind: UnitKind, u: int, k: int| 0 <= u < 9 && 0 <= k < 9 implies #[trigger] ucell(a, kind, u, k) == ucell(b, kind, u, k) by {
        lemma_unit_cells(kind, u, k, k);
    }
    assert(wf(a) == wf(b)) by {
        if wf(a) {
            assert forall|r: int, c: int| in_grid(r, c) implies valid_cell(#[trigger] cell(b, r, c)) by {
                assert(cell(a, r, c) == cell(b, r, c));
            }
        }
        if wf(b) {
            assert forall|r: int, c: int| in_grid(r, c) implies valid_cell(#[trigger] cell(a, r, c)) by {
                assert(cell(a, r, c) == cell(b, r, c));
            }
        }
    }
    assert forall|kind: UnitKind, u: int| 0 <= u < 9 implies #[trigger] unit_consistent(a, kind, u) == unit_consistent(b, kind, u) by {
        assert forall|k: int| 0 <= k < 9 implies #[trigger] ucell(a, kind, u, k) == ucell(b, kind, u, k) by {
            lemma_unit_cells(kind, u, k, k);
        }
        if unit_consistent(a, kind, u) {
            assert forall|k1: int, k2: int|
                0 <= k1 < 9 && 0 <= k2 < 9 && k1 != k2 && #[trigger] ucell(b, kind, u, k1).len() == 1
                    && #[trigger] ucell(b, kind, u, k2).len() == 1 implies ucell(b, kind, u, k1)[0] != ucell(b, kind, u, k2)[0] by {
                assert(ucell(a, kind, u, k1) == ucell(b, kind, u, k1));
                assert(ucell(a, kind, u, k2) == ucell(b, kind, u, k2));
            }
        }
        if unit_consistent(b, kind, u) {
            assert forall|k1: int, k2: int|
                0 <= k1 < 9 && 0 <= k2 < 9 && k1 != k2 && #[trigger] ucell(a, kind, u, k1).len() == 1
                    && #[trigger] ucell(a, kind, u, k2).len() == 1 implies ucell(a, kind, u, k1)[0] != ucell(a, kind, u, k2)[0] by {
                assert(ucell(a, kind, u, k1) == ucell(b, kind, u, k1));
                assert(ucell(a, kind, u, k2) == ucell(b, kind, u, k2));
            }
        }
    }
    assert forall|kind: UnitKind| #[trigger] kind_consistent(a, kind) == kind_consistent(b, kind) by {
        if kind_consistent(a, kind) {
            assert forall|u: int| 0 <= u < 9 implies #[trigger] unit_consistent(b, kind, u) by {
                assert(unit_consistent(a, kind, u));
            }
        }
        if kind_consistent(b, kind) {
            assert forall|u: int| 0 <= u < 9 implies #[trigger] unit_consistent(a, kind, u) by {
                assert(unit_consistent(b, kind, u));
            }
        }
    }
}

/// Taking one candidate out of a valid cell with others left keeps it valid.
pub proof fn lemma_remove_valid(s: Seq<i8>, p: int)
    requires
        valid_cell(s),
        0 <= p < s.len(),
        s.len() > 1,
    ensures
        valid_cell(s.remove(p)),
        s.remove(p).to_set() == s.to_set().remove(s[p]),
        s.remove(p).len() == s.len() - 1,
{
    let t = s.remove(p);
    assert forall|x: i8| t.contains(x) <==> (s.contains(x) && x != s[p]) by {
        if t.contains(x) {
            let k = choose|k: int| 0 <= k < t.len() && t[k] == x;
            if k < p {
                assert(s[k] == x);
            } else {
                assert(s[k + 1] == x);
            }
        }
        if s.contains(x) && x != s[p] {
            let k = choose|k: int| 0 <= k < s.len() && s[k] == x;
            if k < p {
                assert(t[k] == x);
            } else {
                assert(k != p);
                assert(t[k - 1] == x);
            }
        }
    }
    assert(t.to_set() =~= s.to_set().remove(s[p]));
    assert forall|k: int| 0 <= k < t.len() implies 1 <= #[trigger] t[k] <= 9 by {
        if k < p {
            assert(t[k] == s[k]);
        } else {
            assert(t[k] == s[k + 1]);
        }
    }
    assert forall|i: int, j: int| 0 <= i < t.len() && 0 <= j < t.len() && i != j implies t[i] != t[j] by {
        let si = if i < p { i } else { i + 1 };
        let sj = if j < p { j } else { j + 1 };
        assert(t[i] == s[si]);
        assert(t[j] == s[sj]);
    }
}

/// In a valid cell holding `v`, some other candidate is left exactly when
/// the cell holds more than one.
pub proof fn lemma_has_other(s: Seq<i8>, v: i8)
    requires
        valid_cell(s),
        s.contains(v),
    ensures
        has_other(s.to_set(), v) <==> s.len() > 1,
{
    if s.len() > 1 {
        let w = if s[0] == v { s[1] } else { s[0] };
        assert(s.to_set().contains(w));
        assert(w != v);
    }
    if has_other(s.to_set(), v) {
        let w = choose|w: i8| w != v && s.to_set().contains(w);
        let i = choose|i: int| 0 <= i < s.len() && s[i] == w;
        let j = choose|j: int| 0 <= j < s.len() && s[j] == v;
        assert(i != j);
    }
}

/// Some candidate other than `v` is in `s`.
pub open spec fn has_other(s: Set<i8>, v: i8) -> bool {
    exists|w: i8| w != v && s.contains(w)
}

/// The three kinds of unit: each holds nine cells that must all differ.
#[derive(Clone, Copy, PartialEq, Eq, Structural)]
pub enum UnitKind {
    Row,
    Column,
    Box,
}

/// The row of the `k`-th cell of unit `u` of the given kind (boxes are
/// numbered row-major, and so are the cells inside a box).
pub open spec fn unit_row(kind: UnitKind, u: int, k: int) -> int {
    match kind {
        UnitKind::Row => u,
        UnitKind::Column => k,
        UnitKind::Box => 3 * (u / 3) + k / 3,
    }
}

/// The column of the `k`-th cell of unit `u` of the given kind.
pub open spec fn unit_col(kind: UnitKind, u: int, k: int) -> int {
    match kind {
        UnitKind::Row => k,
        UnitKind::Column => u,
        UnitKind::Box => 3 * (u % 3) + k % 3,
    }
}

/// The candidates of the `k`-th cell of unit `u`.
pub open spec fn ucell(m: Matrix, kind: UnitKind, u: int, k: int) -> Seq<i8> {
    cell(m, unit_row(kind, u, k), unit_col(kind, u, k))
}

/// The cells of a unit lie in the grid and are pairwise distinct.
pub proof fn lemma_unit_cells(kind: UnitKind, u: int, k1: int, k2: int)
    requires
        0 <= u < 9,
        0 <= k1 < 9,
        0 <= k2 < 9,
    ensures
        in_grid(unit_row(kind, u, k1), unit_col(kind, u, k1)),
        k1 != k2 ==> (unit_row(kind, u, k1) != unit_row(kind, u, k2) || unit_col(kind, u, k1) != unit_col(
            kind,
            u,
            k2,
        )),
{
}

/// The position in the grid of the `k`-th cell of unit `u`.
pub fn unit_cell(kind: UnitKind, u: usize, k: usize) -> (r: (usize, usize))
    requires
        u < 9,
        k < 9,
    ensures
        r.0 == unit_row(kind, u as int, k as int),
        r.1 == unit_col(kind, u as int, k as int),
        r.0 < 9,
        r.1 < 9,
{
    match kind {
        UnitKind::Row => (u, k),
        UnitKind::Column => (k, u),
        UnitKind::Box => (3 * (u / 3) + k / 3, 3 * (u % 3) + k % 3),
    }
}

/// No two fixed cells of unit `u` hold the same value.
pub open spec fn unit_consistent(m: Matrix, kind: UnitKind, u: int) -> bool {
    forall|k1: int, k2: int|
        0 <= k1 < 9 && 0 <= k2 < 9 && k1 != k2 && #[trigger] ucell(m, kind, u, k1).len() == 1
            && #[trigger] ucell(m, kind, u, k2).len() == 1 ==> ucell(m, kind, u, k1)[0] != ucell(
            m,
            kind,
            u,
            k2,
        )[0]
}

/// No unit of the kind holds two fixed cells with the same value.
pub open spec fn kind_consistent(m: Matrix, kind: UnitKind) -> bool {
    forall|u: int| 0 <= u < 9 ==> #[trigger] unit_consistent(m, kind, u)
}

/// No row, column or box holds two fixed cells with the same value.
pub open spec fn consistent(m: Matrix) -> bool {
    &&& kind_consistent(m, UnitKind::Row)
    &&& kind_consistent(m, UnitKind::Column)
    &&& kind_consistent(m, UnitKind::Box)
}

/// A filled-in grid: well formed, every cell fixed, no unit repeating a value.
pub open spec fn is_solution(m: Matrix) -> bool {
    &&& wf(m)
    &&& all_fixed(m)
    &&& consistent(m)
}

/// A character that stands for a cell: a decimal digit or the placeholder `_`.
pub open spec fn is_token(c: char) -> bool {
    ('0' <= c && c <= '9') || c == '_'
}

/// The characters of `s` that stand for cells, in order.
pub open spec fn tokens(s: Seq<char>) -> Seq<char>
    decreases s.len(),
{
    if s.len() == 0 {
        seq![]
    } else if is_token(s.last()) {
        tokens(s.drop_last()).push(s.last())
    } else {
        tokens(s.drop_last())
    }
}

/// The cell a token stands for: a digit fixes the cell to it, the
/// placeholder leaves every digit possible.
pub open spec fn token_cell(c: char) -> Seq<i8> {
    if c == '_' {
        seq![1i8, 2, 3, 4, 5, 6, 7, 8, 9]
    } else {
        seq![(c as int - '0' as int) as i8]
    }
}

/// The tokens of a prefix are a prefix of the tokens.
pub proof fn lemma_tokens_prefix(s: Seq<char>, a: int, b: int)
    requires
        0 <= a <= b <= s.len(),
    ensures
        tokens(s.subrange(0, b)).len() >= tokens(s.subrange(0, a)).len(),
        forall|k: int| 0 <= k < tokens(s.subrange(0, a)).len()
            ==> #[trigger] tokens(s.subrange(0, b))[k] == tokens(s.subrange(0, a))[k],
        b == s.len() ==> s.subrange(0, b) == s,
    decreases b - a,
{
    assert(s.subrange(0, s.len() as int) =~= s);
    if a < b {
        lemma_tokens_prefix(s, a, b - 1);
        assert(s.subrange(0, b).drop_last() =~= s.subrange(0, b - 1));
    }
}

/// Every token is a digit or the placeholder.
pub proof fn lemma_tokens_are_tokens(s: Seq<char>)
    ensures
        forall|c: char| #[trigger] tokens(s).contains(c) ==> is_token(c),
    decreases s.len(),
{
    if s.len() > 0 {
        lemma_tokens_are_tokens(s.drop_last());
        assert forall|c: char| #[trigger] tokens(s).contains(c) implies is_token(c) by {
            let k = choose|k: int| 0 <= k < tokens(s).len() && tokens(s)[k] == c;
            if k < tokens(s.drop_last()).len() {
                assert(tokens(s.drop_last()).contains(c));
            }
        }
    }
}

/// Every solution whose candidates lie within `a` also lies within `b`.
pub open spec fn keeps_solutions(a: Matrix, b: Matrix) -> bool {
    forall|s: Matrix| is_solution(s) && #[trigger] refines(s, a) ==> refines(s, b)
}

/// A solution within `m` holds the value of every cell that `m` has fixed.
pub proof fn lemma_solution_agrees(m: Matrix, s: Matrix, r: int, c: int)
    requires
        is_solution(s),
        refines(s, m),
        in_grid(r, c),
        cell(m, r, c).len() == 1,
    ensures
        cell(s, r, c) == cell(m, r, c),
{
    assert(cell(s, r, c).len() == 1);
    assert(cell(s, r, c).contains(cell(s, r, c)[0]));
    assert(cell(m, r, c).contains(cell(s, r, c)[0]));
    assert(cell(s, r, c) =~= cell(m, r, c));
}

/// A grid within which some solution lies is consistent.
pub proof fn lemma_solution_makes_consistent(m: Matrix, s: Matrix)
    requires
        is_solution(s),
        refines(s, m),
    ensures
        consistent(m),
{
    assert forall|kind: UnitKind, u: int| 0 <= u < 9 implies #[trigger] unit_consistent(m, kind, u) by {
        assert forall|k1: int, k2: int|
            0 <= k1 < 9 && 0 <= k2 < 9 && k1 != k2 && #[trigger] ucell(m, kind, u, k1).len() == 1
                && #[trigger] ucell(m, kind, u, k2).len() == 1 implies ucell(m, kind, u, k1)[0] != ucell(m, kind, u, k2)[0] by {
            lemma_unit_cells(kind, u, k1, k2);
            lemma_unit_cells(kind, u, k2, k1);
            lemma_solution_agrees(m, s, unit_row(kind, u, k1), unit_col(kind, u, k1));
            lemma_solution_agrees(m, s, unit_row(kind, u, k2), unit_col(kind, u, k2));
            assert(kind_consistent(s, kind));
            assert(unit_consistent(s, kind, u));
            assert(ucell(s, kind, u, k1).len() == 1);
            assert(ucell(s, kind, u, k2).len() == 1);
        }
    }
    assert(kind_consistent(m, UnitKind::Row));
    assert(kind_consistent(m, UnitKind::Column));
    assert(kind_consistent(m, UnitKind::Box));
}

/// Two cells of one unit of a solution hold different values.
pub proof fn lemma_solution_unit_distinct(s: Matrix, kind: UnitKind, u: int, k1: int, k2: int)
    requires
        is_solution(s),
        0 <= u < 9,
        0 <= k1 < 9,
        0 <= k2 < 9,
        k1 != k2,
    ensures
        ucell(s, kind, u, k1).len() == 1,
        ucell(s, kind, u, k2).len() == 1,
        ucell(s, kind, u, k1)[0] != ucell(s, kind, u, k2)[0],
        forall|x: i8| ucell(s, kind, u, k1).contains(x) <==> x == ucell(s, kind, u, k1)[0],
{
    lemma_unit_cells(kind, u, k1, k2);
    lemma_unit_cells(kind, u, k2, k1);
    assert(kind_consistent(s, kind));
    assert(unit_consistent(s, kind, u));
    assert(ucell(s, kind, u, k1).len() == 1);
    assert(ucell(s, kind, u, k2).len() == 1);
    assert(ucell(s, kind, u, k1).contains(ucell(s, kind, u, k1)[0]));
}

/// The whole candidate grid of a puzzle.
pub struct sudoku {
    pub sudokuMatrix: Matrix,
}

impl sudoku {
    /// Removes `value` from the cell at (`i`, `j`); a value that is absent
    /// leaves the cell as it is.
    pub fn deleteCellValue(&mut self, i: i8, j: i8, value: i8)
        requires
            0 <= i < 9,
            0 <= j < 9,
            cell(old(self).sudokuMatrix, i as int, j as int).len() > 1
                || !cell(old(self).sudokuMatrix, i as int, j as int).contains(value),
        ensures
            cell(old(self).sudokuMatrix, i as int, j as int).contains(value) ==> exists|p: int|
                first_pos(cell(old(self).sudokuMatrix, i as int, j as int), value, p)
                && cell(final(self).sudokuMatrix, i as int, j as int)
                == cell(old(self).sudokuMatrix, i as int, j as int).remove(p),
            !cell(old(self).sudokuMatrix, i as int, j as int).contains(value)
                ==> cell(final(self).sudokuMatrix, i as int, j as int)
                == cell(old(self).sudokuMatrix, i as int, j as int),
            forall|r: int, c: int| in_grid(r, c) && (r != i || c != j)
                ==> #[trigger] cell(final(self).sudokuMatrix, r, c) == cell(old(self).sudokuMatrix, r, c),
    {
        deleteSliceElement(&mut self.sudokuMatrix[i as usize][j as usize], value);
    }

    /// A copy of the candidates of the cell at (`i`, `j`).
    pub fn getCellValue(&self, i: i8, j: i8) -> (r: Vec<i8>)
        requires
            0 <= i < 9,
            0 <= j < 9,
        ensures
            r@ == cell(self.sudokuMatrix, i as int, j as int),
    {
        copy_cell(&self.sudokuMatrix[i as usize][j as usize])
    }

    /// Whether the cell at (`i`, `j`) is undetermined and still admits `value`.
    pub fn checkCellValue(&self, i: i8, j: i8, value: i8) -> (r: bool)
        requires
            0 <= i < 9,
            0 <= j < 9,
        ensures
            r == (cell(self.sudokuMatrix, i as int, j as int).len() > 1
                && cell(self.sudokuMatrix, i as int, j as int).contains(value)),
    {
        self.sudokuMatrix[i as usize][j as usize].len() > 1 && contains(
            &self.sudokuMatrix[i as usize][j as usize],
            value,
        )
    }

    /// Reads a puzzle from its text: the digits 1 to 9 are fixed cells and
    /// `_` an empty one, row after row; other characters are ignored. Returns
    /// `None` unless there are exactly 81 cells, none written `0`.
    pub fn new(text: &Vec<char>) -> (r: Option<sudoku>)
        ensures
            r is Some <==> tokens(text@).len() == 81 && !tokens(text@).contains('0'),
            r matches Some(g) ==> wf(g.sudokuMatrix) && forall|i: int, j: int| in_grid(i, j)
                ==> #[trigger] cell(g.sudokuMatrix, i, j) == token_cell(tokens(text@)[9 * i + j]),
    {
        let mut matrix = empty_matrix();
        let mut n: usize = 0;
        let mut z: usize = 0;
        while z < text.len()
            invariant
                z <= text.len(),
                n == tokens(text@.subrange(0, z as int)).len(),
                n <= 81,
                !tokens(text@.subrange(0, z as int)).contains('0'),
                forall|i: int, j: int| in_grid(i, j) && 9 * i + j < n ==> #[trigger] cell(matrix, i, j)
                    == token_cell(tokens(text@.subrange(0, z as int))[9 * i + j]),
            decreases text.len() - z,
        {
            let c = text[z];
            let ghost before = tokens(text@.subrange(0, z as int));
            assert(text@.subrange(0, z + 1).drop_last() =~= text@.subrange(0, z as int));
            if isNumeric(c) || c == '_' {
                assert(tokens(text@.subrange(0, z + 1)) == before.push(c));
                if c == '0' {
                    assert(tokens(text@.subrange(0, z + 1))[n as int] == '0');
                    proof {
                        lemma_tokens_prefix(text@, z + 1, text@.len() as int);
                        assert(tokens(text@)[n as int] == '0');
                    }
                    return None;
                }
                if n == 81 {
                    proof {
                        lemma_tokens_prefix(text@, z + 1, text@.len() as int);
                    }
                    return None;
                }
                let value: Vec<i8> = if c == '_' {
                    vec![1, 2, 3, 4, 5, 6, 7, 8, 9]
                } else {
                    let digit = (c as u32 - '0' as u32) as i8;
                    vec![digit]
                };
                assert(value@ =~= token_cell(c));
                set_cell(&mut matrix, n / 9, n % 9, value);
                proof {
                    assert(!tokens(text@.subrange(0, z + 1)).contains('0')) by {
                        let t1 = tokens(text@.subrange(0, z + 1));
                        if t1.contains('0') {
                            let k = choose|k: int| 0 <= k < t1.len() && t1[k] == '0';
                            if k < n {
                                assert(before[k] == '0');
                            }
                        }
                    }
                    assert forall|i: int, j: int| in_grid(i, j) && 9 * i + j < n + 1 implies #[trigger] cell(matrix, i, j)
                        == token_cell(tokens(text@.subrange(0, z + 1))[9 * i + j]) by {
                        if 9 * i + j < n {
                            assert(i != n / 9 || j != n % 9);
                        } else {
                            assert(i == n / 9 && j == n % 9);
                        }
                    }
                }
                n += 1;
            }
            z += 1;
        }
        assert(text@.subrange(0, text@.len() as int) =~= text@);
        if n == 81 {
            proof {
                assert forall|i: int, j: int| in_grid(i, j) implies valid_cell(#[trigger] cell(matrix, i, j)) by {
                    let t = tokens(text@)[9 * i + j];
                    assert(tokens(text@).contains(t));
                    lemma_tokens_are_tokens(text@);
                    if t != '_' {
                        assert(t != '0');
                    }
                }
            }
            Some(sudoku { sudokuMatrix: matrix })
        } else {
            None
        }
    }

    /// Wraps a candidate matrix.
    pub fn newContainer(sudokuMatrix: Matrix) -> (r: sudoku)
        ensures
            r.sudokuMatrix == sudokuMatrix,
    {
        sudoku { sudokuMatrix }
    }
}

/// An empty candidate matrix.
pub fn empty_matrix() -> (r: Matrix)
    ensures
        forall|i: int, j: int| in_grid(i, j) ==> #[trigger] cell(r, i, j).len() == 0,
{
    [empty_row(), empty_row(), empty_row(), empty_row(), empty_row(), empty_row(), empty_row(), empty_row(), empty_row()]
}

fn empty_row() -> (r: [Vec<i8>; 9])
    ensures
        forall|j: int| 0 <= j < 9 ==> (#[trigger] r@[j])@.len() == 0,
{
    [Vec::new(), Vec::new(), Vec::new(), Vec::new(), Vec::new(), Vec::new(), Vec::new(), Vec::new(), Vec::new()]
}

/// A copy of the matrix, cell by cell.
pub fn copySudokuMatrix(sudoku: &Matrix) -> (r: Matrix)
    ensures
        same_cells(r, *sudoku),
{
    let mut out = empty_matrix();
    let mut i: usize = 0;
    while i < 9
        invariant
            i <= 9,
            forall|r: int, c: int| 0 <= r < i && 0 <= c < 9 ==> #[trigger] cell(out, r, c) == cell(*sudoku, r, c),
        decreases 9 - i,
    {
        let mut j: usize = 0;
        while j < 9
            invariant
                i < 9,
                j <= 9,
                forall|r: int, c: int| 0 <= r < i && 0 <= c < 9 ==> #[trigger] cell(out, r, c) == cell(*sudoku, r, c),
                forall|c: int| 0 <= c < j ==> #[trigger] cell(out, i as int, c) == cell(*sudoku, i as int, c),
            decreases 9 - j,
        {
            set_cell(&mut out, i, j, copy_cell(&sudoku[i][j]));
            j += 1;
        }
        i += 1;
    }
    out
}

/// Replaces the cell at (`i`, `j`), leaving every other cell as it was.
pub fn set_cell(m: &mut Matrix, i: usize, j: usize, v: Vec<i8>)
    requires
        i < 9,
        j < 9,
    ensures
        cell(*final(m), i as int, j as int) == v@,
        forall|r: int, c: int| in_grid(r, c) && (r != i || c != j)
            ==> #[trigger] cell(*final(m), r, c) == cell(*old(m), r, c),
{
    let ghost before = *m;
    m[i][j] = v;
    assert(forall|r: int| 0 <= r < 9 && r != i ==> m@[r] == before@[r]);
    assert(forall|c: int| 0 <= c < 9 && c != j ==> m@[i as int]@[c] == before@[i as int]@[c]);
}

/// A fresh vector with the same elements.
pub fn copy_cell(s: &Vec<i8>) -> (r: Vec<i8>)
    ensures
        r@ == s@,
{
    let mut r: Vec<i8> = Vec::new();
    let mut k: usize = 0;
    while k < s.len()
        invariant
            k <= s.len(),
            r@ == s@.subrange(0, k as int),
        decreases s.len() - k,
    {
        r.push(s[k]);
        k += 1;
    }
    assert(r@ =~= s@);
    r
}

/// Whether the cell is undetermined and still admits `value`.
pub fn checkSliceElement(slice: &Vec<i8>, value: i8) -> (r: bool)
    ensures
        r == (slice@.len() > 1 && slice@.contains(value)),
{
    slice.len() > 1 && contains(slice, value)
}

/// Whether `v` occurs in `slice`.
pub fn contains(slice: &Vec<i8>, v: i8) -> (r: bool)
    ensures
        r == slice@.contains(v),
{
    let mut k: usize = 0;
    while k < slice.len()
        invariant
            k <= slice.len(),
            forall|t: int| 0 <= t < k ==> slice@[t] != v,
        decreases slice.len() - k,
    {
        if slice[k] == v {
            return true;
        }
        k += 1;
    }
    false
}

/// Removes the first occurrence of `v`; a value that does not occur leaves
/// the vector as it is.
pub fn deleteSliceElement(slice: &mut Vec<i8>, v: i8)
    ensures
        old(slice)@.contains(v) ==> exists|p: int| first_pos(old(slice)@, v, p) && final(slice)@ == old(slice)@.remove(p),
        !old(slice)@.contains(v) ==> final(slice)@ == old(slice)@,
{
    if contains(slice, v) {
        let pos = findSliceElement(slice, v);
        slice.remove(pos);
        assert(first_pos(old(slice)@, v, pos as int));
    }
}

/// The position of the first occurrence of `v`, which must occur.
pub fn findSliceElement(slice: &Vec<i8>, v: i8) -> (r: usize)
    requires
        slice@.contains(v),
    ensures
        first_pos(slice@, v, r as int),
{
    let mut k: usize = 0;
    while k < slice.len()
        invariant
            k <= slice.len(),
            slice@.contains(v),
            forall|t: int| 0 <= t < k ==> slice@[t] != v,
        decreases slice.len() - k,
    {
        if slice[k] == v {
            return k;
        }
        k += 1;
    }
    k
}

/// Whether `b` is a decimal digit.
pub fn isNumeric(b: char) -> (r: bool)
    ensures
        r == ('0' <= b && b <= '9'),
{
    '0' <= b && b <= '9'
}

} // verus!
