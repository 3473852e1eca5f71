//! The board as text: each cell takes three lines of three two-character
//! slots; an undetermined cell shows the candidates it still admits, a fixed
//! cell shows its value in the middle.
use vstd::prelude::*;
use crate::grid::{cell, sudoku, valid_cell, wf};
use crate::store::sudokuIOManager;

verus! {

/// The character of a digit from 0 to 9.
pub open spec fn digit_char(v: int) -> char {
    ('0' as int + v) as char
}

/// Slot `z` of line `line` of a cell: candidate `3 * line + z + 1` of an
/// undetermined cell if it admits it, the value of a fixed cell in the
/// middle slot of the middle line, blank otherwise.
pub open spec fn slot_text(c: Seq<i8>, line: int, z: int) -> Seq<char> {
    if c.len() > 1 {
        if c.contains((3 * line + z + 1) as i8) {
            seq![digit_char(3 * line + z + 1), ' ']
        } else {
            seq![' ', ' ']
        }
    } else if line == 1 && z == 1 {
        seq![digit_char(c[0] as int), ' ']
    } else {
        seq![' ', ' ']
    }
}

/// Line `line` of a cell: its three slots.
pub open spec fn cell_text(c: Seq<i8>, line: int) -> Seq<char> {
    slot_text(c, line, 0) + slot_text(c, line, 1) + slot_text(c, line, 2)
}

/// What follows cell `j` of a line: a bar that closes each box and a bar
/// with a space between cells.
pub open spec fn separator_text(j: int) -> Seq<char> {
    (if j == 2 || j == 5 {
        seq!['|']
    } else {
        seq![]
    }) + (if j < 8 {
        seq!['|', ' ']
    } else {
        seq![]
    })
}

/// Line `line` of row `row` over its first `n` cells.
pub open spec fn line_text_upto(m: [[Vec<i8>; 9]; 9], row: int, line: int, n: int) -> Seq<char>
    decreases n,
{
    if n <= 0 {
        seq![]
    } else {
        line_text_upto(m, row, line, n - 1) + cell_text(cell(m, row, n - 1), line) + separator_text(n - 1)
    }
}

/// Line `line` of row `row`, ended by a newline.
pub open spec fn line_text(m: [[Vec<i8>; 9]; 9], row: int, line: int) -> Seq<char> {
    line_text_upto(m, row, line, 9).push('\n')
}

/// The three lines of row `row`.
pub open spec fn row_text(m: [[Vec<i8>; 9]; 9], row: int) -> Seq<char> {
    line_text(m, row, 0) + line_text(m, row, 1) + line_text(m, row, 2)
}

/// The rule under a row: seventy-two dashes and a newline.
pub open spec fn end_row_text() -> Seq<char> {
    Seq::new(72, |i: int| '-').push('\n')
}

/// The first `n` rows, each followed by a rule, and by a second rule under
/// each band of three rows but the last.
pub open spec fn board_text_upto(m: [[Vec<i8>; 9]; 9], n: int) -> Seq<char>
    decreases n,
{
    if n <= 0 {
        seq![]
    } else {
        board_text_upto(m, n - 1) + row_text(m, n - 1) + end_row_text() + (if n - 1 == 2 || n - 1 == 5 {
            end_row_text()
        } else {
            seq![]
        })
    }
}

/// Appends the characters of `s` to `out`.
fn append_chars(out: &mut Vec<char>, s: &Vec<char>)
    ensures
        final(out)@ == old(out)@ + s@,
{
    let mut k: usize = 0;
    while k < s.len()
        invariant
            k <= s.len(),
            out@ == old(out)@ + s@.subrange(0, k as int),
        decreases s.len() - k,
    {
        out.push(s[k]);
        k += 1;
        assert(old(out)@ + s@.subrange(0, k as int) =~= old(out)@ + s@.subrange(0, k - 1) + seq![s@[k - 1]]);
    }
    assert(s@.subrange(0, s@.len() as int) =~= s@);
}

/// The character of a digit from 0 to 9.
fn digit(v: i8) -> (r: char)
    requires
        0 <= v <= 9,
    ensures
        r == digit_char(v as int),
{
    let d = v as u8 + 48;
    d as char
}

impl sudoku {
    /// The board, row by row.
    pub fn printSudoku(&self) -> (r: Vec<char>)
        requires
            wf(self.sudokuMatrix),
        ensures
            r@ == board_text_upto(self.sudokuMatrix, 9),
    {
        let mut out: Vec<char> = Vec::new();
        let mut i: usize = 0;
        while i < 9
            invariant
                i <= 9,
                wf(self.sudokuMatrix),
                out@ == board_text_upto(self.sudokuMatrix, i as int),
            decreases 9 - i,
        {
            let rowText = self.printSudokuRow(i);
            append_chars(&mut out, &rowText);
            let endRow = self.printSudokuEndRow();
            append_chars(&mut out, &endRow);
            if i == 2 || i == 5 {
                append_chars(&mut out, &endRow);
            } else {
                assert(out@ =~= out@ + Seq::<char>::empty());
            }
            i += 1;
        }
        out
    }

    /// The three lines of row `row`.
    pub fn printSudokuRow(&self, row: usize) -> (r: Vec<char>)
        requires
            row < 9,
            wf(self.sudokuMatrix),
        ensures
            r@ == row_text(self.sudokuMatrix, row as int),
    {
        let mut out = self.printSudokuLine(row, 0);
        let second = self.printSudokuLine(row, 1);
        append_chars(&mut out, &second);
        let third = self.printSudokuLine(row, 2);
        append_chars(&mut out, &third);
        out
    }

    /// The rule under a row.
    fn printSudokuEndRow(&self) -> (r: Vec<char>)
        ensures
            r@ == end_row_text(),
    {
        let mut out: Vec<char> = Vec::new();
        let mut k: usize = 0;
        while k < 72
            invariant
                k <= 72,
                out@ == Seq::new(k as nat, |i: int| '-'),
            decreases 72 - k,
        {
            out.push('-');
            k += 1;
            assert(out@ =~= Seq::new(k as nat, |i: int| '-'));
        }
        out.push('\n');
        out
    }

    /// Line `line` of row `row`.
    fn printSudokuLine(&self, row: usize, line: usize) -> (r: Vec<char>)
        requires
            row < 9,
            line < 3,
            wf(self.sudokuMatrix),
        ensures
            r@ == line_text(self.sudokuMatrix, row as int, line as int),
    {
        let mut out: Vec<char> = Vec::new();
        let mut j: usize = 0;
        while j < 9
            invariant
                row < 9,
                line < 3,
                j <= 9,
                wf(self.sudokuMatrix),
                out@ == line_text_upto(self.sudokuMatrix, row as int, line as int, j as int),
            decreases 9 - j,
        {
            let sudokuCell = &self.sudokuMatrix[row][j];
            assert(valid_cell(cell(self.sudokuMatrix, row as int, j as int)));
            let ghost before = out@;
            let mut z: usize = 0;
            while z < 3
                invariant
                    row < 9,
                    line < 3,
                    j < 9,
                    z <= 3,
                    valid_cell(sudokuCell@),
                    sudokuCell@ == cell(self.sudokuMatrix, row as int, j as int),
                    z == 0 ==> out@ == before,
                    z == 1 ==> out@ == before + slot_text(sudokuCell@, line as int, 0),
                    z == 2 ==> out@ == before + slot_text(sudokuCell@, line as int, 0) + slot_text(sudokuCell@, line as int, 1),
                    z == 3 ==> out@ == before + cell_text(sudokuCell@, line as int),
                decreases 3 - z,
            {
                let ghost prev = out@;
                if sudokuCell.len() > 1 {
                    let value = (3 * line + z + 1) as i8;
                    if crate::grid::contains(sudokuCell, value) {
                        out.push(digit(value));
                    } else {
                        out.push(' ');
                    }
                } else if line == 1 && z == 1 {
                    assert(1 <= sudokuCell@[0] <= 9);
                    out.push(digit(sudokuCell[0]));
                } else {
                    out.push(' ');
                }
                out.push(' ');
                assert(out@ =~= prev + slot_text(sudokuCell@, line as int, z as int));
                z += 1;
            }
            if j == 2 || j == 5 {
                out.push('|');
            }
            if j < 8 {
                out.push('|');
                out.push(' ');
            }
            assert(out@ =~= before + cell_text(sudokuCell@, line as int) + separator_text(j as int));
            j += 1;
        }
        out.push('\n');
        out
    }
}

impl sudokuIOManager {
    /// The applied grid as text.
    pub fn PrintSudoku(&self) -> (r: Vec<char>)
        requires
            wf(self.sudokuVar.sudokuMatrix),
        ensures
            r@ == board_text_upto(self.sudokuVar.sudokuMatrix, 9),
    {
        self.sudokuVar.printSudoku()
    }
}

} // verus!
