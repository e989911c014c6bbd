//! The board model: the three sizes, the geometry each one fixes, and the
//! mathematical view of a board as a sequence of rows.

use vstd::prelude::*;

verus! {

/// The three board sizes the engine knows.
#[allow(non_camel_case_types)]
#[derive(Debug, Clone, Copy, PartialEq, Eq, Structural)]
pub enum SudokuSize {
    SUDOKU4X4,
    SUDOKU9X9,
    SUDOKU16X16,
}

impl SudokuSize {
    /// Side length of a sub-box.
    pub open spec fn spec_box_dimension(self) -> usize {
        match self {
            SudokuSize::SUDOKU4X4 => 2,
            SudokuSize::SUDOKU9X9 => 3,
            SudokuSize::SUDOKU16X16 => 4,
        }
    }

    /// Side length of the board: the square of the box dimension.
    pub open spec fn spec_dimension(self) -> usize {
        match self {
            SudokuSize::SUDOKU4X4 => 4,
            SudokuSize::SUDOKU9X9 => 9,
            SudokuSize::SUDOKU16X16 => 16,
        }
    }

    /// Number of cells a puzzle of this size leaves empty.
    pub open spec fn spec_empty_cells(self) -> usize {
        match self {
            SudokuSize::SUDOKU4X4 => 6,
            SudokuSize::SUDOKU9X9 => 40,
            SudokuSize::SUDOKU16X16 => 120,
        }
    }

    /// Side length of a sub-box: 2, 3 or 4.
    #[verifier::when_used_as_spec(spec_box_dimension)]
    pub fn box_dimension(self) -> (b: usize)
        ensures
            b == self.spec_box_dimension(),
    {
        match self {
            SudokuSize::SUDOKU4X4 => 2,
            SudokuSize::SUDOKU9X9 => 3,
            SudokuSize::SUDOKU16X16 => 4,
        }
    }

    /// Side length of the board: 4, 9 or 16.
    #[verifier::when_used_as_spec(spec_dimension)]
    pub fn dimension(self) -> (n: usize)
        ensures
            n == self.spec_dimension(),
            n == self.spec_box_dimension() * self.spec_box_dimension(),
    {
        let b: usize = self.box_dimension();
        b * b
    }

    /// Number of cells removed from a full board of this size: 6, 40 or 120.
    #[verifier::when_used_as_spec(spec_empty_cells)]
    pub fn empty_cells(self) -> (k: usize)
        ensures
            k == self.spec_empty_cells(),
            k < self.spec_dimension() * self.spec_dimension(),
    {
        match self {
            SudokuSize::SUDOKU4X4 => 6,
            SudokuSize::SUDOKU9X9 => 40,
            SudokuSize::SUDOKU16X16 => 120,
        }
    }
}

/// The board as a sequence of rows, each a sequence of cell values.
pub open spec fn grid(board: &Vec<Vec<u8>>) -> Seq<Seq<u8>> {
    Seq::new(board@.len(), |r: int| board@[r]@)
}

/// `g` has `n` rows of `n` cells each.
pub open spec fn is_grid(g: Seq<Seq<u8>>, n: int) -> bool {
    &&& g.len() == n
    &&& forall|r: int| 0 <= r < n ==> (#[trigger] g[r]).len() == n
}

/// `g` with the cell at (`row`, `col`) replaced by `value`.
pub open spec fn with_cell(g: Seq<Seq<u8>>, row: int, col: int, value: u8) -> Seq<Seq<u8>> {
    g.update(row, g[row].update(col, value))
}

/// Writes `value` into the cell at (`row`, `col`).
pub fn set_cell(board: &mut Vec<Vec<u8>>, row: usize, col: usize, value: u8)
    requires
        row < old(board)@.len(),
        col < old(board)@[row as int]@.len(),
    ensures
        grid(final(board)) == with_cell(grid(old(board)), row as int, col as int, value),
{
    board[row][col] = value;
    assert(grid(board) =~= with_cell(grid(old(board)), row as int, col as int, value));
}

/// Every cell of `g` holds a value other than zero.
pub open spec fn is_full(g: Seq<Seq<u8>>) -> bool {
    forall|r: int, c: int| 0 <= r < g.len() && 0 <= c < g[r].len() ==> #[trigger] g[r][c] != 0
}

/// The grid of `n` rows of `n` empty cells.
pub open spec fn zero_grid(n: nat) -> Seq<Seq<u8>> {
    Seq::new(n, |r: int| Seq::new(n, |c: int| 0u8))
}

/// 1 for an empty cell, 0 for a filled one.
pub open spec fn zero_weight(value: u8) -> nat {
    if value == 0 {
        1
    } else {
        0
    }
}

/// Number of empty cells in one row.
pub open spec fn row_zeros(s: Seq<u8>) -> nat
    decreases s.len(),
{
    if s.len() == 0 {
        0
    } else {
        row_zeros(s.drop_last()) + zero_weight(s.last())
    }
}

/// Number of empty cells in the whole grid.
pub open spec fn zero_count(g: Seq<Seq<u8>>) -> nat
    decreases g.len(),
{
    if g.len() == 0 {
        0
    } else {
        zero_count(g.drop_last()) + row_zeros(g.last())
    }
}

/// Rewriting one cell of a row changes the row's count of empty cells by the
/// difference of the two values' weights.
pub proof fn lemma_row_zeros_update(s: Seq<u8>, i: int, value: u8)
    requires
        0 <= i < s.len(),
    ensures
        row_zeros(s.update(i, value)) + zero_weight(s[i]) == row_zeros(s) + zero_weight(value),
    decreases s.len(),
{
    let t = s.update(i, value);
    if i == s.len() - 1 {
        assert(t.drop_last() =~= s.drop_last());
    } else {
        lemma_row_zeros_update(s.drop_last(), i, value);
        assert(t.drop_last() =~= s.drop_last().update(i, value));
    }
}

/// Replacing one row changes the grid's count of empty cells by the
/// difference of the two rows' counts.
pub proof fn lemma_zero_count_update(g: Seq<Seq<u8>>, r: int, row: Seq<u8>)
    requires
        0 <= r < g.len(),
    ensures
        zero_count(g.update(r, row)) + row_zeros(g[r]) == zero_count(g) + row_zeros(row),
    decreases g.len(),
{
    let h = g.update(r, row);
    if r == g.len() - 1 {
        assert(h.drop_last() =~= g.drop_last());
    } else {
        lemma_zero_count_update(g.drop_last(), r, row);
        assert(h.drop_last() =~= g.drop_last().update(r, row));
    }
}

/// Rewriting one cell changes the grid's count of empty cells by the
/// difference of the two values' weights.
pub proof fn lemma_zero_count_with_cell(g: Seq<Seq<u8>>, row: int, col: int, value: u8)
    requires
        0 <= row < g.len(),
        0 <= col < g[row].len(),
    ensures
        zero_count(with_cell(g, row, col, value)) + zero_weight(g[row][col]) == zero_count(g)
            + zero_weight(value),
{
    lemma_row_zeros_update(g[row], col, value);
    lemma_zero_count_update(g, row, g[row].update(col, value));
}

/// A row without an empty cell counts zero of them, and conversely.
pub proof fn lemma_row_zeros_none(s: Seq<u8>)
    ensures
        row_zeros(s) == 0 <==> forall|c: int| 0 <= c < s.len() ==> s[c] != 0,
    decreases s.len(),
{
    if s.len() > 0 {
        lemma_row_zeros_none(s.drop_last());
        if row_zeros(s) == 0 {
            assert forall|c: int| 0 <= c < s.len() implies s[c] != 0 by {
                if c < s.len() - 1 {
                    assert(s.drop_last()[c] == s[c]);
                }
            }
        }
        if forall|c: int| 0 <= c < s.len() ==> s[c] != 0 {
            assert forall|c: int| 0 <= c < s.drop_last().len() implies s.drop_last()[c] != 0 by {
                assert(s.drop_last()[c] == s[c]);
            }
        }
    }
}

/// A full grid counts zero empty cells, and conversely.
pub proof fn lemma_zero_count_none(g: Seq<Seq<u8>>)
    ensures
        zero_count(g) == 0 <==> is_full(g),
    decreases g.len(),
{
    if g.len() > 0 {
        let h = g.drop_last();
        lemma_zero_count_none(h);
        lemma_row_zeros_none(g.last());
        if zero_count(g) == 0 {
            assert forall|r: int, c: int| 0 <= r < g.len() && 0 <= c < g[r].len() implies #[trigger] g[r][c]
                != 0 by {
                if r < g.len() - 1 {
                    assert(h[r][c] != 0);
                }
            }
        }
        if is_full(g) {
            assert forall|r: int, c: int| 0 <= r < h.len() && 0 <= c < h[r].len() implies #[trigger] h[r][c]
                != 0 by {
                assert(g[r][c] != 0);
            }
            assert forall|c: int| 0 <= c < g.last().len() implies g.last()[c] != 0 by {
                assert(g[g.len() - 1][c] != 0);
            }
        }
    }
}

/// Builds the empty board of `n` rows and `n` columns.
pub fn empty_grid(n: usize) -> (board: Vec<Vec<u8>>)
    ensures
        grid(&board) == zero_grid(n as nat),
{
    let mut board: Vec<Vec<u8>> = Vec::new();
    let mut r: usize = 0;
    while r < n
        invariant
            r <= n,
            board@.len() == r,
            forall|i: int| 0 <= i < r ==> (#[trigger] board@[i])@ == Seq::new(n as nat, |c: int| 0u8),
        decreases n - r,
    {
        let mut row: Vec<u8> = Vec::new();
        let mut c: usize = 0;
        while c < n
            invariant
                c <= n,
                row@.len() == c,
                forall|j: int| 0 <= j < c ==> row@[j] == 0,
            decreases n - c,
        {
            row.push(0);
            c += 1;
        }
        assert(row@ =~= Seq::new(n as nat, |c: int| 0u8));
        board.push(row);
        r += 1;
    }
    assert(grid(&board) =~= zero_grid(n as nat));
    board
}

/// Tells whether `board` has `n` rows of `n` cells each.
pub fn has_dimension(board: &Vec<Vec<u8>>, n: usize) -> (ok: bool)
    ensures
        ok == is_grid(grid(board), n as int),
{
    if board.len() != n {
        return false;
    }
    let ghost g = grid(board);
    let mut r: usize = 0;
    while r < n
        invariant
            g == grid(board),
            g.len() == n,
            r <= n,
            forall|i: int| 0 <= i < r ==> (#[trigger] g[i]).len() == n,
        decreases n - r,
    {
        if board[r].len() != n {
            assert(g[r as int].len() != n);
            return false;
        }
        assert(g[r as int].len() == n);
        r += 1;
    }
    true
}

} // verus!
