//! The solution classifier: tells whether a submitted board is solved, still
//! has empty cells, or breaks a rule.

use vstd::prelude::*;
use crate::grid::{grid, is_full, is_grid, SudokuSize};
use crate::rules::{is_valid_overwrite, solved, unique_at};

verus! {

/// What the classifier says of a submitted board.
#[derive(Debug, Clone, Copy, PartialEq, Eq, Structural)]
pub enum SudokuState {
    /// Every cell is filled and every rule holds.
    Solved,
    /// Some cell is empty.
    Incomplete,
    /// Every cell is filled, and some rule is broken.
    Invalid,
}

/// The verdict on a board of box dimension `b`. Empty cells are looked for
/// first: a board with one is incomplete, whatever its other cells hold.
pub open spec fn verdict(g: Seq<Seq<u8>>, b: int) -> SudokuState {
    if !is_full(g) {
        SudokuState::Incomplete
    } else if solved(g, b) {
        SudokuState::Solved
    } else {
        SudokuState::Invalid
    }
}

/// Classifies a submitted board of the given size.
pub fn classify(board: &Vec<Vec<u8>>, size: SudokuSize) -> (state: SudokuState)
    requires
        is_grid(grid(board), size.spec_dimension() as int),
    ensures
        state == verdict(grid(board), size.spec_box_dimension() as int),
{
    let box_size: usize = size.box_dimension();
    let n: usize = size.dimension();
    let ghost g = grid(board);
    let ghost b = box_size as int;

    let mut row: usize = 0;
    while row < n
        invariant
            g == grid(board),
            is_grid(g, n as int),
            row <= n,
            forall|r: int, c: int| 0 <= r < row && 0 <= c < n ==> #[trigger] g[r][c] != 0,
        decreases n - row,
    {
        let mut col: usize = 0;
        while col < n
            invariant
                g == grid(board),
                is_grid(g, n as int),
                row < n,
                col <= n,
                forall|r: int, c: int| 0 <= r < row && 0 <= c < n ==> #[trigger] g[r][c] != 0,
                forall|c: int| 0 <= c < col ==> g[row as int][c] != 0,
            decreases n - col,
        {
            assert(g[row as int] == board@[row as int]@);
            if board[row][col] == 0 {
                assert(g[row as int][col as int] == 0);
                return SudokuState::Incomplete;
            }
            col += 1;
        }
        row += 1;
    }
    assert(is_full(g));

    let mut row: usize = 0;
    while row < n
        invariant
            g == grid(board),
            is_grid(g, n as int),
            is_full(g),
            n == box_size * box_size,
            0 < box_size,
            b == box_size,
            b == size.spec_box_dimension(),
            row <= n,
            forall|r: int, c: int|
                0 <= r < row && 0 <= c < n ==> 1 <= #[trigger] g[r][c] <= n && unique_at(
                    g,
                    r,
                    c,
                    b,
                ),
        decreases n - row,
    {
        let mut col: usize = 0;
        while col < n
            invariant
                g == grid(board),
                is_grid(g, n as int),
                is_full(g),
                n == box_size * box_size,
                0 < box_size,
                b == box_size,
                b == size.spec_box_dimension(),
                row < n,
                col <= n,
                forall|r: int, c: int|
                    0 <= r < row && 0 <= c < n ==> 1 <= #[trigger] g[r][c] <= n && unique_at(
                        g,
                        r,
                        c,
                        b,
                    ),
                forall|c: int|
                    0 <= c < col ==> 1 <= #[trigger] g[row as int][c] <= n && unique_at(
                        g,
                        row as int,
                        c,
                        b,
                    ),
            decreases n - col,
        {
            assert(g[row as int] == board@[row as int]@);
            let value: u8 = board[row][col];
            if value as usize > n || !is_valid_overwrite(board, row, col, value, box_size) {
                assert(!(1 <= g[row as int][col as int] <= n && unique_at(
                    g,
                    row as int,
                    col as int,
                    b,
                )));
                return SudokuState::Invalid;
            }
            assert(g[row as int][col as int] != 0);
            col += 1;
        }
        row += 1;
    }
    SudokuState::Solved
}

} // verus!
