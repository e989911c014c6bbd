//! The puzzle handed to callers, and the engine's two entry points: generating
//! a puzzle and classifying a submitted one.

use vstd::prelude::*;
use crate::carver::{carve_count, is_carving, remove_cells};
pub use crate::classifier::SudokuState;
pub use crate::grid::SudokuSize;
use crate::classifier::{classify, verdict};
use crate::generator::generate_full_board;
use crate::grid::{grid, is_grid, set_cell, with_cell, zero_count};
use crate::rules::solved;

verus! {

/// A board together with the size it was generated for.
#[derive(Debug, Clone)]
pub struct Sudoku {
    /// The rows of the board; 0 marks an empty cell.
    pub board: Vec<Vec<u8>>,
    /// The size the board was generated for.
    pub sudoku_size: SudokuSize,
}

/// `h` is a puzzle of the given size: a solved board with exactly as many
/// cells emptied as the size prescribes.
pub open spec fn is_puzzle(h: Seq<Seq<u8>>, size: SudokuSize) -> bool {
    exists|full: Seq<Seq<u8>>|
        solved(full, size.spec_box_dimension() as int) && #[trigger] is_carving(
            h,
            full,
            size.spec_empty_cells() as nat,
        )
}

/// `g` after an attempt to write `value` at (`row`, `col`): the value is
/// written if the cell is on the board and empty, else nothing changes.
pub open spec fn filled(g: Seq<Seq<u8>>, row: u8, col: u8, value: u8) -> Seq<Seq<u8>> {
    if row < g.len() && col < g.len() && g[row as int][col as int] == 0 {
        with_cell(g, row as int, col as int, value)
    } else {
        g
    }
}

impl Sudoku {
    /// The board has the dimension of its size.
    pub open spec fn well_formed(&self) -> bool {
        is_grid(grid(&self.board), self.sudoku_size.spec_dimension() as int)
    }

    /// Generates a puzzle of the given size: a full board, with the number of
    /// cells the size prescribes emptied at random. Generation cannot fail for
    /// any of the three sizes.
    pub fn generate_sudoku(size: SudokuSize) -> (result: Result<Sudoku, String>)
        ensures
            result is Ok,
            result->Ok_0.sudoku_size == size,
            result->Ok_0.well_formed(),
            is_puzzle(grid(&result->Ok_0.board), size),
            zero_count(grid(&result->Ok_0.board)) == size.spec_empty_cells(),
    {
        let mut board: Vec<Vec<u8>> = match generate_full_board(size) {
            Ok(board) => board,
            Err(text) => {
                return Err(text);
            },
        };
        let ghost full = grid(&board);
        let empty_cells: usize = size.empty_cells();
        remove_cells(&mut board, empty_cells);
        proof {
            assert(carve_count(empty_cells as nat, full.len()) == empty_cells);
            assert(is_carving(grid(&board), full, size.spec_empty_cells() as nat));
        }
        Ok(Sudoku { board, sudoku_size: size })
    }

    /// Writes `value` into the cell at (`row`, `col`) if the cell is on the
    /// board and empty; a filled cell is never overwritten.
    pub fn fill_cell(&mut self, row: u8, col: u8, value: u8)
        requires
            old(self).well_formed(),
        ensures
            final(self).sudoku_size == old(self).sudoku_size,
            final(self).well_formed(),
            grid(&final(self).board) == filled(grid(&old(self).board), row, col, value),
    {
        let n: usize = self.board.len();
        let ghost g = grid(&self.board);
        if (row as usize) < n && (col as usize) < n {
            assert(g[row as int] == self.board@[row as int]@);
            if self.board[row as usize][col as usize] == 0 {
                set_cell(&mut self.board, row as usize, col as usize, value);
            }
        }
    }

    /// Classifies the board as it stands, against the rules of its size.
    pub fn is_solved(&self) -> (state: SudokuState)
        requires
            self.well_formed(),
        ensures
            state == verdict(grid(&self.board), self.sudoku_size.spec_box_dimension() as int),
    {
        classify(&self.board, self.sudoku_size)
    }
}

} // verus!
