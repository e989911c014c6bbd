//! What holds of the engine's parts taken together: how the validator, the
//! classifier and solved boards agree.

use vstd::prelude::*;
use crate::classifier::{verdict, SudokuState};
use crate::carver::{carved, is_carving, within};
use crate::grid::{is_full, is_grid};
use crate::lines::{col_line, is_permutation, lemma_solved_lines, row_line};
use crate::rules::{
    completes, consistent, overwrite_ok, placement_ok, sees, solved, unique_at,
};

verus! {

/// Completeness comes first: a board with an empty cell is incomplete,
/// whatever its other cells hold.
pub proof fn lemma_empty_cell_incomplete(g: Seq<Seq<u8>>, b: int, row: int, col: int)
    requires
        0 <= row < g.len(),
        0 <= col < g[row].len(),
        g[row][col] == 0,
    ensures
        verdict(g, b) == SudokuState::Incomplete,
{
}

/// A solved board is classified as solved.
pub proof fn lemma_solved_verdict(g: Seq<Seq<u8>>, b: int)
    requires
        solved(g, b),
    ensures
        is_full(g),
        verdict(g, b) == SudokuState::Solved,
{
    assert forall|r: int, c: int| 0 <= r < g.len() && 0 <= c < g[r].len() implies #[trigger] g[r][c]
        != 0 by {
        assert(1 <= g[r][c] <= b * b);
    }
}

/// `g` with the cells (`row`, `c1`) and (`row`, `c2`) exchanged.
pub open spec fn swapped_in_row(g: Seq<Seq<u8>>, row: int, c1: int, c2: int) -> Seq<Seq<u8>> {
    g.update(row, g[row].update(c1, g[row][c2]).update(c2, g[row][c1]))
}

/// Exchanging two cells of one row of a solved board gives a board that is
/// classified as invalid: the row still holds every value, but each of the
/// two columns now holds one value twice.
pub proof fn lemma_row_swap_invalid(g: Seq<Seq<u8>>, b: int, row: int, c1: int, c2: int)
    requires
        0 < b,
        solved(g, b),
        0 <= row < b * b,
        0 <= c1 < b * b,
        0 <= c2 < b * b,
        c1 != c2,
    ensures
        verdict(swapped_in_row(g, row, c1, c2), b) == SudokuState::Invalid,
{
    let n = b * b;
    let h = swapped_in_row(g, row, c1, c2);
    let moved = g[row][c2];
    lemma_solved_lines(g, b);
    assert(1 <= moved <= n && unique_at(g, row, c2, b));
    assert(sees(row, c2, row, c1, b));
    assert(g[row][c1] != moved);
    let column = col_line(g, c1);
    assert(is_permutation(column, n));
    assert(column.contains(moved));
    let other = choose|i: int| 0 <= i < column.len() && column[i] == moved;
    assert(g[other][c1] == moved);
    assert(other != row);
    assert(h[row][c1] == moved);
    assert(h[other][c1] == moved);
    assert(sees(row, c1, other, c1, b));
    assert(!unique_at(h, row, c1, b));
    assert(!solved(h, b));
    assert forall|r: int, c: int| 0 <= r < h.len() && 0 <= c < h[r].len() implies #[trigger] h[r][c]
        != 0 by {
        if r == row {
            assert(1 <= g[row][c] <= n);
            assert(1 <= g[row][c1] <= n);
        } else {
            assert(1 <= g[r][c] <= n);
        }
    }
}

/// Validator agreement, first half: on a solved board no value from 1 to
/// `b * b` may be placed in any cell, for the cell's row already holds it.
pub proof fn lemma_solved_admits_no_placement(g: Seq<Seq<u8>>, b: int, row: int, col: int, value: u8)
    requires
        0 < b,
        solved(g, b),
        0 <= row < b * b,
        0 <= col < b * b,
        1 <= value <= b * b,
    ensures
        !placement_ok(g, row, col, value, b),
{
    lemma_solved_lines(g, b);
    let line = row_line(g, row);
    assert(is_permutation(line, b * b));
    assert(line.contains(value));
    let c = choose|c: int| 0 <= c < line.len() && line[c] == value;
    assert(g[row][c] == value);
    assert(sees(row, col, row, c, b));
}

/// Validator agreement, second half: on a solved board each cell's own value
/// may be written back over it.
pub proof fn lemma_solved_admits_own_value(g: Seq<Seq<u8>>, b: int, row: int, col: int)
    requires
        solved(g, b),
        0 <= row < b * b,
        0 <= col < b * b,
    ensures
        overwrite_ok(g, row, col, g[row][col], b),
{
    assert(1 <= g[row][col] <= b * b && unique_at(g, row, col, b));
}

/// A board carved out of a solved one keeps the rules among the cells that
/// are left, and the solved board completes it: a puzzle can always be
/// solved.
pub proof fn lemma_carving_completable(h: Seq<Seq<u8>>, g: Seq<Seq<u8>>, k: nat, b: int)
    requires
        solved(g, b),
        is_carving(h, g, k),
    ensures
        consistent(h, b),
        completes(g, h, b),
{
    let n = b * b;
    let cells = choose|cells: Seq<(int, int)>|
        cells.no_duplicates() && cells.len() == k && within(cells, g) && h == #[trigger] carved(
            g,
            cells,
        );
    assert(is_grid(h, n)) by {
        assert forall|r: int| 0 <= r < n implies (#[trigger] h[r]).len() == n by {
            assert(g[r].len() == n);
        }
    }
    assert forall|r: int, c: int| 0 <= r < n && 0 <= c < n implies #[trigger] h[r][c] <= n && (
    h[r][c] != 0 ==> unique_at(h, r, c, b)) by {
        assert(g[r].len() == n);
        assert(1 <= g[r][c] <= n && unique_at(g, r, c, b));
        if h[r][c] != 0 {
            assert forall|r2: int, c2: int|
                0 <= r2 < h.len() && 0 <= c2 < h[r2].len() && sees(r, c, r2, c2, b) && !(r2 == r
                    && c2 == c) implies #[trigger] h[r2][c2] != h[r][c] by {
                assert(g[r2][c2] != g[r][c]);
            }
        }
    }
    assert forall|r: int, c: int|
        0 <= r < h.len() && 0 <= c < h[r].len() && h[r][c] != 0 implies #[trigger] g[r][c]
        == h[r][c] by {}
}

} // verus!
