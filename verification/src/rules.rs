//! The Sudoku rules: which cells constrain one another, when a value may be
//! placed in a cell, and what a solved board is.

use vstd::prelude::*;
use vstd::arithmetic::div_mod::{lemma_fundamental_div_mod, lemma_fundamental_div_mod_converse};
use crate::grid::{grid, is_grid};

verus! {

/// First row (or column) of the box that row (or column) `x` runs through.
pub open spec fn box_start(x: int, b: int) -> int {
    (x / b) * b
}

/// Cell (`r`, `c`) lies in the box that contains (`row`, `col`).
pub open spec fn in_box_of(row: int, col: int, r: int, c: int, b: int) -> bool {
    &&& box_start(row, b) <= r < box_start(row, b) + b
    &&& box_start(col, b) <= c < box_start(col, b) + b
}

/// Cell (`r`, `c`) lies in the row, the column or the box of (`row`, `col`).
pub open spec fn sees(row: int, col: int, r: int, c: int, b: int) -> bool {
    r == row || c == col || in_box_of(row, col, r, c, b)
}

/// `value` occurs nowhere in the row, the column or the box of (`row`, `col`).
pub open spec fn placement_ok(g: Seq<Seq<u8>>, row: int, col: int, value: u8, b: int) -> bool {
    forall|r: int, c: int|
        0 <= r < g.len() && 0 <= c < g[r].len() && sees(row, col, r, c, b) ==> #[trigger] g[r][c]
            != value
}

/// An index lies inside its own box, and the box of an index below `b * b`
/// ends inside the board.
pub proof fn lemma_box_start_bounds(x: int, b: int)
    requires
        0 < b,
        0 <= x,
    ensures
        0 <= box_start(x, b) <= x < box_start(x, b) + b,
        x < b * b ==> box_start(x, b) + b <= b * b,
{
    assert(0 <= (x / b) * b <= x < (x / b) * b + b) by (nonlinear_arith)
        requires
            0 < b,
            0 <= x,
    ;
    if x < b * b {
        assert((x / b) * b + b <= b * b) by (nonlinear_arith)
            requires
                0 < b,
                0 <= x < b * b,
        ;
    }
}

/// A row or column index below `b * b` splits into a quotient and a remainder
/// that are both below `b`.
pub proof fn lemma_split_index(x: int, b: int)
    requires
        0 < b,
        0 <= x < b * b,
    ensures
        0 <= x / b < b,
        0 <= x % b < b,
        x == (x / b) * b + x % b,
{
    lemma_fundamental_div_mod(x, b);
    assert(0 <= x / b < b && 0 <= x % b < b) by (nonlinear_arith)
        requires
            0 < b,
            0 <= x < b * b,
    ;
    assert(b * (x / b) == (x / b) * b) by (nonlinear_arith);
}

/// Every index inside a box has that box's start as its own.
pub proof fn lemma_box_start_of_member(x: int, y: int, b: int)
    requires
        0 < b,
        box_start(x, b) <= y < box_start(x, b) + b,
    ensures
        box_start(y, b) == box_start(x, b),
{
    lemma_fundamental_div_mod_converse(y, b, x / b, y - (x / b) * b);
}

/// Seeing is mutual: if (`row`, `col`) sees (`r`, `c`), then (`r`, `c`) sees
/// (`row`, `col`).
pub proof fn lemma_sees_symmetric(row: int, col: int, r: int, c: int, b: int)
    requires
        0 < b,
        0 <= row,
        0 <= col,
        sees(row, col, r, c, b),
    ensures
        sees(r, c, row, col, b),
{
    if in_box_of(row, col, r, c, b) {
        lemma_box_start_of_member(row, r, b);
        lemma_box_start_of_member(col, c, b);
        lemma_box_start_bounds(row, b);
        lemma_box_start_bounds(col, b);
    }
}

/// `value` occurs in no cell that (`row`, `col`) sees other than the cell
/// itself: it may stand there, whatever stands there now.
pub open spec fn overwrite_ok(g: Seq<Seq<u8>>, row: int, col: int, value: u8, b: int) -> bool {
    forall|r: int, c: int|
        0 <= r < g.len() && 0 <= c < g[r].len() && sees(row, col, r, c, b) && !(r == row && c
            == col) ==> #[trigger] g[r][c] != value
}

/// No other cell that (`row`, `col`) sees holds the value of (`row`, `col`).
pub open spec fn unique_at(g: Seq<Seq<u8>>, row: int, col: int, b: int) -> bool {
    overwrite_ok(g, row, col, g[row][col], b)
}

/// A board of box dimension `b` whose filled cells keep the rules: none holds
/// a value above `b * b`, and none repeats in its row, column or box.
pub open spec fn consistent(g: Seq<Seq<u8>>, b: int) -> bool {
    &&& is_grid(g, b * b)
    &&& forall|r: int, c: int|
        0 <= r < b * b && 0 <= c < b * b ==> #[trigger] g[r][c] <= b * b && (g[r][c] != 0
            ==> unique_at(g, r, c, b))
}

/// A solved board of box dimension `b`: every cell holds a value from 1 to
/// `b * b` that no other cell of its row, column or box holds.
pub open spec fn solved(g: Seq<Seq<u8>>, b: int) -> bool {
    &&& is_grid(g, b * b)
    &&& forall|r: int, c: int|
        0 <= r < b * b && 0 <= c < b * b ==> 1 <= #[trigger] g[r][c] <= b * b && unique_at(
            g,
            r,
            c,
            b,
        )
}

/// `s` agrees with `g` wherever `g` is filled.
pub open spec fn extends(s: Seq<Seq<u8>>, g: Seq<Seq<u8>>) -> bool {
    forall|r: int, c: int|
        #![trigger s[r][c]]
        #![trigger g[r][c]]
        0 <= r < g.len() && 0 <= c < g[r].len() && g[r][c] != 0 ==> s[r][c] == g[r][c]
}

/// `s` is a solved board that keeps every filled cell of `g`.
pub open spec fn completes(s: Seq<Seq<u8>>, g: Seq<Seq<u8>>, b: int) -> bool {
    solved(s, b) && extends(s, g)
}

/// Some solved board keeps every filled cell of `g`.
pub open spec fn completable(g: Seq<Seq<u8>>, b: int) -> bool {
    exists|s: Seq<Seq<u8>>| completes(s, g, b)
}

/// Some solved board keeps every filled cell of `g` and holds `value` at
/// (`row`, `col`).
pub open spec fn completable_with(g: Seq<Seq<u8>>, row: int, col: int, value: u8, b: int) -> bool {
    exists|s: Seq<Seq<u8>>| #[trigger] completes(s, g, b) && s[row][col] == value
}

/// `f` keeps every filled cell of `g` and holds, in each cell that `g` leaves
/// empty, a value from 1 to `b * b` that no other cell of its row, column or
/// box holds.
pub open spec fn fills(f: Seq<Seq<u8>>, g: Seq<Seq<u8>>, b: int) -> bool {
    &&& is_grid(f, b * b)
    &&& forall|r: int, c: int|
        0 <= r < b * b && 0 <= c < b * b ==> if g[r][c] != 0 {
            #[trigger] f[r][c] == g[r][c]
        } else {
            1 <= f[r][c] <= b * b && unique_at(f, r, c, b)
        }
}

/// Filling the empty cells of a consistent board as `fills` says gives a
/// solved board that keeps the filled ones.
pub proof fn lemma_fills_consistent(f: Seq<Seq<u8>>, g: Seq<Seq<u8>>, b: int)
    requires
        0 < b,
        consistent(g, b),
        fills(f, g, b),
    ensures
        completes(f, g, b),
{
    let n = b * b;
    assert forall|r: int, c: int| 0 <= r < n && 0 <= c < n implies 1 <= #[trigger] f[r][c] <= n
        && unique_at(f, r, c, b) by {
        if g[r][c] != 0 {
            assert(f[r][c] == g[r][c]);
            assert(unique_at(g, r, c, b));
            assert forall|r2: int, c2: int|
                0 <= r2 < f.len() && 0 <= c2 < f[r2].len() && sees(r, c, r2, c2, b) && !(r2 == r
                    && c2 == c) implies #[trigger] f[r2][c2] != f[r][c] by {
                if g[r2][c2] != 0 {
                    assert(f[r2][c2] == g[r2][c2]);
                } else {
                    lemma_sees_symmetric(r, c, r2, c2, b);
                    assert(unique_at(f, r2, c2, b));
                }
            }
        }
    }
    assert forall|r: int, c: int|
        0 <= r < g.len() && 0 <= c < g[r].len() && g[r][c] != 0 implies #[trigger] f[r][c]
        == g[r][c] by {}
}

/// One step of the search: if `value` may be placed in the empty cell
/// (`row`, `col`) of `g`, whatever fills the board after the placement fills
/// `g` itself.
pub proof fn lemma_fill_step(f: Seq<Seq<u8>>, g: Seq<Seq<u8>>, row: int, col: int, value: u8, b: int)
    requires
        0 < b,
        is_grid(g, b * b),
        0 <= row < b * b,
        0 <= col < b * b,
        g[row][col] == 0,
        1 <= value <= b * b,
        placement_ok(g, row, col, value, b),
        fills(f, crate::grid::with_cell(g, row, col, value), b),
    ensures
        fills(f, g, b),
{
    let n = b * b;
    let g1 = crate::grid::with_cell(g, row, col, value);
    assert(g1[row][col] == value);
    assert(f[row][col] == value);
    assert forall|r: int, c: int| 0 <= r < n && 0 <= c < n implies if g[r][c] != 0 {
        #[trigger] f[r][c] == g[r][c]
    } else {
        1 <= f[r][c] <= n && unique_at(f, r, c, b)
    } by {
        if r == row && c == col {
            assert forall|r2: int, c2: int|
                0 <= r2 < f.len() && 0 <= c2 < f[r2].len() && sees(row, col, r2, c2, b) && !(r2
                    == row && c2 == col) implies #[trigger] f[r2][c2] != f[row][col] by {
                assert(g1[r2][c2] == g[r2][c2]);
                if g[r2][c2] != 0 {
                    assert(f[r2][c2] == g1[r2][c2]);
                } else {
                    lemma_sees_symmetric(row, col, r2, c2, b);
                    assert(1 <= f[r2][c2] <= n && unique_at(f, r2, c2, b));
                }
            }
        } else {
            assert(g1[r][c] == g[r][c]);
            assert(if g1[r][c] != 0 {
                f[r][c] == g1[r][c]
            } else {
                1 <= f[r][c] <= n && unique_at(f, r, c, b)
            });
        }
    }
}

/// A value that may not be placed in an empty cell is in no completion of the
/// board at that cell.
pub proof fn lemma_rejected(g: Seq<Seq<u8>>, row: int, col: int, value: u8, b: int)
    requires
        0 < b,
        is_grid(g, b * b),
        0 <= row < b * b,
        0 <= col < b * b,
        g[row][col] == 0,
        value != 0,
        !placement_ok(g, row, col, value, b),
    ensures
        !completable_with(g, row, col, value, b),
{
    let (r2, c2) = choose|r2: int, c2: int|
        0 <= r2 < g.len() && 0 <= c2 < g[r2].len() && sees(row, col, r2, c2, b) && #[trigger] g[r2][c2]
            == value;
    assert forall|s: Seq<Seq<u8>>| #[trigger] completes(s, g, b) implies s[row][col] != value by {
        assert(s[r2][c2] == g[r2][c2]);
        assert(unique_at(s, row, col, b));
    }
}

/// If the board cannot be completed once `value` stands in an empty cell, no
/// completion of the board holds `value` there.
pub proof fn lemma_dead_end(g: Seq<Seq<u8>>, row: int, col: int, value: u8, b: int)
    requires
        is_grid(g, b * b),
        0 <= row < b * b,
        0 <= col < b * b,
        !completable(crate::grid::with_cell(g, row, col, value), b),
    ensures
        !completable_with(g, row, col, value, b),
{
    let g1 = crate::grid::with_cell(g, row, col, value);
    assert forall|s: Seq<Seq<u8>>| #[trigger] completes(s, g, b) implies s[row][col] != value by {
        if s[row][col] == value {
            assert forall|r: int, c: int|
                0 <= r < g1.len() && 0 <= c < g1[r].len() && g1[r][c] != 0 implies #[trigger] s[r][c]
                == g1[r][c] by {
                if !(r == row && c == col) {
                    assert(g1[r][c] == g[r][c]);
                }
            }
            assert(completes(s, g1, b));
        }
    }
}

/// If no value from 1 to `b * b` is in a completion at some cell, the board
/// has no completion.
pub proof fn lemma_exhausted(g: Seq<Seq<u8>>, row: int, col: int, b: int)
    requires
        0 <= row < b * b,
        0 <= col < b * b,
        forall|value: u8| 1 <= value <= b * b ==> !completable_with(g, row, col, value, b),
    ensures
        !completable(g, b),
{
    assert forall|s: Seq<Seq<u8>>| !completes(s, g, b) by {
        if completes(s, g, b) {
            let value = s[row][col];
            assert(1 <= value <= b * b);
            assert(completable_with(g, row, col, value, b));
        }
    }
}

/// Decides whether `num` may be placed at (`row`, `col`): it must not occur in
/// that row, that column, or the box around the cell.
pub fn is_valid(board: &Vec<Vec<u8>>, row: usize, col: usize, num: u8, box_size: usize) -> (ok:
    bool)
    requires
        0 < box_size,
        is_grid(grid(board), box_size * box_size),
        row < box_size * box_size,
        col < box_size * box_size,
    ensures
        ok == placement_ok(grid(board), row as int, col as int, num, box_size as int),
{
    let n: usize = board.len();
    let ghost g = grid(board);
    let ghost b = box_size as int;
    proof {
        lemma_box_start_bounds(row as int, b);
        lemma_box_start_bounds(col as int, b);
    }

    let mut c: usize = 0;
    while c < n
        invariant
            g == grid(board),
            is_grid(g, n as int),
            row < n,
            c <= n,
            forall|j: int| 0 <= j < c ==> g[row as int][j] != num,
        decreases n - c,
    {
        assert(g[row as int] == board@[row as int]@);
        if board[row][c] == num {
            assert(g[row as int][c as int] == num);
            assert(sees(row as int, col as int, row as int, c as int, b));
            return false;
        }
        c += 1;
    }

    let mut r: usize = 0;
    while r < n
        invariant
            g == grid(board),
            is_grid(g, n as int),
            col < n,
            r <= n,
            forall|i: int| 0 <= i < r ==> g[i][col as int] != num,
        decreases n - r,
    {
        assert(g[r as int] == board@[r as int]@);
        if board[r][col] == num {
            assert(g[r as int][col as int] == num);
            assert(sees(row as int, col as int, r as int, col as int, b));
            return false;
        }
        r += 1;
    }

    let start_row: usize = (row / box_size) * box_size;
    let start_col: usize = (col / box_size) * box_size;
    let mut i: usize = 0;
    while i < box_size
        invariant
            g == grid(board),
            is_grid(g, n as int),
            n == box_size * box_size,
            start_row == box_start(row as int, b),
            start_col == box_start(col as int, b),
            start_row + box_size <= n,
            start_col + box_size <= n,
            b == box_size,
            i <= box_size,
            forall|r: int, c: int|
                start_row <= r < start_row + i && start_col <= c < start_col + b ==> #[trigger] g[r][c]
                    != num,
        decreases box_size - i,
    {
        let r: usize = start_row + i;
        let mut j: usize = 0;
        while j < box_size
            invariant
                g == grid(board),
                r == start_row + i,
                is_grid(g, n as int),
                start_row == box_start(row as int, b),
                start_col == box_start(col as int, b),
                start_row + box_size <= n,
                start_col + box_size <= n,
                b == box_size,
                i < box_size,
                j <= box_size,
                forall|r: int, c: int|
                    start_row <= r < start_row + i && start_col <= c < start_col + b
                        ==> #[trigger] g[r][c] != num,
                forall|c: int| start_col <= c < start_col + j ==> g[r as int][c] != num,
            decreases box_size - j,
        {
            assert(g[r as int] == board@[r as int]@);
            if board[r][start_col + j] == num {
                assert(g[r as int][start_col + j] == num);
                assert(in_box_of(row as int, col as int, r as int, start_col + j, b));
                return false;
            }
            j += 1;
        }
        i += 1;
    }
    true
}

/// Decides whether `num` may stand at (`row`, `col`) when the cell's present
/// content is overlooked: it must not occur in any other cell of that row,
/// that column, or the box around the cell.
pub fn is_valid_overwrite(
    board: &Vec<Vec<u8>>,
    row: usize,
    col: usize,
    num: u8,
    box_size: usize,
) -> (ok: bool)
    requires
        0 < box_size,
        is_grid(grid(board), box_size * box_size),
        row < box_size * box_size,
        col < box_size * box_size,
    ensures
        ok == overwrite_ok(grid(board), row as int, col as int, num, box_size as int),
{
    let n: usize = board.len();
    let ghost g = grid(board);
    let ghost b = box_size as int;
    proof {
        lemma_box_start_bounds(row as int, b);
        lemma_box_start_bounds(col as int, b);
    }

    let mut c: usize = 0;
    while c < n
        invariant
            g == grid(board),
            is_grid(g, n as int),
            row < n,
            c <= n,
            forall|j: int| 0 <= j < c && j != col ==> g[row as int][j] != num,
        decreases n - c,
    {
        assert(g[row as int] == board@[row as int]@);
        if c != col && board[row][c] == num {
            assert(g[row as int][c as int] == num);
            assert(sees(row as int, col as int, row as int, c as int, b));
            return false;
        }
        c += 1;
    }

    let mut r: usize = 0;
    while r < n
        invariant
            g == grid(board),
            is_grid(g, n as int),
            col < n,
            r <= n,
            forall|i: int| 0 <= i < r && i != row ==> g[i][col as int] != num,
        decreases n - r,
    {
        assert(g[r as int] == board@[r as int]@);
        if r != row && board[r][col] == num {
            assert(g[r as int][col as int] == num);
            assert(sees(row as int, col as int, r as int, col as int, b));
            return false;
        }
        r += 1;
    }

    let start_row: usize = (row / box_size) * box_size;
    let start_col: usize = (col / box_size) * box_size;
    let mut i: usize = 0;
    while i < box_size
        invariant
            g == grid(board),
            is_grid(g, n as int),
            n == box_size * box_size,
            start_row == box_start(row as int, b),
            start_col == box_start(col as int, b),
            start_row + box_size <= n,
            start_col + box_size <= n,
            b == box_size,
            i <= box_size,
            forall|r: int, c: int|
                start_row <= r < start_row + i && start_col <= c < start_col + b && !(r == row
                    && c == col) ==> #[trigger] g[r][c] != num,
        decreases box_size - i,
    {
        let r: usize = start_row + i;
        let mut j: usize = 0;
        while j < box_size
            invariant
                g == grid(board),
                r == start_row + i,
                is_grid(g, n as int),
                start_row == box_start(row as int, b),
                start_col == box_start(col as int, b),
                start_row + box_size <= n,
                start_col + box_size <= n,
                b == box_size,
                i < box_size,
                j <= box_size,
                forall|r: int, c: int|
                    start_row <= r < start_row + i && start_col <= c < start_col + b && !(r
                        == row && c == col) ==> #[trigger] g[r][c] != num,
                forall|c: int|
                    start_col <= c < start_col + j && !(r == row && c == col) ==> g[r as int][c]
                        != num,
            decreases box_size - j,
        {
            assert(g[r as int] == board@[r as int]@);
            let c: usize = start_col + j;
            if !(r == row && c == col) && board[r][c] == num {
                assert(g[r as int][c as int] == num);
                assert(in_box_of(row as int, col as int, r as int, c as int, b));
                return false;
            }
            j += 1;
        }
        i += 1;
    }
    true
}

} // verus!
