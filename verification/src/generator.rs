//! The full-board generator: a randomized backtracking search that fills the
//! empty cells of a board in row-major order.

use vstd::prelude::*;
use crate::grid::{
    empty_grid, grid, is_grid, lemma_zero_count_with_cell, set_cell, with_cell, zero_count,
    zero_grid, SudokuSize,
};
use crate::lines::{all_lines_permutations, lemma_solved_lines};
use crate::random::{lemma_rearranged, shuffle, thread_rng};
use crate::rules::{
    completable, completable_with, completes, consistent, fills, is_valid,
    lemma_box_start_of_member, lemma_dead_end, lemma_exhausted, lemma_fill_step,
    lemma_fills_consistent, lemma_rejected, lemma_split_index, sees, solved, unique_at,
};
use vstd::arithmetic::div_mod::{lemma_fundamental_div_mod, lemma_mod_bound};

verus! {

/// The values 1 to `n` in rising order.
pub open spec fn rising(n: nat) -> Seq<u8> {
    Seq::new(n, |i: int| (i + 1) as u8)
}

/// Lists the candidate values of a board of dimension `n`: 1 to `n`.
pub fn candidates(n: usize) -> (nums: Vec<u8>)
    requires
        n <= 255,
    ensures
        nums@ == rising(n as nat),
{
    let mut nums: Vec<u8> = Vec::new();
    let mut i: usize = 0;
    while i < n
        invariant
            i <= n <= 255,
            nums@ == rising(i as nat),
        decreases n - i,
    {
        nums.push((i + 1) as u8);
        i += 1;
        assert(nums@ =~= rising(i as nat));
    }
    nums
}

/// Fills the empty cells of `board` by backtracking. The first empty cell in
/// row-major order is tried with the values 1 to `n` in a random order; a
/// value that may be placed is placed and the rest of the board is filled
/// the same way; if that fails the cell is emptied again and the next value
/// tried.
///
/// On success every cell that was filled is untouched and every cell that was
/// empty holds a value that no other cell of its row, column or box holds; if
/// the filled cells kept the rules among themselves, the board is now solved.
/// On failure the board is as it was, and no solved board keeps its filled
/// cells.
pub fn fill_board(board: &mut Vec<Vec<u8>>, box_size: usize) -> (done: bool)
    requires
        0 < box_size <= 15,
        is_grid(grid(old(board)), box_size * box_size),
    ensures
        done ==> fills(grid(final(board)), grid(old(board)), box_size as int),
        done && consistent(grid(old(board)), box_size as int) ==> solved(
            grid(final(board)),
            box_size as int,
        ),
        !done ==> grid(final(board)) == grid(old(board)),
        !done ==> !completable(grid(old(board)), box_size as int),
    decreases zero_count(grid(old(board))),
{
    let n: usize = board.len();
    let ghost g0 = grid(board);
    let ghost b = box_size as int;
    assert(n <= 225) by (nonlinear_arith)
        requires
            n == box_size * box_size,
            0 < box_size <= 15,
    ;
    let mut row: usize = 0;
    while row < n
        invariant
            g0 == grid(old(board)),
            grid(board) == g0,
            is_grid(g0, n as int),
            n == box_size * box_size,
            0 < box_size <= 15,
            n <= 225,
            b == box_size,
            row <= n,
            forall|r: int, c: int| 0 <= r < row && 0 <= c < n ==> #[trigger] g0[r][c] != 0,
        decreases n - row,
    {
        let mut col: usize = 0;
        while col < n
            invariant
                g0 == grid(old(board)),
                grid(board) == g0,
                is_grid(g0, n as int),
                n == box_size * box_size,
                0 < box_size <= 15,
                n <= 225,
                b == box_size,
                row < n,
                col <= n,
                forall|r: int, c: int| 0 <= r < row && 0 <= c < n ==> #[trigger] g0[r][c] != 0,
                forall|c: int| 0 <= c < col ==> g0[row as int][c] != 0,
            decreases n - col,
        {
            assert(g0[row as int] == board@[row as int]@);
            if board[row][col] == 0 {
                let mut nums: Vec<u8> = candidates(n);
                let mut rng = thread_rng();
                shuffle(&mut nums, &mut rng);
                proof {
                    lemma_rearranged(rising(n as nat), nums@);
                    assert forall|j: int| 0 <= j < nums@.len() implies 1 <= #[trigger] nums@[j]
                        <= n by {
                        assert(nums@.contains(nums@[j]));
                        assert(rising(n as nat).contains(nums@[j]));
                    }
                }
                let mut k: usize = 0;
                while k < nums.len()
                    invariant
                        g0 == grid(old(board)),
                        grid(board) == g0,
                        is_grid(g0, n as int),
                        n == box_size * box_size,
                        0 < box_size <= 15,
                        b == box_size,
                        row < n,
                        col < n,
                        g0[row as int][col as int] == 0,
                        k <= nums@.len(),
                        forall|j: int| 0 <= j < nums@.len() ==> 1 <= #[trigger] nums@[j] <= n,
                        forall|j: int|
                            0 <= j < k ==> !completable_with(
                                g0,
                                row as int,
                                col as int,
                                #[trigger] nums@[j],
                                b,
                            ),
                    decreases nums@.len() - k,
                {
                    let num: u8 = nums[k];
                    if is_valid(board, row, col, num, box_size) {
                        set_cell(board, row, col, num);
                        proof {
                            lemma_zero_count_with_cell(g0, row as int, col as int, num);
                        }
                        if fill_board(board, box_size) {
                            proof {
                                lemma_fill_step(grid(board), g0, row as int, col as int, num, b);
                                if consistent(g0, b) {
                                    lemma_fills_consistent(grid(board), g0, b);
                                }
                            }
                            return true;
                        }
                        proof {
                            let g1 = with_cell(g0, row as int, col as int, num);
                            assert(grid(board) == g1);
                            assert(g1[row as int] == board@[row as int]@);
                        }
                        set_cell(board, row, col, 0);
                        proof {
                            assert(grid(board) =~~= g0);
                            lemma_dead_end(g0, row as int, col as int, num, b);
                        }
                    } else {
                        proof {
                            lemma_rejected(g0, row as int, col as int, num, b);
                        }
                    }
                    k += 1;
                }
                proof {
                    assert forall|value: u8| 1 <= value <= b * b implies !completable_with(
                        g0,
                        row as int,
                        col as int,
                        value,
                        b,
                    ) by {
                        assert(rising(n as nat)[value - 1] == value);
                        assert(rising(n as nat).contains(value));
                        assert(nums@.contains(value));
                    }
                    lemma_exhausted(g0, row as int, col as int, b);
                }
                return false;
            }
            col += 1;
        }
        row += 1;
    }
    proof {
        if consistent(g0, b) {
            lemma_fills_consistent(g0, g0, b);
        }
    }
    true
}

/// The value that the shifted-rows pattern puts at (`r`, `c`): each row is the
/// row above shifted by `b`, and each band of `b` rows starts one further on.
pub open spec fn pattern_value(r: int, c: int, b: int) -> u8 {
    (((r % b) * b + r / b + c) % (b * b) + 1) as u8
}

/// The shifted-rows pattern as a board of box dimension `b`.
pub open spec fn pattern(b: int) -> Seq<Seq<u8>> {
    Seq::new((b * b) as nat, |r: int| Seq::new((b * b) as nat, |c: int| pattern_value(r, c, b)))
}

/// Two numbers less than a modulus apart, and not equal, leave different
/// remainders.
proof fn lemma_remainders_differ(x: int, y: int, n: int)
    requires
        0 < n,
        x != y,
        -n < x - y < n,
    ensures
        x % n != y % n,
{
    lemma_fundamental_div_mod(x, n);
    lemma_fundamental_div_mod(y, n);
    if x % n == y % n {
        let k = x / n - y / n;
        assert(x - y == n * k) by (nonlinear_arith)
            requires
                x == n * (x / n) + x % n,
                y == n * (y / n) + y % n,
                x % n == y % n,
                k == x / n - y / n,
        ;
        assert(k == 0) by (nonlinear_arith)
            requires
                0 < n,
                -n < n * k < n,
        ;
    }
}

/// Two digits below `b` make a number below `b * b`, and different pairs of
/// digits make different numbers.
proof fn lemma_digit_pairs(hi: int, lo: int, hi2: int, lo2: int, b: int)
    requires
        0 <= hi < b,
        0 <= lo < b,
        0 <= hi2 < b,
        0 <= lo2 < b,
    ensures
        0 <= hi * b + lo < b * b,
        0 <= hi2 * b + lo2 < b * b,
        hi * b + lo == hi2 * b + lo2 ==> hi == hi2 && lo == lo2,
{
    assert(0 <= hi * b + lo < b * b) by (nonlinear_arith)
        requires
            0 <= hi < b,
            0 <= lo < b,
    ;
    assert(0 <= hi2 * b + lo2 < b * b) by (nonlinear_arith)
        requires
            0 <= hi2 < b,
            0 <= lo2 < b,
    ;
    if hi * b + lo == hi2 * b + lo2 {
        assert(hi == hi2) by (nonlinear_arith)
            requires
                hi * b + lo == hi2 * b + lo2,
                -b < lo2 - lo < b,
                0 < b,
        ;
    }
}

/// Every value of the pattern lies between 1 and `b * b`.
proof fn lemma_pattern_value_range(r: int, c: int, b: int)
    requires
        0 < b <= 15,
        0 <= r < b * b,
        0 <= c < b * b,
    ensures
        pattern_value(r, c, b) == ((r % b) * b + r / b + c) % (b * b) + 1,
        1 <= pattern_value(r, c, b) <= b * b,
{
    let n = b * b;
    assert(0 < n <= 225) by (nonlinear_arith)
        requires
            n == b * b,
            0 < b <= 15,
    ;
    lemma_mod_bound((r % b) * b + r / b + c, n);
}

/// Two cells of the pattern that see each other hold different values.
proof fn lemma_pattern_cells_differ(r: int, c: int, r2: int, c2: int, b: int)
    requires
        0 < b <= 15,
        0 <= r < b * b,
        0 <= c < b * b,
        0 <= r2 < b * b,
        0 <= c2 < b * b,
        sees(r, c, r2, c2, b),
        !(r2 == r && c2 == c),
    ensures
        pattern_value(r, c, b) != pattern_value(r2, c2, b),
{
    let n = b * b;
    lemma_split_index(r, b);
    lemma_split_index(r2, b);
    lemma_split_index(c, b);
    lemma_split_index(c2, b);
    let a = (r % b) * b + r / b + c;
    let a2 = (r2 % b) * b + r2 / b + c2;
    lemma_digit_pairs(r % b, r / b, r2 % b, r2 / b, b);
    if r2 == r {
        assert(a - a2 == c - c2);
    } else if c2 == c {
        assert(a - a2 == ((r % b) * b + r / b) - ((r2 % b) * b + r2 / b));
    } else {
        lemma_box_start_of_member(r, r2, b);
        lemma_box_start_of_member(c, c2, b);
        assert(r / b == r2 / b) by (nonlinear_arith)
            requires
                (r / b) * b == (r2 / b) * b,
                0 < b,
        ;
        assert(c / b == c2 / b) by (nonlinear_arith)
            requires
                (c / b) * b == (c2 / b) * b,
                0 < b,
        ;
        lemma_digit_pairs(r % b, c % b, r2 % b, c2 % b, b);
        assert(a - a2 == ((r % b) * b + c % b) - ((r2 % b) * b + c2 % b));
    }
    lemma_remainders_differ(a, a2, n);
    lemma_pattern_value_range(r, c, b);
    lemma_pattern_value_range(r2, c2, b);
}

/// For every box dimension up to 15 the shifted-rows pattern is a solved
/// board, so each size has one.
pub proof fn lemma_pattern_solved(b: int)
    requires
        0 < b <= 15,
    ensures
        solved(pattern(b), b),
{
    let p = pattern(b);
    let n = b * b;
    assert(0 < n) by (nonlinear_arith)
        requires
            n == b * b,
            0 < b,
    ;
    assert forall|r: int, c: int| 0 <= r < n && 0 <= c < n implies 1 <= #[trigger] p[r][c] <= n
        && unique_at(p, r, c, b) by {
        assert(p[r][c] == pattern_value(r, c, b));
        lemma_pattern_value_range(r, c, b);
        assert forall|r2: int, c2: int|
            0 <= r2 < p.len() && 0 <= c2 < p[r2].len() && sees(r, c, r2, c2, b) && !(r2 == r
                && c2 == c) implies #[trigger] p[r2][c2] != p[r][c] by {
            assert(p[r2][c2] == pattern_value(r2, c2, b));
            lemma_pattern_cells_differ(r, c, r2, c2, b);
        }
    }
}

/// Generates a full board of the given size: starts from the empty board and
/// fills it by backtracking. Every size has a solved board, so the search
/// cannot exhaust: the result is always a solved board, one whose rows,
/// columns and boxes each hold every value exactly once.
pub fn generate_full_board(size: SudokuSize) -> (result: Result<Vec<Vec<u8>>, String>)
    ensures
        result is Ok,
        solved(grid(&result->Ok_0), size.spec_box_dimension() as int),
        all_lines_permutations(grid(&result->Ok_0), size.spec_box_dimension() as int),
{
    let box_size: usize = size.box_dimension();
    let n: usize = size.dimension();
    let mut board: Vec<Vec<u8>> = empty_grid(n);
    let ghost b = box_size as int;
    let ghost empty = zero_grid(n as nat);
    assert(is_grid(empty, b * b));
    assert(consistent(empty, b));
    if !fill_board(&mut board, box_size) {
        proof {
            lemma_pattern_solved(b);
            assert(completes(pattern(b), empty, b));
        }
        return Err("No se pudo generar el sudoku".to_string());
    }
    proof {
        lemma_fills_consistent(grid(&board), empty, b);
        lemma_solved_lines(grid(&board), b);
    }
    Ok(board)
}

} // verus!
