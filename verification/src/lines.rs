//! Rows, columns and boxes as lines of values, and the fact that on a solved
//! board each of them holds every value exactly once.

use vstd::prelude::*;
use vstd::arithmetic::div_mod::lemma_fundamental_div_mod_converse;
use vstd::set_lib::{lemma_int_range, lemma_len_subset, lemma_subset_equality, set_int_range};
use vstd::seq_lib::seq_to_set_is_finite;
use crate::grid::is_grid;
use crate::rules::{
    box_start, in_box_of, lemma_split_index, sees, solved, unique_at,
};

verus! {

/// Row `r` of the grid.
pub open spec fn row_line(g: Seq<Seq<u8>>, r: int) -> Seq<u8> {
    g[r]
}

/// Column `c` of the grid, top to bottom.
pub open spec fn col_line(g: Seq<Seq<u8>>, c: int) -> Seq<u8> {
    Seq::new(g.len(), |r: int| g[r][c])
}

/// The box in band `band` and stack `stack` of a grid of box dimension `b`,
/// row by row.
pub open spec fn box_line(g: Seq<Seq<u8>>, band: int, stack: int, b: int) -> Seq<u8> {
    Seq::new((b * b) as nat, |k: int| g[band * b + k / b][stack * b + k % b])
}

/// `line` holds each value from 1 to `n` exactly once.
pub open spec fn is_permutation(line: Seq<u8>, n: int) -> bool {
    &&& line.len() == n
    &&& line.no_duplicates()
    &&& forall|v: u8| 1 <= v <= n ==> line.contains(v)
}

/// Every row, every column and every box of `g` holds each value from 1 to
/// `b * b` exactly once.
pub open spec fn all_lines_permutations(g: Seq<Seq<u8>>, b: int) -> bool {
    &&& forall|r: int| 0 <= r < b * b ==> is_permutation(#[trigger] row_line(g, r), b * b)
    &&& forall|c: int| 0 <= c < b * b ==> is_permutation(#[trigger] col_line(g, c), b * b)
    &&& forall|band: int, stack: int|
        0 <= band < b && 0 <= stack < b ==> is_permutation(
            #[trigger] box_line(g, band, stack, b),
            b * b,
        )
}

/// As many different values as there are values from 1 to `n`, all of them
/// in that range: each value of the range is among them.
pub proof fn lemma_distinct_values_cover(line: Seq<u8>, n: int)
    requires
        line.len() == n,
        line.no_duplicates(),
        forall|i: int| 0 <= i < n ==> 1 <= #[trigger] line[i] <= n,
    ensures
        is_permutation(line, n),
{
    let wide = Seq::new(line.len(), |i: int| line[i] as int);
    let have = wide.to_set();
    let range = set_int_range(1, n + 1);
    assert(wide.no_duplicates());
    wide.unique_seq_to_set();
    lemma_int_range(1, n + 1);
    assert forall|v: int| have.contains(v) implies range.contains(v) by {
        let i = choose|i: int| 0 <= i < wide.len() && wide[i] == v;
        assert(wide[i] == line[i]);
    }
    lemma_len_subset(have, range);
    lemma_subset_equality(have, range);
    assert forall|v: u8| 1 <= v <= n implies line.contains(v) by {
        assert(range.contains(v as int));
        assert(have.contains(v as int));
        let i = choose|i: int| 0 <= i < wide.len() && wide[i] == v as int;
        assert(line[i] == v);
    }
}

/// The cell `k` of a box lies in that box, and different `k` are different
/// cells.
pub proof fn lemma_box_cell(band: int, stack: int, k: int, b: int)
    requires
        0 < b,
        0 <= band < b,
        0 <= stack < b,
        0 <= k < b * b,
    ensures
        0 <= band * b + k / b < b * b,
        0 <= stack * b + k % b < b * b,
        box_start(band * b + k / b, b) == band * b,
        box_start(stack * b + k % b, b) == stack * b,
        k == (k / b) * b + k % b,
{
    lemma_split_index(k, b);
    lemma_fundamental_div_mod_converse(band * b + k / b, b, band, k / b);
    lemma_fundamental_div_mod_converse(stack * b + k % b, b, stack, k % b);
    assert(0 <= band * b + k / b < b * b) by (nonlinear_arith)
        requires
            0 <= band < b,
            0 <= k / b < b,
    ;
    assert(0 <= stack * b + k % b < b * b) by (nonlinear_arith)
        requires
            0 <= stack < b,
            0 <= k % b < b,
    ;
}

/// On a solved board every row, every column and every box holds each value
/// from 1 to `b * b` exactly once.
pub proof fn lemma_solved_lines(g: Seq<Seq<u8>>, b: int)
    requires
        0 < b,
        solved(g, b),
    ensures
        all_lines_permutations(g, b),
{
    let n = b * b;
    assert forall|r: int| 0 <= r < n implies is_permutation(#[trigger] row_line(g, r), n) by {
        let line = row_line(g, r);
        assert forall|i: int, j: int| 0 <= i < n && 0 <= j < n && i != j implies line[i]
            != line[j] by {
            assert(1 <= g[r][i] <= n && unique_at(g, r, i, b));
            assert(sees(r, i, r, j, b));
            assert(g[r][j] != g[r][i]);
        }
        assert forall|i: int| 0 <= i < n implies 1 <= #[trigger] line[i] <= n by {
            assert(1 <= g[r][i] <= n);
        }
        lemma_distinct_values_cover(line, n);
    }
    assert forall|c: int| 0 <= c < n implies is_permutation(#[trigger] col_line(g, c), n) by {
        let line = col_line(g, c);
        assert forall|i: int, j: int| 0 <= i < n && 0 <= j < n && i != j implies line[i]
            != line[j] by {
            assert(1 <= g[i][c] <= n && unique_at(g, i, c, b));
            assert(sees(i, c, j, c, b));
            assert(g[j][c] != g[i][c]);
        }
        assert forall|i: int| 0 <= i < n implies 1 <= #[trigger] line[i] <= n by {
            assert(1 <= g[i][c] <= n);
        }
        lemma_distinct_values_cover(line, n);
    }
    assert forall|band: int, stack: int| 0 <= band < b && 0 <= stack < b implies is_permutation(
        #[trigger] box_line(g, band, stack, b),
        n,
    ) by {
        let line = box_line(g, band, stack, b);
        assert forall|i: int, j: int| 0 <= i < n && 0 <= j < n && i != j implies line[i]
            != line[j] by {
            lemma_box_cell(band, stack, i, b);
            lemma_box_cell(band, stack, j, b);
            let (r1, c1) = (band * b + i / b, stack * b + i % b);
            let (r2, c2) = (band * b + j / b, stack * b + j % b);
            lemma_split_index(i, b);
            lemma_split_index(j, b);
            assert(1 <= g[r1][c1] <= n && unique_at(g, r1, c1, b));
            assert(in_box_of(r1, c1, r2, c2, b));
            assert(g[r2][c2] != g[r1][c1]);
        }
        assert forall|i: int| 0 <= i < n implies 1 <= #[trigger] line[i] <= n by {
            lemma_box_cell(band, stack, i, b);
            let (r1, c1) = (band * b + i / b, stack * b + i % b);
            assert(1 <= g[r1][c1] <= n);
        }
        lemma_distinct_values_cover(line, n);
    }
}

/// A line that holds each value from 1 to `n` exactly once holds nothing
/// else.
pub proof fn lemma_permutation_in_range(line: Seq<u8>, n: int)
    requires
        0 <= n <= 255,
        is_permutation(line, n),
    ensures
        forall|i: int| 0 <= i < n ==> 1 <= #[trigger] line[i] <= n,
{
    let wide = Seq::new(line.len(), |i: int| line[i] as int);
    let have = wide.to_set();
    let range = set_int_range(1, n + 1);
    assert(wide.no_duplicates());
    wide.unique_seq_to_set();
    seq_to_set_is_finite(wide);
    lemma_int_range(1, n + 1);
    assert forall|v: int| range.contains(v) implies have.contains(v) by {
        let small = v as u8;
        assert(line.contains(small));
        let i = choose|i: int| 0 <= i < line.len() && line[i] == small;
        assert(wide[i] == v);
    }
    lemma_subset_equality(range, have);
    assert forall|i: int| 0 <= i < n implies 1 <= #[trigger] line[i] <= n by {
        assert(wide[i] == line[i]);
        assert(have.contains(wide[i]));
    }
}

/// A board whose rows, columns and boxes each hold every value from 1 to
/// `b * b` exactly once is solved.
pub proof fn lemma_lines_solved(g: Seq<Seq<u8>>, b: int)
    requires
        0 < b <= 15,
        is_grid(g, b * b),
        all_lines_permutations(g, b),
    ensures
        solved(g, b),
{
    let n = b * b;
    assert(0 < n <= 225) by (nonlinear_arith)
        requires
            n == b * b,
            0 < b <= 15,
    ;
    assert forall|r: int, c: int| 0 <= r < n && 0 <= c < n implies 1 <= #[trigger] g[r][c] <= n
        && unique_at(g, r, c, b) by {
        assert(is_permutation(row_line(g, r), n));
        lemma_permutation_in_range(row_line(g, r), n);
        assert(row_line(g, r)[c] == g[r][c]);
        assert forall|r2: int, c2: int|
            0 <= r2 < g.len() && 0 <= c2 < g[r2].len() && sees(r, c, r2, c2, b) && !(r2 == r
                && c2 == c) implies #[trigger] g[r2][c2] != g[r][c] by {
            if r2 == r {
                assert(row_line(g, r)[c2] == g[r2][c2]);
            } else if c2 == c {
                assert(is_permutation(col_line(g, c), n));
                assert(col_line(g, c)[r] == g[r][c]);
                assert(col_line(g, c)[r2] == g[r2][c2]);
            } else {
                lemma_split_index(r, b);
                lemma_split_index(c, b);
                lemma_split_index(r2, b);
                lemma_split_index(c2, b);
                let band = r / b;
                let stack = c / b;
                let k = (r % b) * b + c % b;
                let k2 = (r2 - band * b) * b + (c2 - stack * b);
                assert(0 <= k < n && 0 <= k2 < n) by (nonlinear_arith)
                    requires
                        n == b * b,
                        0 <= r % b < b,
                        0 <= c % b < b,
                        0 <= r2 - band * b < b,
                        0 <= c2 - stack * b < b,
                        k == (r % b) * b + c % b,
                        k2 == (r2 - band * b) * b + (c2 - stack * b),
                ;
                lemma_fundamental_div_mod_converse(k, b, r % b, c % b);
                lemma_fundamental_div_mod_converse(k2, b, r2 - band * b, c2 - stack * b);
                let line = box_line(g, band, stack, b);
                assert(is_permutation(line, n));
                assert(line[k] == g[r][c]);
                assert(line[k2] == g[r2][c2]);
            }
        }
    }
}

} // verus!
