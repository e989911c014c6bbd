//! The puzzle carver: empties a number of cells of a board, chosen at random.

use vstd::prelude::*;
use crate::grid::{
    grid, is_full, is_grid, lemma_zero_count_none, lemma_zero_count_with_cell, set_cell,
    with_cell, zero_count,
};
use crate::random::{lemma_rearranged, shuffle, thread_rng};
use crate::rules::lemma_split_index;

verus! {

/// The coordinates of a board of dimension `n`, row by row.
pub open spec fn all_cells(n: nat) -> Seq<(int, int)> {
    Seq::new(n * n, |i: int| (i / n as int, i % n as int))
}

/// A list of coordinates as pairs of mathematical integers.
pub open spec fn coords(cells: Seq<(usize, usize)>) -> Seq<(int, int)> {
    Seq::new(cells.len(), |i: int| (cells[i].0 as int, cells[i].1 as int))
}

/// Every coordinate in `cells` names a cell of `g`.
pub open spec fn within(cells: Seq<(int, int)>, g: Seq<Seq<u8>>) -> bool {
    forall|i: int|
        0 <= i < cells.len() ==> 0 <= (#[trigger] cells[i]).0 < g.len() && 0 <= cells[i].1
            < g[cells[i].0].len()
}

/// `g` with every cell named in `cells` emptied and every other cell kept.
pub open spec fn carved(g: Seq<Seq<u8>>, cells: Seq<(int, int)>) -> Seq<Seq<u8>> {
    Seq::new(
        g.len(),
        |r: int|
            Seq::new(
                g[r].len(),
                |c: int|
                    if cells.contains((r, c)) {
                        0u8
                    } else {
                        g[r][c]
                    },
            ),
    )
}

/// `h` is `g` with `k` different cells emptied and every other cell kept.
pub open spec fn is_carving(h: Seq<Seq<u8>>, g: Seq<Seq<u8>>, k: nat) -> bool {
    exists|cells: Seq<(int, int)>|
        cells.no_duplicates() && cells.len() == k && within(cells, g) && h == #[trigger] carved(
            g,
            cells,
        )
}

/// Emptying one more cell: carving by a list is carving by the list without
/// its last coordinate, followed by emptying the cell the last one names.
pub proof fn lemma_carved_step(g: Seq<Seq<u8>>, cells: Seq<(int, int)>)
    requires
        cells.len() > 0,
        within(cells, g),
    ensures
        carved(g, cells) == with_cell(
            carved(g, cells.drop_last()),
            cells.last().0,
            cells.last().1,
            0,
        ),
{
    let rest = cells.drop_last();
    let last = cells.last();
    let h = with_cell(carved(g, rest), last.0, last.1, 0);
    assert(cells[cells.len() - 1] == last);
    assert forall|r: int, c: int| 0 <= r < g.len() && 0 <= c < g[r].len() implies carved(
        g,
        cells,
    )[r][c] == h[r][c] by {
        let p = (r, c);
        if cells.contains(p) {
            let i = choose|i: int| 0 <= i < cells.len() && cells[i] == p;
            if i < cells.len() - 1 {
                assert(rest[i] == p);
            }
        }
        if rest.contains(p) {
            let i = choose|i: int| 0 <= i < rest.len() && rest[i] == p;
            assert(cells[i] == p);
        }
    }
    assert(carved(g, cells) =~~= h);
}

/// Carve cardinality: emptying `k` different filled cells raises the count of
/// empty cells by exactly `k`, and every cell not named keeps its value.
pub proof fn lemma_carve_cardinality(g: Seq<Seq<u8>>, cells: Seq<(int, int)>)
    requires
        within(cells, g),
        cells.no_duplicates(),
        forall|i: int| 0 <= i < cells.len() ==> g[cells[i].0][cells[i].1] != 0,
    ensures
        zero_count(carved(g, cells)) == zero_count(g) + cells.len(),
        forall|r: int, c: int|
            0 <= r < g.len() && 0 <= c < g[r].len() && !cells.contains((r, c))
                ==> carved(g, cells)[r][c] == g[r][c],
    decreases cells.len(),
{
    if cells.len() == 0 {
        assert(carved(g, cells) =~~= g);
    } else {
        let rest = cells.drop_last();
        let last = cells.last();
        assert(cells[cells.len() - 1] == last);
        assert forall|i: int| 0 <= i < rest.len() implies g[rest[i].0][rest[i].1] != 0 by {
            assert(rest[i] == cells[i]);
        }
        lemma_carve_cardinality(g, rest);
        lemma_carved_step(g, cells);
        if rest.contains(last) {
            let i = choose|i: int| 0 <= i < rest.len() && rest[i] == last;
            assert(cells[i] == last);
        }
        let r = last.0;
        let c = last.1;
        assert(carved(g, rest)[r][c] == g[r][c]);
        lemma_zero_count_with_cell(carved(g, rest), r, c, 0);
    }
}

/// Carving `k` cells out of a full board leaves exactly `k` cells empty.
pub proof fn lemma_carving_of_full(h: Seq<Seq<u8>>, g: Seq<Seq<u8>>, k: nat)
    requires
        is_full(g),
        is_carving(h, g, k),
    ensures
        zero_count(h) == k,
{
    let cells = choose|cells: Seq<(int, int)>|
        cells.no_duplicates() && cells.len() == k && within(cells, g) && h == #[trigger] carved(
            g,
            cells,
        );
    lemma_zero_count_none(g);
    lemma_carve_cardinality(g, cells);
}

/// Empties the cells that the first `count` coordinates of `cells` name, or
/// all that `cells` names when it holds fewer.
pub fn clear_cells(board: &mut Vec<Vec<u8>>, cells: &Vec<(usize, usize)>, count: usize)
    requires
        within(coords(cells@), grid(old(board))),
    ensures
        count <= cells@.len() ==> grid(final(board)) == carved(
            grid(old(board)),
            coords(cells@).take(count as int),
        ),
        count > cells@.len() ==> grid(final(board)) == carved(grid(old(board)), coords(cells@)),
{
    let ghost g0 = grid(board);
    let ghost all = coords(cells@);
    let limit: usize = if count <= cells.len() {
        count
    } else {
        cells.len()
    };
    assert(carved(g0, all.take(0)) =~~= g0);
    let mut i: usize = 0;
    while i < limit
        invariant
            i <= limit <= cells@.len(),
            all == coords(cells@),
            within(all, g0),
            grid(board) == carved(g0, all.take(i as int)),
        decreases limit - i,
    {
        let (r, c) = cells[i];
        proof {
            let done = all.take(i as int);
            let next = all.take(i + 1);
            assert(all[i as int] == (r as int, c as int));
            assert(next.drop_last() =~= done);
            assert(next.last() == all[i as int]);
            assert forall|j: int| 0 <= j < next.len() implies 0 <= (#[trigger] next[j]).0
                < g0.len() && 0 <= next[j].1 < g0[next[j].0].len() by {
                assert(next[j] == all[j]);
            }
            lemma_carved_step(g0, next);
            assert(0 <= all[i as int].0 < g0.len() && 0 <= all[i as int].1 < g0[all[i as int].0].len());
            assert(grid(board).len() == board@.len());
            assert(carved(g0, done).len() == g0.len());
            assert(carved(g0, done)[r as int].len() == g0[r as int].len());
            assert(grid(board)[r as int] == board@[r as int]@);
        }
        set_cell(board, r, c, 0);
        i += 1;
    }
    assert(all.take(all.len() as int) =~= all);
}

/// Lists the coordinates of a board of dimension `n`, row by row.
pub fn cell_list(n: usize) -> (cells: Vec<(usize, usize)>)
    requires
        n * n <= usize::MAX,
    ensures
        coords(cells@) == all_cells(n as nat),
{
    let mut cells: Vec<(usize, usize)> = Vec::new();
    let mut r: usize = 0;
    while r < n
        invariant
            r <= n,
            n * n <= usize::MAX,
            cells@.len() == r * n,
            forall|i: int| 0 <= i < cells@.len() ==> coords(cells@)[i] == all_cells(n as nat)[i],
        decreases n - r,
    {
        let mut c: usize = 0;
        while c < n
            invariant
                r < n,
                c <= n,
                n * n <= usize::MAX,
                cells@.len() == r * n + c,
                forall|i: int| 0 <= i < cells@.len() ==> coords(cells@)[i] == all_cells(n as nat)[i],
            decreases n - c,
        {
            proof {
                let i = r * n + c;
                assert(i < n * n) by (nonlinear_arith)
                    requires
                        i == r * n + c,
                        r < n,
                        c < n,
                ;
                vstd::arithmetic::div_mod::lemma_fundamental_div_mod_converse(
                    i as int,
                    n as int,
                    r as int,
                    c as int,
                );
            }
            cells.push((r, c));
            c += 1;
        }
        assert((r + 1) * n == r * n + n) by (nonlinear_arith);
        r += 1;
    }
    assert(coords(cells@) =~= all_cells(n as nat));
    cells
}

/// The number of cells that carving `empty` cells out of a board of dimension
/// `n` empties: `empty`, or all `n * n` when there are fewer.
pub open spec fn carve_count(empty: nat, n: nat) -> nat {
    if empty <= n * n {
        empty
    } else {
        n * n
    }
}

/// The row-by-row list names each cell of the board once.
pub proof fn lemma_all_cells(n: nat)
    ensures
        all_cells(n).len() == n * n,
        all_cells(n).no_duplicates(),
        forall|i: int|
            0 <= i < n * n ==> 0 <= (#[trigger] all_cells(n)[i]).0 < n && 0 <= all_cells(n)[i].1
                < n,
{
    let cells = all_cells(n);
    assert forall|i: int| 0 <= i < n * n implies 0 <= (#[trigger] cells[i]).0 < n && 0
        <= cells[i].1 < n by {
        lemma_split_index(i, n as int);
    }
    assert forall|i: int, j: int|
        0 <= i < cells.len() && 0 <= j < cells.len() && i != j implies cells[i] != cells[j] by {
        lemma_split_index(i, n as int);
        lemma_split_index(j, n as int);
    }
}

/// Empties `empty` cells of the board, chosen at random: lists every
/// coordinate, shuffles the list and empties the cells that its first `empty`
/// entries name. With `empty` above the number of cells, all are emptied.
///
/// Which cells are emptied is left to chance; their number is not, and every
/// other cell keeps its value.
pub fn remove_cells(board: &mut Vec<Vec<u8>>, empty: usize)
    requires
        is_grid(grid(old(board)), old(board)@.len() as int),
        old(board)@.len() * old(board)@.len() <= usize::MAX,
    ensures
        is_carving(
            grid(final(board)),
            grid(old(board)),
            carve_count(empty as nat, old(board)@.len()),
        ),
        is_full(grid(old(board))) ==> zero_count(grid(final(board))) == carve_count(
            empty as nat,
            old(board)@.len(),
        ),
{
    let n: usize = board.len();
    let ghost g0 = grid(board);
    let mut rng = thread_rng();
    let mut cells: Vec<(usize, usize)> = cell_list(n);
    let ghost listed = cells@;
    proof {
        lemma_all_cells(n as nat);
        assert forall|i: int, j: int|
            0 <= i < listed.len() && 0 <= j < listed.len() && i != j implies listed[i]
            != listed[j] by {
            assert(coords(listed)[i] != coords(listed)[j]);
        }
    }
    shuffle(&mut cells, &mut rng);
    let ghost picked = coords(cells@);
    proof {
        lemma_rearranged(listed, cells@);
        assert forall|j: int| 0 <= j < picked.len() implies 0 <= (#[trigger] picked[j]).0
            < g0.len() && 0 <= picked[j].1 < g0[picked[j].0].len() by {
            assert(cells@.contains(cells@[j]));
            let i = choose|i: int| 0 <= i < listed.len() && listed[i] == cells@[j];
            assert(coords(listed)[i] == picked[j]);
        }
        assert forall|i: int, j: int|
            0 <= i < picked.len() && 0 <= j < picked.len() && i != j implies picked[i]
            != picked[j] by {
            assert(cells@[i] != cells@[j]);
        }
    }
    clear_cells(board, &cells, empty);
    proof {
        let k = carve_count(empty as nat, n as nat);
        let chosen = picked.take(k as int);
        assert(picked.take(picked.len() as int) =~= picked);
        assert(grid(board) == carved(g0, chosen));
        assert(within(chosen, g0));
        assert(chosen.no_duplicates());
        assert(is_carving(grid(board), g0, k));
        if is_full(g0) {
            lemma_carving_of_full(grid(board), g0, k);
        }
    }
}

} // verus!
