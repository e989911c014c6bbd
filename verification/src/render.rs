//! The board as text: three characters per cell, one line per row.

use vstd::prelude::*;
use crate::grid::grid;

verus! {

/// The character of a decimal digit.
pub open spec fn digit(d: u8) -> char {
    (48 + d) as char
}

/// A cell as text, centred in three columns: ` . ` for an empty cell, else
/// the value in decimal, with the odd space of a two-digit value on the
/// right.
pub open spec fn cell_text(value: u8) -> Seq<char> {
    if value == 0 {
        seq![' ', '.', ' ']
    } else if value < 10 {
        seq![' ', digit(value), ' ']
    } else if value < 100 {
        seq![digit(value / 10), digit(value % 10), ' ']
    } else {
        seq![digit(value / 100), digit(value / 10 % 10), digit(value % 10)]
    }
}

/// The cells of a row as text, one after the other.
pub open spec fn row_text(row: Seq<u8>) -> Seq<char>
    decreases row.len(),
{
    if row.len() == 0 {
        Seq::empty()
    } else {
        row_text(row.drop_last()) + cell_text(row.last())
    }
}

/// The rows of a board as text, each closed by a line feed.
pub open spec fn board_text(g: Seq<Seq<u8>>) -> Seq<char>
    decreases g.len(),
{
    if g.len() == 0 {
        Seq::empty()
    } else {
        board_text(g.drop_last()) + row_text(g.last()) + seq!['\n']
    }
}

/// Gives the character of a decimal digit.
pub fn digit_char(d: u8) -> (c: char)
    requires
        d < 10,
    ensures
        c == digit(d),
{
    match d {
        0 => '0',
        1 => '1',
        2 => '2',
        3 => '3',
        4 => '4',
        5 => '5',
        6 => '6',
        7 => '7',
        8 => '8',
        _ => '9',
    }
}

/// Appends one cell to the text.
pub fn push_cell(out: &mut String, value: u8)
    ensures
        final(out)@ == old(out)@ + cell_text(value),
{
    if value == 0 {
        proof {
            reveal_strlit(" . ");
        }
        out.push_str(" . ");
    } else if value < 10 {
        out.push(' ');
        out.push(digit_char(value));
        out.push(' ');
    } else if value < 100 {
        out.push(digit_char(value / 10));
        out.push(digit_char(value % 10));
        out.push(' ');
    } else {
        out.push(digit_char(value / 100));
        out.push(digit_char(value / 10 % 10));
        out.push(digit_char(value % 10));
    }
    assert(out@ =~= old(out)@ + cell_text(value));
}

/// Renders the board as text: every cell in three columns, every row on a
/// line of its own.
pub fn render_board(board: &Vec<Vec<u8>>) -> (out: String)
    ensures
        out@ == board_text(grid(board)),
{
    let mut out = String::new();
    let ghost g = grid(board);
    let mut r: usize = 0;
    while r < board.len()
        invariant
            g == grid(board),
            r <= board@.len(),
            out@ == board_text(g.take(r as int)),
        decreases board@.len() - r,
    {
        let row = &board[r];
        let ghost before = out@;
        let mut c: usize = 0;
        while c < row.len()
            invariant
                c <= row@.len(),
                out@ == before + row_text(row@.take(c as int)),
            decreases row@.len() - c,
        {
            push_cell(&mut out, row[c]);
            proof {
                assert(row@.take(c + 1).drop_last() =~= row@.take(c as int));
                assert(row@.take(c + 1).last() == row@[c as int]);
                assert(out@ =~= before + row_text(row@.take(c + 1)));
            }
            c += 1;
        }
        out.push('\n');
        proof {
            assert(row@.take(row@.len() as int) =~= row@);
            assert(g.take(r + 1).drop_last() =~= g.take(r as int));
            assert(g.take(r + 1).last() == row@);
            assert(out@ =~= board_text(g.take(r + 1)));
        }
        r += 1;
    }
    assert(g.take(g.len() as int) =~= g);
    out
}

} // verus!
