//! The picture of a world: what a terminal shows for one generation.

use crate::world::{get_cell, is_square, Coord, World};
use vstd::prelude::*;
use vstd::string::StringExecFns;

verus! {

/// The three characters that stand for one cell.
pub open spec fn cell_picture(alive: bool) -> Seq<char> {
    if alive {
        seq![' ', 'X', ' ']
    } else {
        seq![' ', '.', ' ']
    }
}

/// The pictures of the cells of `row`, one after another.
pub open spec fn cells_picture(row: Seq<bool>) -> Seq<char>
    decreases row.len(),
{
    if row.len() == 0 {
        Seq::empty()
    } else {
        cells_picture(row.drop_last()) + cell_picture(row.last())
    }
}

/// The lines of `rows`, one after another: each is the picture of the
/// row's cells and a newline.
pub open spec fn rows_picture(rows: Seq<Seq<bool>>) -> Seq<char>
    decreases rows.len(),
{
    if rows.len() == 0 {
        Seq::empty()
    } else {
        rows_picture(rows.drop_last()) + cells_picture(rows.last()) + seq!['\n']
    }
}

/// The picture of a whole matrix: an empty line that sets it off from
/// whatever was shown before, then one line for each row.
pub open spec fn picture(cells: Seq<Seq<bool>>) -> Seq<char> {
    seq!['\n'] + rows_picture(cells)
}

/// Draws a world as text, ready to be printed.
pub fn show_world(w: &World) -> (text: String)
    ensures
        text@ == picture(w@),
{
    let n: usize = w.size();
    let mut text: String = String::new();
    proof {
        reveal_strlit("\n");
        reveal_strlit(" X ");
        reveal_strlit(" . ");
    }
    text.append("\n");
    let mut x: usize = 0;
    while x < n
        invariant
            x <= n,
            n == w@.len(),
            is_square(w@),
            "\n"@ =~= seq!['\n'],
            " X "@ =~= seq![' ', 'X', ' '],
            " . "@ =~= seq![' ', '.', ' '],
            text@ =~= seq!['\n'] + rows_picture(w@.take(x as int)),
        decreases n - x,
    {
        let ghost before = text@;
        let ghost row = w@[x as int];
        let mut y: usize = 0;
        while y < n
            invariant
                x < n,
                y <= n,
                n == w@.len(),
                is_square(w@),
                row == w@[x as int],
                " X "@ =~= seq![' ', 'X', ' '],
                " . "@ =~= seq![' ', '.', ' '],
                text@ =~= before + cells_picture(row.take(y as int)),
            decreases n - y,
        {
            assert(row.take(y + 1).drop_last() =~= row.take(y as int));
            if get_cell(&Coord { x, y }, w).unwrap() {
                text.append(" X ");
            } else {
                text.append(" . ");
            }
            y += 1;
        }
        text.append("\n");
        proof {
            assert(row.take(n as int) =~= row);
            assert(w@.take(x + 1).drop_last() =~= w@.take(x as int));
        }
        x += 1;
    }
    assert(w@.take(n as int) =~= w@);
    text
}

} // verus!
