//! The text form of a world: one line per row, one character per cell.
//!
//! A pattern of side `n` is `n` lines of `n` characters with a newline
//! between one line and the next; a newline after the last line may be there
//! or not. The character `'0'` is a dead cell; any other character that is
//! not a newline is a live one.

use crate::world::{get_cell, is_square, Coord, World, WorldError};
use vstd::arithmetic::div_mod::lemma_fundamental_div_mod_converse;
use vstd::prelude::*;
use vstd::string::StrSliceExecFns;
use vstd::string::StringExecFns;

verus! {

/// The number of newline characters in `text`.
pub open spec fn line_count(text: Seq<char>) -> nat
    decreases text.len(),
{
    if text.len() == 0 {
        0
    } else if text.last() == '\n' {
        line_count(text.drop_last()) + 1
    } else {
        line_count(text.drop_last())
    }
}

/// The number of lines of `text`: one for each newline, and one more for a
/// last line that no newline ends.
pub open spec fn row_count(text: Seq<char>) -> nat {
    if text.len() > 0 && text.last() != '\n' {
        line_count(text) + 1
    } else {
        line_count(text)
    }
}

/// The number of characters of `text` that are not newlines: its cell count.
pub open spec fn cell_count(text: Seq<char>) -> nat {
    (text.len() - line_count(text)) as nat
}

/// The character that stands for the cell `(r, c)` in the text of an `n` by
/// `n` pattern; column `n` is the place of the newline after row `r`.
pub open spec fn char_at(text: Seq<char>, n: int, r: int, c: int) -> char {
    text[r * (n + 1) + c]
}

/// Whether `text` is a pattern of side `n`: `n` rows of `n` cells and a
/// newline after every row, which the last row may go without; nothing else
/// stands before, between or after them.
pub open spec fn is_pattern(text: Seq<char>, n: int) -> bool {
    &&& n >= 1
    &&& (text.len() == n * (n + 1) || text.len() == n * (n + 1) - 1)
    &&& forall|r: int, c: int|
        0 <= r < n && 0 <= c <= n && r * (n + 1) + c < text.len() ==> (#[trigger] char_at(
            text,
            n,
            r,
            c,
        ) == '\n' <==> c == n)
}

/// The cells that a pattern of side `n` describes.
pub open spec fn pattern_cells(text: Seq<char>, n: int) -> Seq<Seq<bool>> {
    Seq::new(n as nat, |r: int| Seq::new(n as nat, |c: int| char_at(text, n, r, c) != '0'))
}

/// The text of a square matrix: row after row, `'1'` for a live cell, `'0'`
/// for a dead one, and a newline after the last cell of each row.
pub open spec fn pattern_text(cells: Seq<Seq<bool>>) -> Seq<char> {
    let n = cells.len() as int;
    Seq::new(
        (n * (n + 1)) as nat,
        |i: int|
            if i % (n + 1) == n {
                '\n'
            } else if cells[i / (n + 1)][i % (n + 1)] {
                '1'
            } else {
                '0'
            },
    )
}

/// Reads off the side length that `text` announces: the number of its rows,
/// provided there is at least one and the cells are as many as the square of
/// that number.
pub fn square_size(text: &str) -> (r: Result<usize, WorldError>)
    ensures
        match r {
            Ok(s) => s == row_count(text@) && s >= 1 && s * s == cell_count(text@),
            Err(e) => {
                &&& e == WorldError::MalformedInput
                &&& (row_count(text@) == 0 || row_count(text@) * row_count(text@)
                    != cell_count(text@))
            },
        },
{
    let len: usize = text.unicode_len();
    let mut newlines: usize = 0;
    let mut open_row: bool = false;
    for c in it: text.chars()
        invariant
            it.seq() == text@,
            len == text@.len(),
            newlines == line_count(text@.take(it.index())),
            newlines <= it.index(),
            open_row <==> it.index() > 0 && text@[it.index() - 1] != '\n',
    {
        assert(text@.take(it.index() + 1).drop_last() =~= text@.take(it.index()));
        if c == '\n' {
            newlines += 1;
            open_row = false;
        } else {
            open_row = true;
        }
    }
    proof {
        assert(text@.take(text@.len() as int) =~= text@);
        if text@.len() > 0 {
            lemma_line_count_bound(text@.drop_last());
        }
    }
    let cells: usize = len - newlines;
    let rows: usize = if open_row {
        newlines + 1
    } else {
        newlines
    };
    if rows == 0 {
        return Err(WorldError::MalformedInput);
    }
    match rows.checked_mul(rows) {
        Some(square) => {
            if square == cells {
                Ok(rows)
            } else {
                Err(WorldError::MalformedInput)
            }
        },
        None => Err(WorldError::MalformedInput),
    }
}

/// Reads a world of side `s` from its text, or reports that the text is not
/// a pattern of that side. The last row is read with or without a newline
/// after it; nothing is padded and nothing is cut off.
pub fn parse_world(text: &str, s: usize) -> (r: Result<World, WorldError>)
    ensures
        match r {
            Ok(w) => is_pattern(text@, s as int) && w@ == pattern_cells(text@, s as int),
            Err(e) => e == WorldError::MalformedInput && !is_pattern(text@, s as int),
        },
{
    if s == 0 {
        return Err(WorldError::MalformedInput);
    }
    let ghost n = s as int;
    let mut rows: Vec<Vec<bool>> = Vec::new();
    let mut row: Vec<bool> = Vec::new();
    for c in it: text.chars()
        invariant
            it.seq() == text@,
            n == s >= 1,
            rows@.len() <= s,
            row@.len() <= s,
            rows@.len() == s ==> row@.len() == 0,
            it.index() == rows@.len() * (n + 1) + row@.len(),
            forall|i: int, j: int|
                0 <= i < rows@.len() && 0 <= j <= n ==> (#[trigger] char_at(text@, n, i, j)
                    == '\n' <==> j == n),
            forall|j: int|
                0 <= j < row@.len() ==> #[trigger] char_at(text@, n, rows@.len() as int, j)
                    != '\n',
            forall|i: int|
                0 <= i < rows@.len() ==> (#[trigger] rows@[i])@ == pattern_cells(text@, n)[i],
            forall|j: int|
                0 <= j < row@.len() ==> row@[j] == (char_at(text@, n, rows@.len() as int, j)
                    != '0'),
    {
        let ghost x = rows@.len() as int;
        let ghost y = row@.len() as int;
        assert(c == char_at(text@, n, x, y));
        if rows.len() == s {
            return Err(WorldError::MalformedInput);
        }
        proof {
            lemma_inside_text(n, x, y);
        }
        if c == '\n' {
            if row.len() != s {
                return Err(WorldError::MalformedInput);
            }
            rows.push(row);
            row = Vec::new();
            proof {
                lemma_next_row(n, x);
            }
        } else {
            if row.len() == s {
                return Err(WorldError::MalformedInput);
            }
            row.push(c != '0');
        }
    }
    if rows.len() == s - 1 && row.len() == s {
        proof {
            lemma_next_row(n, n - 1);
        }
        rows.push(row);
    } else if rows.len() != s {
        proof {
            lemma_short_text(n, rows@.len() as int, row@.len() as int);
        }
        return Err(WorldError::MalformedInput);
    }
    assert(rows.deep_view() =~~= pattern_cells(text@, n));
    Ok(World::from_square(rows))
}

/// Loads a world from the text of a pattern: measures the square, then reads
/// the cells. A text that is not a pattern is turned down as a whole; in
/// particular one whose row count, squared, is not its cell count.
pub fn init(text: &str) -> (r: Result<World, WorldError>)
    ensures
        match r {
            Ok(w) => {
                &&& is_pattern(text@, w@.len() as int)
                &&& w@ == pattern_cells(text@, w@.len() as int)
            },
            Err(e) => e == WorldError::MalformedInput && forall|n: int| !is_pattern(text@, n),
        },
        forall|n: int| is_pattern(text@, n) ==> (r matches Ok(w) && w@.len() == n),
        row_count(text@) * row_count(text@) != cell_count(text@) ==> r is Err,
{
    proof {
        assert forall|n: int| is_pattern(text@, n) implies n == row_count(text@) && n * n
            == cell_count(text@) by {
            lemma_pattern_size(text@, n);
        }
    }
    let s: usize = match square_size(text) {
        Ok(s) => s,
        Err(e) => {
            return Err(e);
        },
    };
    parse_world(text, s)
}

/// Writes a world as the text of a pattern, with a newline after every row.
/// Read back, the text gives the same world.
pub fn encode_world(w: &World) -> (text: String)
    ensures
        text@ == pattern_text(w@),
        is_pattern(text@, w@.len() as int),
        pattern_cells(text@, w@.len() as int) == w@,
{
    let n: usize = w.size();
    let mut text: String = String::new();
    let mut x: usize = 0;
    proof {
        reveal_strlit("1");
        reveal_strlit("0");
        reveal_strlit("\n");
        assert(0 * (n + 1) == 0) by (nonlinear_arith);
    }
    while x < n
        invariant
            x <= n,
            n == w@.len(),
            is_square(w@),
            "1"@ =~= seq!['1'],
            "0"@ =~= seq!['0'],
            "\n"@ =~= seq!['\n'],
            text@.len() == x * (n + 1),
            forall|i: int| 0 <= i < text@.len() ==> text@[i] == pattern_text(w@)[i],
        decreases n - x,
    {
        let mut y: usize = 0;
        while y < n
            invariant
                x < n,
                y <= n,
                n == w@.len(),
                is_square(w@),
                "1"@ =~= seq!['1'],
                "0"@ =~= seq!['0'],
                text@.len() == x * (n + 1) + y,
                forall|i: int| 0 <= i < text@.len() ==> text@[i] == pattern_text(w@)[i],
            decreases n - y,
        {
            proof {
                lemma_text_position(n as int, x as int, y as int);
            }
            if get_cell(&Coord { x, y }, w).unwrap() {
                text.append("1");
            } else {
                text.append("0");
            }
            y += 1;
        }
        proof {
            lemma_text_position(n as int, x as int, n as int);
            lemma_next_row(n as int, x as int);
        }
        text.append("\n");
        x += 1;
    }
    proof {
        assert(text@ =~= pattern_text(w@));
        lemma_text_round_trip(w@);
    }
    text
}

/// There are never more newlines than characters.
pub proof fn lemma_line_count_bound(text: Seq<char>)
    ensures
        line_count(text) <= text.len(),
    decreases text.len(),
{
    if text.len() > 0 {
        lemma_line_count_bound(text.drop_last());
    }
}

/// A pattern of side `n` has `n` rows and `n * n` cells, so a text is a
/// pattern of at most one side: its row count.
pub proof fn lemma_pattern_size(text: Seq<char>, n: int)
    requires
        is_pattern(text, n),
    ensures
        row_count(text) == n,
        cell_count(text) == n * n,
{
    lemma_next_row(n, n - 1);
    assert(n * (n + 1) - n == n * n) by (nonlinear_arith);
    if text.len() == n * (n + 1) {
        lemma_prefix_lines(text, n, n, 0);
        assert(text.take(n * (n + 1)) =~= text);
        assert(text.last() == char_at(text, n, n - 1, n));
    } else {
        lemma_prefix_lines(text, n, n - 1, n);
        assert(text.take((n - 1) * (n + 1) + n) =~= text);
        assert(text.last() == char_at(text, n, n - 1, n - 1));
    }
}

/// A text whose row count, squared, is not its cell count is no pattern of
/// any side.
pub proof fn lemma_counts_not_square(text: Seq<char>, n: int)
    requires
        row_count(text) * row_count(text) != cell_count(text),
    ensures
        !is_pattern(text, n),
{
    if is_pattern(text, n) {
        lemma_pattern_size(text, n);
    }
}

/// Writing a square matrix as text and reading the text back gives the
/// same matrix, cell for cell, with the newline after the last row and
/// without it.
pub proof fn lemma_text_round_trip(cells: Seq<Seq<bool>>)
    requires
        is_square(cells),
    ensures
        is_pattern(pattern_text(cells), cells.len() as int),
        pattern_cells(pattern_text(cells), cells.len() as int) == cells,
        is_pattern(pattern_text(cells).drop_last(), cells.len() as int),
        pattern_cells(pattern_text(cells).drop_last(), cells.len() as int) == cells,
{
    let n = cells.len() as int;
    let text = pattern_text(cells);
    let short = text.drop_last();
    assert(1 <= n * (n + 1)) by (nonlinear_arith)
        requires
            n >= 1,
    ;
    assert forall|r: int, c: int| 0 <= r < n && 0 <= c <= n implies {
        &&& #[trigger] char_at(text, n, r, c) == '\n' <==> c == n
        &&& c < n ==> (char_at(text, n, r, c) != '0' <==> cells[r][c])
    } by {
        lemma_text_position(n, r, c);
    }
    assert forall|r: int, c: int|
        0 <= r < n && 0 <= c <= n && r * (n + 1) + c < short.len() implies #[trigger] char_at(
        short,
        n,
        r,
        c,
    ) == char_at(text, n, r, c) by {
        lemma_text_position(n, r, c);
    }
    assert forall|r: int, c: int| 0 <= r < n && 0 <= c < n implies char_at(short, n, r, c)
        == char_at(text, n, r, c) by {
        lemma_short_text(n, r, c);
    }
    assert(pattern_cells(text, n) =~~= cells);
    assert(pattern_cells(short, n) =~~= cells);
}

proof fn lemma_next_row(n: int, r: int)
    ensures
        (r + 1) * (n + 1) == r * (n + 1) + n + 1,
{
    assert((r + 1) * (n + 1) == r * (n + 1) + n + 1) by (nonlinear_arith);
}

proof fn lemma_inside_text(n: int, r: int, c: int)
    requires
        0 <= r < n,
        0 <= c <= n,
    ensures
        0 <= r * (n + 1) + c < n * (n + 1),
{
    assert(0 <= r * (n + 1) && (r + 1) * (n + 1) <= n * (n + 1)) by (nonlinear_arith)
        requires
            0 <= r < n,
    ;
    lemma_next_row(n, r);
}

proof fn lemma_text_position(n: int, r: int, c: int)
    requires
        0 <= r < n,
        0 <= c <= n,
    ensures
        0 <= r * (n + 1) + c < n * (n + 1),
        (r * (n + 1) + c) / (n + 1) == r,
        (r * (n + 1) + c) % (n + 1) == c,
{
    lemma_inside_text(n, r, c);
    lemma_fundamental_div_mod_converse(r * (n + 1) + c, n + 1, r, c);
}

/// A text that stops inside row `r`, before the row's last cell, is shorter
/// than a pattern of side `n` without its last newline.
proof fn lemma_short_text(n: int, r: int, c: int)
    requires
        0 <= r < n,
        0 <= c <= n,
        r < n - 1 || c < n,
    ensures
        r * (n + 1) + c < n * (n + 1) - 1,
{
    lemma_next_row(n, n - 1);
    if r < n - 1 {
        assert((r + 1) * (n + 1) <= (n - 1) * (n + 1)) by (nonlinear_arith)
            requires
                0 <= r < n - 1,
        ;
        lemma_next_row(n, r);
    }
}

proof fn lemma_prefix_lines(text: Seq<char>, n: int, r: int, c: int)
    requires
        is_pattern(text, n),
        0 <= r <= n,
        0 <= c <= n,
        r == n ==> c == 0,
        r * (n + 1) + c <= text.len(),
    ensures
        line_count(text.take(r * (n + 1) + c)) == r,
    decreases r, c,
{
    if c > 0 {
        lemma_prefix_lines(text, n, r, c - 1);
        let k = r * (n + 1) + c - 1;
        assert(text.take(k + 1).drop_last() =~= text.take(k));
        assert(text.take(k + 1).last() == char_at(text, n, r, c - 1));
    } else if r > 0 {
        lemma_next_row(n, r - 1);
        lemma_prefix_lines(text, n, r - 1, n);
        let k = (r - 1) * (n + 1) + n;
        assert(text.take(k + 1).drop_last() =~= text.take(k));
        assert(text.take(k + 1).last() == char_at(text, n, r - 1, n));
    } else {
        assert(0 * (n + 1) == 0) by (nonlinear_arith);
    }
}

} // verus!
