//! Neighbour counting and the transition rule.

use crate::world::{get_cell, in_bounds, is_square, Coord, World, WorldError};
use vstd::prelude::*;

verus! {

/// The eight (row, column) offsets of the Moore neighbourhood.
pub const OFFSETS: [(isize, isize); 8] = [
    (-1, -1),
    (-1, 0),
    (-1, 1),
    (0, -1),
    (0, 1),
    (1, -1),
    (1, 0),
    (1, 1),
];

/// 1 for a live cell, 0 for a dead one.
pub open spec fn as_count(alive: bool) -> int {
    if alive {
        1
    } else {
        0
    }
}

/// What `(x, y)` adds to a neighbour count: 1 for a live cell of the matrix,
/// 0 for a dead cell and for any position outside the matrix.
pub open spec fn live_at(cells: Seq<Seq<bool>>, x: int, y: int) -> int {
    if in_bounds(cells.len() as int, x, y) {
        as_count(cells[x][y])
    } else {
        0
    }
}

/// The number of live cells among the eight positions around `(x, y)`.
/// The matrix does not wrap: positions beyond its border count as dead.
pub open spec fn live_neighbours(cells: Seq<Seq<bool>>, x: int, y: int) -> int {
    live_at(cells, x - 1, y - 1) + live_at(cells, x - 1, y) + live_at(cells, x - 1, y + 1)
        + live_at(cells, x, y - 1) + live_at(cells, x, y + 1)
        + live_at(cells, x + 1, y - 1) + live_at(cells, x + 1, y) + live_at(cells, x + 1, y + 1)
}

/// What a position adds to the number of places to look at: 1 inside an
/// `n` by `n` world, 0 outside.
pub open spec fn position_at(n: int, x: int, y: int) -> int {
    if in_bounds(n, x, y) {
        1
    } else {
        0
    }
}

/// How many of the eight positions around `(x, y)` lie inside an `n` by `n`
/// world. No other position is looked up when neighbours are counted.
pub open spec fn neighbour_positions(n: int, x: int, y: int) -> int {
    position_at(n, x - 1, y - 1) + position_at(n, x - 1, y) + position_at(n, x - 1, y + 1)
        + position_at(n, x, y - 1) + position_at(n, x, y + 1)
        + position_at(n, x + 1, y - 1) + position_at(n, x + 1, y) + position_at(n, x + 1, y + 1)
}

/// Whether `(x, y)` lies in the first or last row or column.
pub open spec fn on_edge(n: int, x: int, y: int) -> bool {
    x == 0 || x == n - 1 || y == 0 || y == n - 1
}

/// Whether `(x, y)` is one of the four corners.
pub open spec fn on_corner(n: int, x: int, y: int) -> bool {
    (x == 0 || x == n - 1) && (y == 0 || y == n - 1)
}

/// The transition rule: a live cell survives with two or three live
/// neighbours, a dead cell comes alive with exactly three.
pub open spec fn next_state(alive: bool, neighbours: int) -> bool {
    if alive {
        neighbours == 2 || neighbours == 3
    } else {
        neighbours == 3
    }
}

/// The state of the cell `(x, y)` one generation on.
pub open spec fn next_cell(cells: Seq<Seq<bool>>, x: int, y: int) -> bool {
    next_state(cells[x][y], live_neighbours(cells, x, y))
}

/// The whole matrix one generation on: every cell is judged against the
/// matrix as it stands, never against cells already renewed.
pub open spec fn next_world(cells: Seq<Seq<bool>>) -> Seq<Seq<bool>> {
    Seq::new(cells.len(), |x: int| Seq::new(cells.len(), |y: int| next_cell(cells, x, y)))
}

/// The live cells among the first `k` entries of [`OFFSETS`] around `(x, y)`.
spec fn live_among(cells: Seq<Seq<bool>>, x: int, y: int, k: int) -> int
    decreases k,
{
    if k <= 0 {
        0
    } else {
        live_among(cells, x, y, k - 1) + live_at(
            cells,
            x + OFFSETS[k - 1].0,
            y + OFFSETS[k - 1].1,
        )
    }
}

proof fn lemma_live_among_all(cells: Seq<Seq<bool>>, x: int, y: int)
    ensures
        live_among(cells, x, y, 8) == live_neighbours(cells, x, y),
{
    reveal_with_fuel(live_among, 9);
}

/// The cell at offset `(dx, dy)` from `c`, unless that position falls
/// outside an `n` by `n` world.
fn neighbour(c: &Coord, dx: isize, dy: isize, n: usize) -> (r: Option<Coord>)
    ensures
        r == (if in_bounds(n as int, c.x + dx, c.y + dy) {
            Some(Coord { x: (c.x + dx) as usize, y: (c.y + dy) as usize })
        } else {
            None
        }),
{
    match (c.x.checked_add_signed(dx), c.y.checked_add_signed(dy)) {
        (Some(x), Some(y)) => {
            if x < n && y < n {
                Some(Coord { x, y })
            } else {
                None
            }
        },
        _ => None,
    }
}

/// Counts the live cells in the Moore neighbourhood of `c`, or reports that
/// `c` lies outside the world. Offsets that leave the world are skipped
/// before any cell is looked up.
pub fn moore_sum(c: &Coord, w: &World) -> (r: Result<u8, WorldError>)
    ensures
        match r {
            Ok(sum) => {
                &&& in_bounds(w@.len() as int, c.x as int, c.y as int)
                &&& sum == live_neighbours(w@, c.x as int, c.y as int)
                &&& sum <= neighbour_positions(w@.len() as int, c.x as int, c.y as int) <= 8
            },
            Err(e) => {
                &&& e == WorldError::OutOfBounds
                &&& !in_bounds(w@.len() as int, c.x as int, c.y as int)
            },
        },
{
    let n: usize = w.size();
    if c.x >= n || c.y >= n {
        return Err(WorldError::OutOfBounds);
    }
    let mut sum: u8 = 0;
    let mut k: usize = 0;
    while k < 8
        invariant
            k <= 8,
            n == w@.len(),
            sum == live_among(w@, c.x as int, c.y as int, k as int),
            sum <= k,
        decreases 8 - k,
    {
        let (dx, dy) = OFFSETS[k];
        match neighbour(c, dx, dy, n) {
            Some(p) => {
                if get_cell(&p, w).unwrap() {
                    sum += 1;
                }
            },
            None => {},
        }
        k += 1;
    }
    proof {
        lemma_live_among_all(w@, c.x as int, c.y as int);
        lemma_neighbour_count_bounds(w@, c.x as int, c.y as int);
    }
    Ok(sum)
}

/// Computes the next state of the cell at `c`, or reports that `c` lies
/// outside the world.
pub fn tick_cell(c: &Coord, w: &World) -> (r: Result<bool, WorldError>)
    ensures
        r == (if in_bounds(w@.len() as int, c.x as int, c.y as int) {
            Ok::<bool, WorldError>(next_cell(w@, c.x as int, c.y as int))
        } else {
            Err::<bool, WorldError>(WorldError::OutOfBounds)
        }),
{
    let s: u8 = match moore_sum(c, w) {
        Ok(s) => s,
        Err(e) => {
            return Err(e);
        },
    };
    let alive: bool = get_cell(c, w).unwrap();
    if alive {
        Ok(s == 2 || s == 3)
    } else {
        Ok(s == 3)
    }
}

/// Computes the next generation. The world passed in is left untouched and
/// the result is built in storage of its own.
pub fn tick_world(w: &World) -> (next: World)
    ensures
        next@ == next_world(w@),
        is_square(next@),
        next@.len() == w@.len(),
{
    let n: usize = w.size();
    let mut rows: Vec<Vec<bool>> = Vec::new();
    let mut x: usize = 0;
    while x < n
        invariant
            x <= n,
            n == w@.len(),
            rows@.len() == x,
            forall|i: int| 0 <= i < x ==> (#[trigger] rows@[i])@ == next_world(w@)[i],
        decreases n - x,
    {
        let mut row: Vec<bool> = Vec::new();
        let mut y: usize = 0;
        while y < n
            invariant
                x < n,
                y <= n,
                n == w@.len(),
                row@.len() == y,
                forall|j: int| 0 <= j < y ==> row@[j] == next_cell(w@, x as int, j),
            decreases n - y,
        {
            let cell: bool = tick_cell(&Coord { x, y }, w).unwrap();
            row.push(cell);
            y += 1;
        }
        rows.push(row);
        x += 1;
    }
    assert(rows.deep_view() =~~= next_world(w@));
    World::from_square(rows)
}

/// A neighbour count lies between 0 and 8, for every matrix and every
/// position, and never exceeds the number of positions inside the world.
pub proof fn lemma_neighbour_count_bounds(cells: Seq<Seq<bool>>, x: int, y: int)
    ensures
        0 <= live_neighbours(cells, x, y) <= neighbour_positions(cells.len() as int, x, y) <= 8,
{
}

/// Away from the border all eight positions around a cell belong to the
/// world, and the neighbour count is the number of live cells among them.
pub proof fn lemma_interior_neighbours(cells: Seq<Seq<bool>>, x: int, y: int)
    requires
        is_square(cells),
        1 <= x < cells.len() - 1,
        1 <= y < cells.len() - 1,
    ensures
        neighbour_positions(cells.len() as int, x, y) == 8,
        live_neighbours(cells, x, y)
            == as_count(cells[x - 1][y - 1]) + as_count(cells[x - 1][y])
            + as_count(cells[x - 1][y + 1]) + as_count(cells[x][y - 1])
            + as_count(cells[x][y + 1]) + as_count(cells[x + 1][y - 1])
            + as_count(cells[x + 1][y]) + as_count(cells[x + 1][y + 1]),
{
}

/// On the border fewer positions exist: at most three around a corner and
/// at most five around any other cell of an edge.
pub proof fn lemma_border_neighbours(n: int, x: int, y: int)
    requires
        in_bounds(n, x, y),
    ensures
        on_corner(n, x, y) ==> neighbour_positions(n, x, y) <= 3,
        on_edge(n, x, y) ==> neighbour_positions(n, x, y) <= 5,
{
}

/// Birth: a dead cell is alive one generation on exactly when three of its
/// neighbours are alive; with two, or with four or more, it stays dead.
pub proof fn lemma_birth(cells: Seq<Seq<bool>>, x: int, y: int)
    requires
        is_square(cells),
        in_bounds(cells.len() as int, x, y),
        !cells[x][y],
    ensures
        next_world(cells)[x][y] <==> live_neighbours(cells, x, y) == 3,
{
}

/// Survival: a live cell stays alive exactly when two or three of its
/// neighbours are alive.
pub proof fn lemma_survival(cells: Seq<Seq<bool>>, x: int, y: int)
    requires
        is_square(cells),
        in_bounds(cells.len() as int, x, y),
        cells[x][y],
    ensures
        next_world(cells)[x][y] <==> 2 <= live_neighbours(cells, x, y) <= 3,
{
}

/// A step keeps the world square and of the same size.
pub proof fn lemma_next_world_square(cells: Seq<Seq<bool>>)
    requires
        is_square(cells),
    ensures
        is_square(next_world(cells)),
        next_world(cells).len() == cells.len(),
{
}

/// A block: the four cells of the 2 by 2 square whose top left corner is
/// `(x, y)` are alive, and every other cell of the matrix is dead.
pub open spec fn is_block(cells: Seq<Seq<bool>>, x: int, y: int) -> bool {
    &&& is_square(cells)
    &&& 0 <= x && x + 1 < cells.len()
    &&& 0 <= y && y + 1 < cells.len()
    &&& forall|i: int, j: int|
        in_bounds(cells.len() as int, i, j) ==> (#[trigger] cells[i][j] <==> x <= i <= x + 1 && y
            <= j <= y + 1)
}

/// A block is a still life: one generation on the world is the same,
/// wherever the block stands and however large the world is.
pub proof fn lemma_block_is_still(cells: Seq<Seq<bool>>, x: int, y: int)
    requires
        is_block(cells, x, y),
    ensures
        next_world(cells) == cells,
{
    let next = next_world(cells);
    assert forall|i: int, j: int| in_bounds(cells.len() as int, i, j) implies next[i][j]
        == cells[i][j] by {
        assert(next[i][j] == next_cell(cells, i, j));
    }
    assert(next =~~= cells);
}

} // verus!
