//! The world: a square matrix of cells, and bounds-checked lookup.

use vstd::prelude::*;

verus! {

/// Why a request was turned down.
#[derive(Debug, Clone, Copy, PartialEq, Eq, Structural)]
pub enum WorldError {
    /// A coordinate lies outside the world.
    OutOfBounds,
    /// A pattern is empty or is not square.
    MalformedInput,
}

/// The position of a cell: `x` is the row, `y` the column.
#[derive(Debug, Clone, Copy, PartialEq, Eq, Structural)]
pub struct Coord {
    pub x: usize,
    pub y: usize,
}

/// A matrix is square when it has at least one row and every row is as long
/// as the matrix is tall.
pub open spec fn is_square(cells: Seq<Seq<bool>>) -> bool {
    &&& cells.len() >= 1
    &&& forall|r: int| 0 <= r < cells.len() ==> (#[trigger] cells[r]).len() == cells.len()
}

/// Whether `(x, y)` names a cell of an `n` by `n` world.
pub open spec fn in_bounds(n: int, x: int, y: int) -> bool {
    0 <= x < n && 0 <= y < n
}

/// One generation: a square matrix of live (`true`) and dead (`false`) cells.
#[derive(Debug, PartialEq, Eq)]
pub struct World {
    cells: Vec<Vec<bool>>,
}

impl View for World {
    type V = Seq<Seq<bool>>;

    closed spec fn view(&self) -> Seq<Seq<bool>> {
        Seq::new(self.cells@.len(), |r: int| self.cells@[r]@)
    }
}

impl World {
    /// Every world is a square with at least one cell.
    #[verifier::type_invariant]
    spec fn well_formed(&self) -> bool {
        is_square(self@)
    }

    /// Builds a world from explicit rows, provided they form a non-empty square.
    pub fn from_rows(rows: Vec<Vec<bool>>) -> (r: Result<World, WorldError>)
        ensures
            match r {
                Ok(w) => is_square(rows.deep_view()) && w@ == rows.deep_view(),
                Err(e) => e == WorldError::MalformedInput && !is_square(rows.deep_view()),
            },
    {
        let n: usize = rows.len();
        if n == 0 {
            return Err(WorldError::MalformedInput);
        }
        let mut r: usize = 0;
        while r < n
            invariant
                n == rows@.len(),
                r <= n,
                forall|k: int| 0 <= k < r ==> (#[trigger] rows@[k])@.len() == n,
            decreases n - r,
        {
            if rows[r].len() != n {
                assert(rows.deep_view()[r as int] == rows@[r as int]@);
                return Err(WorldError::MalformedInput);
            }
            r += 1;
        }
        assert forall|k: int| 0 <= k < n implies (#[trigger] rows.deep_view()[k]).len() == n by {
            assert(rows.deep_view()[k] == rows@[k]@);
        }
        Ok(World::from_square(rows))
    }

    /// Wraps rows that are already known to form a square.
    pub(crate) fn from_square(rows: Vec<Vec<bool>>) -> (w: World)
        requires
            is_square(rows.deep_view()),
        ensures
            w@ == rows.deep_view(),
    {
        proof {
            let deep = rows.deep_view();
            assert forall|r: int| 0 <= r < rows@.len() implies (#[trigger] rows@[r])@.len()
                == rows@.len() by {
                assert(deep[r].len() == deep.len());
            }
        }
        let w = World { cells: rows };
        assert(w@ =~~= rows.deep_view());
        w
    }

    /// The rows of the world, copied out.
    pub fn to_rows(&self) -> (rows: Vec<Vec<bool>>)
        ensures
            rows.deep_view() == self@,
            is_square(self@),
    {
        proof {
            use_type_invariant(self);
        }
        let n: usize = self.cells.len();
        let mut rows: Vec<Vec<bool>> = Vec::new();
        let mut x: usize = 0;
        while x < n
            invariant
                x <= n,
                n == self.cells@.len(),
                is_square(self@),
                rows@.len() == x,
                forall|i: int| 0 <= i < x ==> (#[trigger] rows@[i])@ == self.cells@[i]@,
            decreases n - x,
        {
            let mut row: Vec<bool> = Vec::new();
            let mut y: usize = 0;
            assert(self@[x as int] == self.cells@[x as int]@);
            while y < n
                invariant
                    x < n,
                    y <= n,
                    n == self.cells@.len(),
                    self.cells@[x as int]@.len() == n,
                    row@.len() == y,
                    forall|j: int| 0 <= j < y ==> row@[j] == self.cells@[x as int]@[j],
                decreases n - y,
            {
                row.push(self.cells[x][y]);
                y += 1;
            }
            rows.push(row);
            x += 1;
        }
        assert(rows.deep_view() =~~= self@);
        rows
    }

    /// The side length of the world.
    pub fn size(&self) -> (n: usize)
        ensures
            n == self@.len(),
            is_square(self@),
    {
        proof {
            use_type_invariant(self);
        }
        self.cells.len()
    }
}

impl Clone for World {
    /// A copy with the same cells.
    fn clone(&self) -> (copy: Self)
        ensures
            copy@ == self@,
    {
        proof {
            use_type_invariant(self);
        }
        World::from_square(self.to_rows())
    }
}

/// Looks up the cell at `c`, or reports that `c` lies outside the world.
pub fn get_cell(c: &Coord, w: &World) -> (r: Result<bool, WorldError>)
    ensures
        r == (if in_bounds(w@.len() as int, c.x as int, c.y as int) {
            Ok::<bool, WorldError>(w@[c.x as int][c.y as int])
        } else {
            Err::<bool, WorldError>(WorldError::OutOfBounds)
        }),
{
    proof {
        use_type_invariant(w);
    }
    let s: usize = w.cells.len();
    if c.x >= s || c.y >= s {
        return Err(WorldError::OutOfBounds);
    }
    assert(w@[c.x as int] == w.cells@[c.x as int]@);
    Ok(w.cells[c.x][c.y])
}

} // verus!
