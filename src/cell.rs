//! Lattice coordinates, the four directions, and walled cells.
use vstd::prelude::*;

verus! {

/// A lattice position as `(row, col)`.
pub type Coord = (isize, isize);

/// Direction indices: north, east, south, west. The opposite of `d` is `(d + 2) % 4`.
pub const NORTH: usize = 0;
pub const EAST: usize = 1;
pub const SOUTH: usize = 2;
pub const WEST: usize = 3;

/// Row change of a step in direction `d`.
pub open spec fn row_delta(d: int) -> int {
    if d == 0 {
        -1
    } else if d == 2 {
        1
    } else {
        0
    }
}

/// Column change of a step in direction `d`.
pub open spec fn col_delta(d: int) -> int {
    if d == 1 {
        1
    } else if d == 3 {
        -1
    } else {
        0
    }
}

/// The direction facing back along `d`.
pub open spec fn opposite(d: int) -> int {
    (d + 2) % 4
}

/// A coordinate whose four neighbors are all representable.
pub open spec fn interior(c: Coord) -> bool {
    &&& isize::MIN < c.0 < isize::MAX
    &&& isize::MIN < c.1 < isize::MAX
}

/// The coordinate one step from `c` in direction `d`.
pub open spec fn neighbor(c: Coord, d: int) -> Coord {
    ((c.0 + row_delta(d)) as isize, (c.1 + col_delta(d)) as isize)
}

/// Stepping there and back returns to the same coordinate.
pub proof fn lemma_neighbor_back(c: Coord, d: int)
    requires
        interior(c),
        0 <= d < 4,
    ensures
        neighbor(neighbor(c, d), opposite(d)) == c,
        neighbor(c, d) != c,
        0 <= opposite(d) < 4,
        opposite(opposite(d)) == d,
{
}

/// The coordinate one step from `c` in direction `d`.
pub fn step(c: Coord, d: usize) -> (r: Coord)
    requires
        interior(c),
        d < 4,
    ensures
        r == neighbor(c, d as int),
{
    if d == NORTH {
        (c.0 - 1, c.1)
    } else if d == EAST {
        (c.0, c.1 + 1)
    } else if d == SOUTH {
        (c.0 + 1, c.1)
    } else {
        (c.0, c.1 - 1)
    }
}

/// One lattice position of a maze with its four wall flags, indexed by
/// direction; `true` means the passage that way is closed.
#[derive(Debug, Clone, Copy, PartialEq, Eq)]
pub struct Cell {
    pub coord: Coord,
    pub walls: [bool; 4],
}

impl Cell {
    /// A cell at `coord` with every wall closed.
    pub fn new(coord: Coord) -> (r: Cell)
        ensures
            r.coord == coord,
            forall|d: int| 0 <= d < 4 ==> #[trigger] r.walls@[d],
    {
        Cell { coord, walls: [true, true, true, true] }
    }
}

} // verus!
