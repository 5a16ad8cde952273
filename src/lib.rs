//! Perfect-maze generation over an arbitrary region of the integer lattice.
//!
//! A maze is grown from a start coordinate by a randomized growing-tree
//! construction; the region is given by a predicate that tells which
//! coordinates lie outside it. The generator's contract states that the
//! result covers exactly the part of the region reachable from the start and
//! that its open passages form a spanning tree; `laws` derives wall symmetry,
//! closed boundary walls, connectivity and the passage count from it.
pub mod cell;
pub mod laws;
pub mod maze;
pub mod random;

pub use cell::{Cell, Coord};
pub use maze::Maze;
