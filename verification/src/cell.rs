use vstd::prelude::*;

verus! {

/// One square of the grid: four wall flags and a visited flag.
///
/// A wall flag set to `true` means the wall is present (closed). Walls are
/// only ever opened in matching pairs, so two adjacent cells always agree
/// about the wall that separates them.
#[derive(Clone, Copy, Debug)]
pub struct Cell {
    pub visited: bool,
    pub top_wall: bool,
    pub bottom_wall: bool,
    pub left_wall: bool,
    pub right_wall: bool,
}

impl Cell {
    /// The state every cell starts in: not yet visited, all four walls closed.
    pub open spec fn initial() -> Cell {
        Cell {
            visited: false,
            top_wall: true,
            bottom_wall: true,
            left_wall: true,
            right_wall: true,
        }
    }
}

impl Default for Cell {
    fn default() -> (c: Self)
        ensures
            c == Cell::initial(),
    {
        Cell {
            visited: false,
            top_wall: true,
            bottom_wall: true,
            left_wall: true,
            right_wall: true,
        }
    }
}

} // verus!
