use vstd::prelude::*;

use crate::cell::Cell;
use crate::maze::Maze;

verus! {

/// The traveler's facing direction.
#[derive(Clone, Copy, PartialEq, Eq, Structural, Debug)]
pub enum Direction {
    North,
    East,
    South,
    West,
}

/// The direction a right turn from `d` faces.
pub open spec fn turn_right(d: Direction) -> Direction {
    match d {
        Direction::North => Direction::East,
        Direction::East => Direction::South,
        Direction::South => Direction::West,
        Direction::West => Direction::North,
    }
}

/// The direction a left turn from `d` faces.
pub open spec fn turn_left(d: Direction) -> Direction {
    match d {
        Direction::North => Direction::West,
        Direction::West => Direction::South,
        Direction::South => Direction::East,
        Direction::East => Direction::North,
    }
}

/// The direction opposite to `d`.
pub open spec fn turn_around(d: Direction) -> Direction {
    match d {
        Direction::North => Direction::South,
        Direction::South => Direction::North,
        Direction::East => Direction::West,
        Direction::West => Direction::East,
    }
}

/// Whether a traveler standing at the in-bounds coordinate `pos` can move
/// one cell towards `d`: the wall of its cell on that side is open and the
/// destination still lies on the grid.
pub open spec fn can_move(g: Seq<Seq<Cell>>, pos: (usize, usize), d: Direction) -> bool {
    match d {
        Direction::North => !g[pos.0 as int][pos.1 as int].top_wall && pos.0 > 0,
        Direction::East => !g[pos.0 as int][pos.1 as int].right_wall && pos.1 + 1 < g[pos.0 as int].len(),
        Direction::South => !g[pos.0 as int][pos.1 as int].bottom_wall && pos.0 + 1 < g.len(),
        Direction::West => !g[pos.0 as int][pos.1 as int].left_wall && pos.1 > 0,
    }
}

/// The coordinate one cell from `pos` towards `d`.
pub open spec fn dest(pos: (usize, usize), d: Direction) -> (usize, usize) {
    match d {
        Direction::North => ((((pos.0 - 1) as usize), pos.1)),
        Direction::East => ((pos.0, ((pos.1 + 1) as usize))),
        Direction::South => ((((pos.0 + 1) as usize), pos.1)),
        Direction::West => ((pos.0, ((pos.1 - 1) as usize))),
    }
}

/// One move of the right-hand wall follower facing `d` at `pos`: try a
/// right turn first, then straight on, then a left turn, then turning
/// around, and take the first direction that is open and in bounds. In a
/// fully enclosed cell the traveler stays in place with its direction
/// unchanged.
pub open spec fn next_move(g: Seq<Seq<Cell>>, pos: (usize, usize), d: Direction) -> (
    (usize, usize),
    Direction,
) {
    if can_move(g, pos, turn_right(d)) {
        ((dest(pos, turn_right(d)), turn_right(d)))
    } else if can_move(g, pos, d) {
        ((dest(pos, d), d))
    } else if can_move(g, pos, turn_left(d)) {
        ((dest(pos, turn_left(d)), turn_left(d)))
    } else if can_move(g, pos, turn_around(d)) {
        ((dest(pos, turn_around(d)), turn_around(d)))
    } else {
        ((pos, d))
    }
}

/// The traveler's state after up to `fuel` moves of the wall follower,
/// stopping early the moment it stands on `exit`.
pub open spec fn run_steps(
    g: Seq<Seq<Cell>>,
    exit: (usize, usize),
    pos: (usize, usize),
    d: Direction,
    fuel: nat,
) -> ((usize, usize), Direction)
    decreases fuel,
{
    if pos == exit || fuel == 0 {
        ((pos, d))
    } else {
        let n = next_move(g, pos, d);
        run_steps(g, exit, n.0, n.1, (fuel - 1) as nat)
    }
}

/// The destination and new facing direction of one right-hand-rule move
/// from the maze's current cell: the first direction among right, straight,
/// left and reverse whose wall is open and whose destination is in bounds,
/// or the current state when no move is possible.
pub fn get_next_cell(maze: &Maze, current_direction: Direction) -> (r: ((usize, usize), Direction))
    requires
        maze.wf(),
    ensures
        r == next_move(maze.grid(), maze.current_cell, current_direction),
        r.0.0 < maze.height,
        r.0.1 < maze.width,
{
    let row = maze.current_cell.0;
    let column = maze.current_cell.1;
    let rows = maze.cells.len();
    let cols = if rows > 0 {
        let first_row_len = maze.cells[0].len();
        first_row_len
    } else {
        0
    };
    proof {
        assert(maze.cells@.len() == maze.grid().len());
        assert(maze.cells@[0]@ == maze.grid()[0]);
        assert(rows == maze.height);
        assert(cols == maze.width);
        assert(maze.grid()[row as int].len() == maze.width);
    }
    let c = maze.get_cell(row, column);

    match current_direction {
        Direction::North => {
            if !c.right_wall && column + 1 < cols {
                return ((row, column + 1), Direction::East);
            } else if !c.top_wall && row > 0 {
                return ((row - 1, column), Direction::North);
            } else if !c.left_wall && column > 0 {
                return ((row, column - 1), Direction::West);
            } else if !c.bottom_wall && row + 1 < rows {
                return ((row + 1, column), Direction::South);
            }
        },
        Direction::East => {
            if !c.bottom_wall && row + 1 < rows {
                return ((row + 1, column), Direction::South);
            } else if !c.right_wall && column + 1 < cols {
                return ((row, column + 1), Direction::East);
            } else if !c.top_wall && row > 0 {
                return ((row - 1, column), Direction::North);
            } else if !c.left_wall && column > 0 {
                return ((row, column - 1), Direction::West);
            }
        },
        Direction::South => {
            if !c.left_wall && column > 0 {
                return ((row, column - 1), Direction::West);
            } else if !c.bottom_wall && row + 1 < rows {
                return ((row + 1, column), Direction::South);
            } else if !c.right_wall && column + 1 < cols {
                return ((row, column + 1), Direction::East);
            } else if !c.top_wall && row > 0 {
                return ((row - 1, column), Direction::North);
            }
        },
        Direction::West => {
            if !c.top_wall && row > 0 {
                return ((row - 1, column), Direction::North);
            } else if !c.left_wall && column > 0 {
                return ((row, column - 1), Direction::West);
            } else if !c.bottom_wall && row + 1 < rows {
                return ((row + 1, column), Direction::South);
            } else if !c.right_wall && column + 1 < cols {
                return ((row, column + 1), Direction::East);
            }
        },
    }

    ((row, column), current_direction)
}

/// The right-hand wall follower: it owns the maze while solving and only
/// ever writes the traveler's position and its own facing direction, never
/// the wall topology.
#[derive(Debug)]
pub struct RightHand {
    pub maze: Maze,
    pub current_direction: Direction,
}

impl RightHand {
    /// A solver for `maze`, facing north.
    pub fn new(maze: Maze) -> (s: Self)
        ensures
            s.maze == maze,
            s.current_direction == Direction::North,
    {
        RightHand { maze, current_direction: Direction::North }
    }

    /// Advance the traveler exactly one cell by the right-hand rule. Walls,
    /// dimensions, carving path and exit are untouched.
    pub fn step(&mut self)
        requires
            old(self).maze.wf(),
        ensures
            final(self).maze.wf(),
            final(self).maze.cells == old(self).maze.cells,
            final(self).maze.width == old(self).maze.width,
            final(self).maze.height == old(self).maze.height,
            final(self).maze.path == old(self).maze.path,
            final(self).maze.exit == old(self).maze.exit,
            ((final(self).maze.current_cell, final(self).current_direction)) == next_move(
                old(self).maze.grid(),
                old(self).maze.current_cell,
                old(self).current_direction,
            ),
    {
        let (next_cell, next_direction) = get_next_cell(&self.maze, self.current_direction);
        self.maze.current_cell = next_cell;
        self.current_direction = next_direction;
    }

    /// Step repeatedly until the traveler stands on the exit, within a
    /// budget of four moves per cell of the grid; the state after the call
    /// is exactly the wall-following iteration of the starting state.
    pub fn automatic_execution(&mut self)
        requires
            old(self).maze.wf(),
        ensures
            final(self).maze.wf(),
            final(self).maze.cells == old(self).maze.cells,
            final(self).maze.width == old(self).maze.width,
            final(self).maze.height == old(self).maze.height,
            final(self).maze.path == old(self).maze.path,
            final(self).maze.exit == old(self).maze.exit,
            ((final(self).maze.current_cell, final(self).current_direction)) == run_steps(
                old(self).maze.grid(),
                old(self).maze.exit,
                old(self).maze.current_cell,
                old(self).current_direction,
                (4 * old(self).maze.width * old(self).maze.height) as nat,
            ),
    {
        let w = self.maze.width;
        let h = self.maze.height;
        proof {
            assert(w * h <= 1000000) by (nonlinear_arith)
                requires
                    w <= 1000,
                    h <= 1000,
            ;
        }
        proof {
            assert(4 * (w * h) == 4 * w * h) by (nonlinear_arith);
        }
        let mut fuel: usize = 4 * (w * h);
        let ghost g_init = self.maze.grid();
        let ghost cells0 = self.maze.cells;
        let ghost path0 = self.maze.path;
        let ghost e0 = self.maze.exit;
        let ghost pos0 = self.maze.current_cell;
        let ghost dir0 = self.current_direction;
        let ghost total = fuel as nat;

        while fuel > 0 && !(self.maze.current_cell.0 == self.maze.exit.0
            && self.maze.current_cell.1 == self.maze.exit.1)
            invariant
                self.maze.wf(),
                self.maze.cells == cells0,
                self.maze.grid() == g_init,
                self.maze.width == w,
                self.maze.height == h,
                self.maze.path == path0,
                self.maze.exit == e0,
                run_steps(g_init, e0, pos0, dir0, total) == run_steps(
                    g_init,
                    e0,
                    self.maze.current_cell,
                    self.current_direction,
                    fuel as nat,
                ),
            decreases fuel,
        {
            proof {
                let n = next_move(g_init, self.maze.current_cell, self.current_direction);
                assert(run_steps(
                    g_init,
                    e0,
                    self.maze.current_cell,
                    self.current_direction,
                    fuel as nat,
                ) == run_steps(g_init, e0, n.0, n.1, (fuel - 1) as nat));
            }
            self.step();
            fuel = fuel - 1;
        }
        proof {
            assert(run_steps(
                g_init,
                e0,
                self.maze.current_cell,
                self.current_direction,
                fuel as nat,
            ) == ((self.maze.current_cell, self.current_direction)));
        }
    }

    /// Put the traveler back at the start `(0, 0)` facing north and clear
    /// every visited flag, altering no wall flag: the maze can then be
    /// re-solved.
    pub fn reset(&mut self)
        requires
            old(self).maze.wf(),
        ensures
            final(self).maze.wf(),
            final(self).current_direction == Direction::North,
            final(self).maze.current_cell == ((0usize, 0usize)),
            final(self).maze.width == old(self).maze.width,
            final(self).maze.height == old(self).maze.height,
            final(self).maze.path == old(self).maze.path,
            final(self).maze.exit == old(self).maze.exit,
            forall|a: int, b: int|
                old(self).maze.in_bounds(a, b) ==> #[trigger] final(self).maze.cell_at(a, b) == (
                Cell {
                    visited: false,
                    top_wall: old(self).maze.cell_at(a, b).top_wall,
                    bottom_wall: old(self).maze.cell_at(a, b).bottom_wall,
                    left_wall: old(self).maze.cell_at(a, b).left_wall,
                    right_wall: old(self).maze.cell_at(a, b).right_wall,
                }),
    {
        self.maze.reset_visited_cells();
        let ghost mid = self.maze;
        self.maze.current_cell = (0, 0);
        self.current_direction = Direction::North;
        proof {
            assert(self.maze.cells == mid.cells);
            assert forall|a: int, b: int| old(self).maze.in_bounds(a, b) implies #[trigger] self
                .maze
                .cell_at(a, b) == (Cell {
                visited: false,
                top_wall: old(self).maze.cell_at(a, b).top_wall,
                bottom_wall: old(self).maze.cell_at(a, b).bottom_wall,
                left_wall: old(self).maze.cell_at(a, b).left_wall,
                right_wall: old(self).maze.cell_at(a, b).right_wall,
            }) by {
                assert(self.maze.grid() == mid.grid());
                assert(mid.cell_at(a, b) == (Cell {
                    visited: false,
                    top_wall: old(self).maze.cell_at(a, b).top_wall,
                    bottom_wall: old(self).maze.cell_at(a, b).bottom_wall,
                    left_wall: old(self).maze.cell_at(a, b).left_wall,
                    right_wall: old(self).maze.cell_at(a, b).right_wall,
                }));
            }
        }
    }
}

} // verus!
