use vstd::prelude::*;

use crate::cell::Cell;
use crate::counting::{
    grid_pairs, grid_visited, lemma_grid_pairs_update, lemma_grid_pairs_zero,
    lemma_grid_visited_congruence, lemma_grid_visited_full, lemma_grid_visited_le,
    lemma_grid_visited_update, lemma_grid_visited_zero, pair_weight,
};
use crate::paths::{
    connected, lemma_connected_mono, lemma_connected_refl, lemma_connected_step,
    lemma_visited_spreads, step_open, walls_superset_open,
};

verus! {

/// A rectangular grid of cells addressed by `(row, column)`, together with
/// the artifacts of generation: the carving path, the traveler's current
/// position and the exit coordinate `(height - 1, width - 1)`.
#[derive(Debug)]
pub struct Maze {
    pub width: usize,
    pub height: usize,
    pub cells: Vec<Vec<Cell>>,
    pub path: Vec<(usize, usize)>,
    pub current_cell: (usize, usize),
    pub exit: (usize, usize),
}

/// Largest accepted value for each grid dimension; larger requests are
/// rejected by the caller-facing validation before any generation work.
pub const MAX_DIM: usize = 1000;

/// The mathematical model of the grid: a sequence of rows of cells.
impl Maze {
    pub open spec fn grid(self) -> Seq<Seq<Cell>> {
        self.cells@.map_values(|row: Vec<Cell>| row@)
    }

    pub open spec fn cell_at(self, i: int, j: int) -> Cell {
        self.grid()[i][j]
    }

    /// The cell array has exactly `height` rows of exactly `width` cells.
    pub open spec fn rect(self) -> bool {
        &&& self.grid().len() == self.height
        &&& forall|i: int| 0 <= i < self.height ==> (#[trigger] self.grid()[i]).len() == self.width
    }

    pub open spec fn in_bounds(self, i: int, j: int) -> bool {
        0 <= i < self.height && 0 <= j < self.width
    }

    /// Structural well-formedness: a rectangular grid of accepted dimensions
    /// with the traveler on a valid coordinate.
    pub open spec fn wf(self) -> bool {
        &&& self.rect()
        &&& 1 <= self.width <= MAX_DIM
        &&& 1 <= self.height <= MAX_DIM
        &&& self.in_bounds(self.current_cell.0 as int, self.current_cell.1 as int)
    }
}

/// A `height`-by-`width` rectangle of cells.
pub open spec fn grid_rect(g: Seq<Seq<Cell>>, width: int, height: int) -> bool {
    &&& g.len() == height
    &&& forall|i: int| 0 <= i < height ==> (#[trigger] g[i]).len() == width
}

/// Facing walls agree: the wall between two adjacent cells is either open
/// on both sides or present on both sides.
pub open spec fn grid_consistent(g: Seq<Seq<Cell>>, width: int, height: int) -> bool {
    &&& forall|i: int, j: int|
        0 <= i < height && 0 <= j && j + 1 < width ==> ((#[trigger] g[i][j]).right_wall == g[i][j
            + 1].left_wall)
    &&& forall|i: int, j: int|
        0 <= i && i + 1 < height && 0 <= j < width ==> ((#[trigger] g[i][j]).bottom_wall == g[i
            + 1][j].top_wall)
}

/// The outer boundary of the grid is fully walled.
pub open spec fn grid_border_closed(g: Seq<Seq<Cell>>, width: int, height: int) -> bool {
    &&& forall|i: int|
        0 <= i < height ==> (#[trigger] g[i][0]).left_wall && g[i][width - 1].right_wall
    &&& forall|j: int|
        0 <= j < width ==> (#[trigger] g[0][j]).top_wall && g[height - 1][j].bottom_wall
}

/// During carving, a cell that has not been visited yet is still exactly as
/// it was created: fully walled.
pub open spec fn grid_unvisited_closed(g: Seq<Seq<Cell>>, width: int, height: int) -> bool {
    forall|i: int, j: int|
        0 <= i < height && 0 <= j < width && !(#[trigger] g[i][j]).visited ==> g[i][j]
            == Cell::initial()
}

/// The four grid neighbours of `p` that exist are all visited.
pub open spec fn neighbours_visited(
    g: Seq<Seq<Cell>>,
    width: int,
    height: int,
    p: (usize, usize),
) -> bool {
    &&& (p.0 + 1 < height ==> g[p.0 + 1][p.1 as int].visited)
    &&& (p.1 + 1 < width ==> g[p.0 as int][p.1 + 1].visited)
    &&& (p.0 > 0 ==> g[p.0 - 1][p.1 as int].visited)
    &&& (p.1 > 0 ==> g[p.0 as int][p.1 - 1].visited)
}

/// Every stack entry is an in-bounds, visited coordinate.
pub open spec fn stack_ok(g: Seq<Seq<Cell>>, width: int, height: int, s: Seq<(usize, usize)>) -> bool {
    forall|k: int|
        0 <= k < s.len() ==> (#[trigger] s[k]).0 < height && s[k].1 < width && g[s[k].0 as int][s[k].1 as int].visited
}

/// Every visited cell that is no longer on the carving stack is finished:
/// all its grid neighbours are visited too.
pub open spec fn frontier_ok(
    g: Seq<Seq<Cell>>,
    width: int,
    height: int,
    s: Seq<(usize, usize)>,
) -> bool {
    forall|p: (usize, usize)|
        p.0 < height && p.1 < width && (#[trigger] g[p.0 as int][p.1 as int]).visited
            && !s.contains(p) ==> neighbours_visited(g, width, height, p)
}

/// Every visited cell is joined to the start corner through open walls.
pub open spec fn visited_connected(g: Seq<Seq<Cell>>, width: int, height: int) -> bool {
    forall|p: (usize, usize)|
        p.0 < height && p.1 < width && (#[trigger] g[p.0 as int][p.1 as int]).visited
            ==> connected(g, (0usize, 0usize), p)
}

/// Two coordinates that differ by exactly one unit along exactly one axis.
pub open spec fn is_adjacent(a: (usize, usize), b: (usize, usize)) -> bool {
    ||| (a.0 == b.0 && (a.1 == b.1 + 1 || a.1 + 1 == b.1))
    ||| (a.1 == b.1 && (a.0 == b.0 + 1 || a.0 + 1 == b.0))
}

/// The grid with the cell at `(i, j)` replaced by `c`.
pub open spec fn grid_upd(g: Seq<Seq<Cell>>, i: int, j: int, c: Cell) -> Seq<Seq<Cell>> {
    g.update(i, g[i].update(j, c))
}

/// `c` with its right wall opened and everything else as it was.
pub open spec fn open_right(c: Cell) -> Cell {
    Cell {
        visited: c.visited,
        top_wall: c.top_wall,
        bottom_wall: c.bottom_wall,
        left_wall: c.left_wall,
        right_wall: false,
    }
}

/// `c` with its left wall opened and everything else as it was.
pub open spec fn open_left(c: Cell) -> Cell {
    Cell {
        visited: c.visited,
        top_wall: c.top_wall,
        bottom_wall: c.bottom_wall,
        left_wall: false,
        right_wall: c.right_wall,
    }
}

/// `c` with its bottom wall opened and everything else as it was.
pub open spec fn open_bottom(c: Cell) -> Cell {
    Cell {
        visited: c.visited,
        top_wall: c.top_wall,
        bottom_wall: false,
        left_wall: c.left_wall,
        right_wall: c.right_wall,
    }
}

/// `c` with its top wall opened and everything else as it was.
pub open spec fn open_top(c: Cell) -> Cell {
    Cell {
        visited: c.visited,
        top_wall: false,
        bottom_wall: c.bottom_wall,
        left_wall: c.left_wall,
        right_wall: c.right_wall,
    }
}

/// The grid after opening the wall pair between horizontally adjacent `l`
/// and `r` (with `l` the left cell): exactly the right wall of `l` and the
/// left wall of `r` are cleared; every other flag of every cell is kept.
pub open spec fn open_horizontal(
    g: Seq<Seq<Cell>>,
    l: (usize, usize),
    r: (usize, usize),
) -> Seq<Seq<Cell>> {
    let g1 = grid_upd(g, l.0 as int, l.1 as int, open_right(g[l.0 as int][l.1 as int]));
    grid_upd(g1, r.0 as int, r.1 as int, open_left(g1[r.0 as int][r.1 as int]))
}

/// The grid after opening the wall pair between vertically adjacent `t`
/// and `b` (with `t` the upper cell): exactly the bottom wall of `t` and
/// the top wall of `b` are cleared; every other flag of every cell is kept.
pub open spec fn open_vertical(
    g: Seq<Seq<Cell>>,
    t: (usize, usize),
    b: (usize, usize),
) -> Seq<Seq<Cell>> {
    let g1 = grid_upd(g, t.0 as int, t.1 as int, open_bottom(g[t.0 as int][t.1 as int]));
    grid_upd(g1, b.0 as int, b.1 as int, open_top(g1[b.0 as int][b.1 as int]))
}

/// The grid after opening the wall pair between the adjacent cells `a` and
/// `b`, whichever order they are given in.
pub open spec fn with_open_wall(
    g: Seq<Seq<Cell>>,
    a: (usize, usize),
    b: (usize, usize),
) -> Seq<Seq<Cell>> {
    if a.0 == b.0 {
        if a.1 < b.1 {
            open_horizontal(g, a, b)
        } else {
            open_horizontal(g, b, a)
        }
    } else {
        if a.0 < b.0 {
            open_vertical(g, a, b)
        } else {
            open_vertical(g, b, a)
        }
    }
}

/// The state of a cell the moment it is carved into: visited, with its
/// walls still all closed.
pub open spec fn visited_initial() -> Cell {
    Cell {
        visited: true,
        top_wall: true,
        bottom_wall: true,
        left_wall: true,
        right_wall: true,
    }
}

/// Marking the fully walled cell `sel` visited adds one to the visited
/// count and disturbs nothing else the carving invariants watch: no wall
/// changes, so consistency, the closed border, the closed unvisited cells
/// and the open-pair count all carry over.
#[verifier::rlimit(60)]
pub proof fn lemma_mark_step(g: Seq<Seq<Cell>>, width: int, height: int, sel: (usize, usize))
    requires
        grid_rect(g, width, height),
        (sel.0 as int) < height,
        (sel.1 as int) < width,
        g[sel.0 as int][sel.1 as int] == Cell::initial(),
        grid_consistent(g, width, height),
        grid_border_closed(g, width, height),
        grid_unvisited_closed(g, width, height),
    ensures
        grid_rect(grid_upd(g, sel.0 as int, sel.1 as int, visited_initial()), width, height),
        grid_consistent(grid_upd(g, sel.0 as int, sel.1 as int, visited_initial()), width, height),
        grid_border_closed(
            grid_upd(g, sel.0 as int, sel.1 as int, visited_initial()),
            width,
            height,
        ),
        grid_unvisited_closed(
            grid_upd(g, sel.0 as int, sel.1 as int, visited_initial()),
            width,
            height,
        ),
        grid_visited(grid_upd(g, sel.0 as int, sel.1 as int, visited_initial())) == grid_visited(g)
            + 1,
        grid_pairs(grid_upd(g, sel.0 as int, sel.1 as int, visited_initial()), width, height)
            == grid_pairs(g, width, height),
        walls_superset_open(g, grid_upd(g, sel.0 as int, sel.1 as int, visited_initial())),
        forall|i: int, j: int|
            0 <= i < height && 0 <= j < width && !(i == sel.0 && j == sel.1) ==> (
            #[trigger] grid_upd(g, sel.0 as int, sel.1 as int, visited_initial())[i][j]) == g[i][j],
{
    let g1 = grid_upd(g, sel.0 as int, sel.1 as int, visited_initial());
    assert forall|i: int, j: int| 0 <= i < height && 0 <= j < width implies #[trigger] g1[i][j] == (
    if i == sel.0 && j == sel.1 {
        visited_initial()
    } else {
        g[i][j]
    }) by {}
    lemma_grid_visited_update(g, sel.0 as int, sel.1 as int, visited_initial());
    lemma_grid_pairs_update(g, width, height, sel.0 as int, sel.1 as int, visited_initial());
    assert forall|i: int| 0 <= i < height implies (#[trigger] g1[i][0]).left_wall && g1[i][width
        - 1].right_wall by {
        lemma_border_cell(g, width, height, i, 0);
    }
    assert forall|j: int| 0 <= j < width implies (#[trigger] g1[0][j]).top_wall && g1[height
        - 1][j].bottom_wall by {
        lemma_border_cell(g, width, height, 0, j);
    }
    assert(grid_border_closed(g1, width, height));
}

impl Maze {
    /// Facing walls of this maze's grid agree on both sides.
    pub open spec fn walls_consistent(self) -> bool {
        grid_consistent(self.grid(), self.width as int, self.height as int)
    }

    /// The outer boundary of this maze's grid is fully walled.
    pub open spec fn border_closed(self) -> bool {
        grid_border_closed(self.grid(), self.width as int, self.height as int)
    }

    /// A perfect maze, in the standard characterization of a spanning tree:
    /// the open-wall graph on the grid's cells is connected and has exactly
    /// one edge fewer than it has nodes, so it holds no cycle and joins any
    /// two cells by exactly one path.
    pub open spec fn is_perfect_maze(self) -> bool {
        &&& self.wf()
        &&& self.walls_consistent()
        &&& grid_pairs(self.grid(), self.width as int, self.height as int) + 1 == self.width
            * self.height
        &&& forall|p: (usize, usize)|
            p.0 < self.height && p.1 < self.width ==> #[trigger] connected(
                self.grid(),
                (0usize, 0usize),
                p,
            )
    }
}

/// Relies on rand::rng and rand::RngExt::random_range over `0..n`: a
/// uniformly random index below `n`. The range is non-empty, so the call
/// cannot panic, and nothing beyond the bound holds of its outcome.
#[verifier::external_body]
fn random_below(n: usize) -> (r: usize)
    requires
        n > 0,
    ensures
        r < n,
{
    let mut rng = rand::rng();
    rand::RngExt::random_range(&mut rng, 0..n)
}

/// Opening the wall pair between horizontally adjacent cells `l` and `r`
/// (`l` on the left, both facing walls still closed) keeps the grid
/// rectangular, consistent and closed at the border, opens exactly one more
/// wall pair, touches no visited flag, and touches no other cell.
#[verifier::spinoff_prover]
#[verifier::rlimit(60)]
proof fn lemma_carve_horizontal(
    g: Seq<Seq<Cell>>,
    width: int,
    height: int,
    l: (usize, usize),
    r: (usize, usize),
)
    requires
        grid_rect(g, width, height),
        (l.0 as int) < height,
        r.0 == l.0,
        r.1 == l.1 + 1,
        (r.1 as int) < width,
        grid_consistent(g, width, height),
        grid_border_closed(g, width, height),
        g[l.0 as int][l.1 as int].right_wall,
        g[r.0 as int][r.1 as int].left_wall,
    ensures
        grid_rect(open_horizontal(g, l, r), width, height),
        grid_consistent(open_horizontal(g, l, r), width, height),
        grid_border_closed(open_horizontal(g, l, r), width, height),
        grid_pairs(open_horizontal(g, l, r), width, height) == grid_pairs(g, width, height) + 1,
        forall|i: int, j: int|
            0 <= i < height && 0 <= j < width ==> (#[trigger] open_horizontal(
                g,
                l,
                r,
            )[i][j]).visited == g[i][j].visited,
        forall|i: int, j: int|
            0 <= i < height && 0 <= j < width && !(i == l.0 && j == l.1) && !(i == r.0 && j == r.1)
                ==> (#[trigger] open_horizontal(g, l, r)[i][j]) == g[i][j],
        walls_superset_open(g, open_horizontal(g, l, r)),
        open_horizontal(g, l, r)[l.0 as int][l.1 as int] == open_right(g[l.0 as int][l.1 as int]),
        open_horizontal(g, l, r)[r.0 as int][r.1 as int] == open_left(g[r.0 as int][r.1 as int]),
{
    let g2 = open_horizontal(g, l, r);
    let lc = g[l.0 as int][l.1 as int];
    let rc = g[r.0 as int][r.1 as int];
    let g1 = grid_upd(g, l.0 as int, l.1 as int, open_right(lc));
    assert(g1[r.0 as int][r.1 as int] == rc);
    assert(g2 == grid_upd(g1, r.0 as int, r.1 as int, open_left(rc)));
    assert forall|i: int, j: int| 0 <= i < height && 0 <= j < width implies #[trigger] g2[i][j] == (
    if i == l.0 && j == l.1 {
        open_right(lc)
    } else if i == r.0 && j == r.1 {
        open_left(rc)
    } else {
        g[i][j]
    }) by {}
    assert forall|i: int| 0 <= i < height implies (#[trigger] g2[i][0]).left_wall && g2[i][width
        - 1].right_wall by {
        lemma_border_cell(g, width, height, i, 0);
        assert(r.1 < width);
    }
    assert forall|j: int| 0 <= j < width implies (#[trigger] g2[0][j]).top_wall && g2[height
        - 1][j].bottom_wall by {
        lemma_border_cell(g, width, height, 0, j);
    }
    lemma_grid_pairs_update(g, width, height, l.0 as int, l.1 as int, open_right(lc));
    lemma_grid_pairs_update(g1, width, height, r.0 as int, r.1 as int, open_left(rc));
    assert(pair_weight(width, height, l.0 as int, l.1 as int, open_right(lc)) == pair_weight(
        width,
        height,
        l.0 as int,
        l.1 as int,
        lc,
    ) + 1);
    assert(pair_weight(width, height, r.0 as int, r.1 as int, open_left(rc)) == pair_weight(
        width,
        height,
        r.0 as int,
        r.1 as int,
        rc,
    ));
}

/// The vertical counterpart of `lemma_carve_horizontal`: `t` above `b`.
#[verifier::spinoff_prover]
#[verifier::rlimit(60)]
proof fn lemma_carve_vertical(
    g: Seq<Seq<Cell>>,
    width: int,
    height: int,
    t: (usize, usize),
    b: (usize, usize),
)
    requires
        grid_rect(g, width, height),
        (t.1 as int) < width,
        b.1 == t.1,
        b.0 == t.0 + 1,
        (b.0 as int) < height,
        grid_consistent(g, width, height),
        grid_border_closed(g, width, height),
        g[t.0 as int][t.1 as int].bottom_wall,
        g[b.0 as int][b.1 as int].top_wall,
    ensures
        grid_rect(open_vertical(g, t, b), width, height),
        grid_consistent(open_vertical(g, t, b), width, height),
        grid_border_closed(open_vertical(g, t, b), width, height),
        grid_pairs(open_vertical(g, t, b), width, height) == grid_pairs(g, width, height) + 1,
        forall|i: int, j: int|
            0 <= i < height && 0 <= j < width ==> (#[trigger] open_vertical(
                g,
                t,
                b,
            )[i][j]).visited == g[i][j].visited,
        forall|i: int, j: int|
            0 <= i < height && 0 <= j < width && !(i == t.0 && j == t.1) && !(i == b.0 && j == b.1)
                ==> (#[trigger] open_vertical(g, t, b)[i][j]) == g[i][j],
        walls_superset_open(g, open_vertical(g, t, b)),
        open_vertical(g, t, b)[t.0 as int][t.1 as int] == open_bottom(g[t.0 as int][t.1 as int]),
        open_vertical(g, t, b)[b.0 as int][b.1 as int] == open_top(g[b.0 as int][b.1 as int]),
{
    let g2 = open_vertical(g, t, b);
    let tc = g[t.0 as int][t.1 as int];
    let bc = g[b.0 as int][b.1 as int];
    let g1 = grid_upd(g, t.0 as int, t.1 as int, open_bottom(tc));
    assert(g1[b.0 as int][b.1 as int] == bc);
    assert(g2 == grid_upd(g1, b.0 as int, b.1 as int, open_top(bc)));
    assert forall|i: int, j: int| 0 <= i < height && 0 <= j < width implies #[trigger] g2[i][j] == (
    if i == t.0 && j == t.1 {
        open_bottom(tc)
    } else if i == b.0 && j == b.1 {
        open_top(bc)
    } else {
        g[i][j]
    }) by {}
    assert forall|i: int| 0 <= i < height implies (#[trigger] g2[i][0]).left_wall && g2[i][width
        - 1].right_wall by {
        lemma_border_cell(g, width, height, i, 0);
    }
    assert forall|j: int| 0 <= j < width implies (#[trigger] g2[0][j]).top_wall && g2[height
        - 1][j].bottom_wall by {
        lemma_border_cell(g, width, height, 0, j);
        assert(b.0 < height);
    }
    lemma_grid_pairs_update(g, width, height, t.0 as int, t.1 as int, open_bottom(tc));
    lemma_grid_pairs_update(g1, width, height, b.0 as int, b.1 as int, open_top(bc));
    assert(pair_weight(width, height, t.0 as int, t.1 as int, open_bottom(tc)) == pair_weight(
        width,
        height,
        t.0 as int,
        t.1 as int,
        tc,
    ) + 1);
    assert(pair_weight(width, height, b.0 as int, b.1 as int, open_top(bc)) == pair_weight(
        width,
        height,
        b.0 as int,
        b.1 as int,
        bc,
    ));
}

/// Opening the wall pair between `cur` and its adjacent, still fully walled
/// neighbour `sel` keeps the grid rectangular, consistent and closed at the
/// border, opens exactly one more wall pair, touches no visited flag and no
/// other cell, and leaves an open passage from `cur` to `sel`.
#[verifier::spinoff_prover]
#[verifier::rlimit(60)]
pub proof fn lemma_carve_step(
    g: Seq<Seq<Cell>>,
    width: int,
    height: int,
    cur: (usize, usize),
    sel: (usize, usize),
)
    requires
        grid_rect(g, width, height),
        (cur.0 as int) < height,
        (cur.1 as int) < width,
        (sel.0 as int) < height,
        (sel.1 as int) < width,
        is_adjacent(cur, sel),
        grid_consistent(g, width, height),
        grid_border_closed(g, width, height),
        g[sel.0 as int][sel.1 as int].top_wall,
        g[sel.0 as int][sel.1 as int].bottom_wall,
        g[sel.0 as int][sel.1 as int].left_wall,
        g[sel.0 as int][sel.1 as int].right_wall,
    ensures
        grid_rect(with_open_wall(g, cur, sel), width, height),
        grid_consistent(with_open_wall(g, cur, sel), width, height),
        grid_border_closed(with_open_wall(g, cur, sel), width, height),
        grid_pairs(with_open_wall(g, cur, sel), width, height) == grid_pairs(g, width, height) + 1,
        forall|i: int, j: int|
            0 <= i < height && 0 <= j < width ==> (#[trigger] with_open_wall(
                g,
                cur,
                sel,
            )[i][j]).visited == g[i][j].visited,
        forall|i: int, j: int|
            0 <= i < height && 0 <= j < width && !(i == cur.0 && j == cur.1) && !(i == sel.0 && j
                == sel.1) ==> (#[trigger] with_open_wall(g, cur, sel)[i][j]) == g[i][j],
        walls_superset_open(g, with_open_wall(g, cur, sel)),
        step_open(with_open_wall(g, cur, sel), cur, sel),
{
    let g2 = with_open_wall(g, cur, sel);
    if cur.0 == sel.0 {
        if cur.1 < sel.1 {
            assert(g[cur.0 as int][cur.1 as int].right_wall);
            lemma_carve_horizontal(g, width, height, cur, sel);
            assert(!g2[cur.0 as int][cur.1 as int].right_wall);
        } else {
            assert(g[cur.0 as int][cur.1 as int].left_wall);
            lemma_carve_horizontal(g, width, height, sel, cur);
            assert(!g2[cur.0 as int][cur.1 as int].left_wall);
        }
    } else {
        if cur.0 < sel.0 {
            assert(g[cur.0 as int][cur.1 as int].bottom_wall);
            lemma_carve_vertical(g, width, height, cur, sel);
            assert(!g2[cur.0 as int][cur.1 as int].bottom_wall);
        } else {
            assert(g[cur.0 as int][cur.1 as int].top_wall);
            lemma_carve_vertical(g, width, height, sel, cur);
            assert(!g2[cur.0 as int][cur.1 as int].top_wall);
        }
    }
    assert(step_open(g2, cur, sel));
}

/// The border walls at row `i` and column `j` of a border-closed grid.
proof fn lemma_border_cell(g: Seq<Seq<Cell>>, width: int, height: int, i: int, j: int)
    requires
        grid_border_closed(g, width, height),
        0 <= i < height,
        0 <= j < width,
    ensures
        g[i][0].left_wall,
        g[i][width - 1].right_wall,
        g[0][j].top_wall,
        g[height - 1][j].bottom_wall,
{
}

/// Popping the finished cell on top of the stack keeps the frontier sound:
/// anything off the new stack is either off the old one or is that cell,
/// whose neighbours are all visited.
proof fn lemma_backtrack(g: Seq<Seq<Cell>>, width: int, height: int, s: Seq<(usize, usize)>)
    requires
        s.len() >= 1,
        frontier_ok(g, width, height, s),
        neighbours_visited(g, width, height, s.last()),
    ensures
        frontier_ok(g, width, height, s.drop_last()),
{
    let s2 = s.drop_last();
    assert forall|p: (usize, usize)|
        p.0 < height && p.1 < width && (#[trigger] g[p.0 as int][p.1 as int]).visited
            && !s2.contains(p) implies neighbours_visited(g, width, height, p) by {
        if s.contains(p) {
            let idx = choose|idx: int| 0 <= idx < s.len() && s[idx] == p;
            if idx < s.len() - 1 {
                assert(s2[idx] == p);
                assert(s2.contains(p));
            } else {
                assert(p == s.last());
            }
        }
    }
}

/// One full carving step from the cell on top of the stack into a chosen
/// unvisited neighbour: mark it visited, open the wall pair between the
/// two, and push it. Every invariant of the carving loop survives, and the
/// visited count grows by exactly one.
#[verifier::spinoff_prover]
#[verifier::rlimit(100)]
proof fn lemma_extend(
    g0: Seq<Seq<Cell>>,
    width: int,
    height: int,
    s: Seq<(usize, usize)>,
    current: (usize, usize),
    selected: (usize, usize),
)
    requires
        1 <= width,
        1 <= height,
        grid_rect(g0, width, height),
        grid_consistent(g0, width, height),
        grid_border_closed(g0, width, height),
        grid_unvisited_closed(g0, width, height),
        grid_pairs(g0, width, height) + 1 == grid_visited(g0),
        grid_visited(g0) <= width * height,
        g0[0][0].visited,
        stack_ok(g0, width, height, s),
        frontier_ok(g0, width, height, s),
        visited_connected(g0, width, height),
        s.len() >= 1,
        current == s.last(),
        (selected.0 as int) < height,
        (selected.1 as int) < width,
        is_adjacent(current, selected),
        !g0[selected.0 as int][selected.1 as int].visited,
    ensures
        ({
            let g2 = with_open_wall(
                grid_upd(g0, selected.0 as int, selected.1 as int, visited_initial()),
                current,
                selected,
            );
            &&& grid_rect(g2, width, height)
            &&& grid_consistent(g2, width, height)
            &&& grid_border_closed(g2, width, height)
            &&& grid_unvisited_closed(g2, width, height)
            &&& grid_visited(g2) == grid_visited(g0) + 1
            &&& grid_pairs(g2, width, height) + 1 == grid_visited(g2)
            &&& grid_visited(g2) <= width * height
            &&& g2[0][0].visited
            &&& stack_ok(g2, width, height, s.push(selected))
            &&& frontier_ok(g2, width, height, s.push(selected))
            &&& visited_connected(g2, width, height)
        }),
{
    let g1 = grid_upd(g0, selected.0 as int, selected.1 as int, visited_initial());
    let g2 = with_open_wall(g1, current, selected);
    let s2 = s.push(selected);
    assert(s[s.len() - 1] == current);
    assert(g0[current.0 as int][current.1 as int].visited);
    assert(g0[selected.0 as int][selected.1 as int] == Cell::initial());
    lemma_mark_step(g0, width, height, selected);
    lemma_carve_step(g1, width, height, current, selected);
    // counts
    assert forall|i: int, j: int| 0 <= i < g1.len() && 0 <= j < g1[i].len() implies (
    #[trigger] g1[i][j]).visited == g2[i][j].visited by {}
    lemma_grid_visited_congruence(g1, g2);
    lemma_grid_visited_le(g2, width);
    assert(height * width == width * height) by (nonlinear_arith);
    // visitedness only grows from g0 to g2
    assert forall|i: int, j: int|
        0 <= i < height && 0 <= j < width && g0[i][j].visited implies (
    #[trigger] g2[i][j]).visited by {
        assert(g1[i][j].visited);
    }
    // no cell but `selected` becomes visited
    assert forall|i: int, j: int|
        0 <= i < height && 0 <= j < width && !(i == selected.0 && j == selected.1) && (
    #[trigger] g2[i][j]).visited implies g0[i][j].visited by {
        assert(g1[i][j].visited);
    }
    // unvisited cells are untouched, hence still fully walled
    assert forall|i: int, j: int|
        0 <= i < height && 0 <= j < width && !(#[trigger] g2[i][j]).visited implies g2[i][j]
        == Cell::initial() by {
        assert(!g1[i][j].visited);
        assert(!(i == selected.0 && j == selected.1));
        assert(!(i == current.0 && j == current.1));
        assert(g2[i][j] == g1[i][j]);
        assert(g1[i][j] == g0[i][j]);
    }
    // the stack still holds visited in-bounds cells
    assert forall|k: int| 0 <= k < s2.len() implies (#[trigger] s2[k]).0 < height && s2[k].1 < width
        && g2[s2[k].0 as int][s2[k].1 as int].visited by {
        if k < s.len() {
            assert(s[k] == s2[k]);
            assert(g0[s2[k].0 as int][s2[k].1 as int].visited);
        } else {
            assert(s2[k] == selected);
        }
    }
    // connectivity: old visited cells stay connected, and the fresh cell is
    // connected through `current` and the newly opened wall
    assert(connected(g2, (0usize, 0usize), current)) by {
        lemma_connected_mono(g0, g1, (0usize, 0usize), current);
        lemma_connected_mono(g1, g2, (0usize, 0usize), current);
    }
    lemma_connected_step(g2, (0usize, 0usize), current, selected);
    assert forall|p: (usize, usize)|
        p.0 < height && p.1 < width && (#[trigger] g2[p.0 as int][p.1 as int]).visited implies connected(
        g2,
        (0usize, 0usize),
        p,
    ) by {
        if p != selected {
            assert(g0[p.0 as int][p.1 as int].visited);
            assert(connected(g0, (0usize, 0usize), p));
            lemma_connected_mono(g0, g1, (0usize, 0usize), p);
            lemma_connected_mono(g1, g2, (0usize, 0usize), p);
        }
    }
    // the frontier is untouched: nothing left the stack, and visitedness
    // only grew
    assert forall|p: (usize, usize)|
        p.0 < height && p.1 < width && (#[trigger] g2[p.0 as int][p.1 as int]).visited
            && !s2.contains(p) implies neighbours_visited(g2, width, height, p) by {
        if s.contains(p) {
            let idx = choose|idx: int| 0 <= idx < s.len() && s[idx] == p;
            assert(s2[idx] == p);
            assert(s2.contains(p));
        }
        assert(s2[s2.len() - 1] == selected);
        assert(s2.contains(selected));
        assert(p != selected);
        assert(g0[p.0 as int][p.1 as int].visited);
        assert(neighbours_visited(g0, width, height, p));
        assert(g2[p.0 as int][p.1 as int].visited);
    }
}

impl Maze {
    /// A cell all of whose in-bounds adjacent coordinates are visited
    /// satisfies `neighbours_visited` in the grid view.
    proof fn lemma_finished_cell(self, current: (usize, usize))
        requires
            self.rect(),
            current.0 < self.height,
            current.1 < self.width,
            forall|p: (usize, usize)|
                self.in_bounds(p.0 as int, p.1 as int) && is_adjacent(p, current) ==> (
                #[trigger] self.cell_at(p.0 as int, p.1 as int)).visited,
        ensures
            neighbours_visited(self.grid(), self.width as int, self.height as int, current),
    {
        if current.0 + 1 < self.height {
            let p = (((current.0 + 1) as usize), current.1);
            assert(is_adjacent(p, current));
            assert(self.cell_at(p.0 as int, p.1 as int).visited);
        }
        if current.1 + 1 < self.width {
            let p = (current.0, ((current.1 + 1) as usize));
            assert(is_adjacent(p, current));
            assert(self.cell_at(p.0 as int, p.1 as int).visited);
        }
        if current.0 > 0 {
            let p = (((current.0 - 1) as usize), current.1);
            assert(is_adjacent(p, current));
            assert(self.cell_at(p.0 as int, p.1 as int).visited);
        }
        if current.1 > 0 {
            let p = (current.0, ((current.1 - 1) as usize));
            assert(is_adjacent(p, current));
            assert(self.cell_at(p.0 as int, p.1 as int).visited);
        }
    }

    /// The grid-adjacent coordinates of `(i, j)`, in the fixed order
    /// up, down, left, right, each present only when it lies in bounds.
    /// An out-of-bounds `(i, j)` has no neighbours.
    pub open spec fn neighbour_list(self, i: usize, j: usize) -> Seq<(usize, usize)> {
        if i < self.height && j < self.width {
            (if i > 0 {
                seq![(((i - 1) as usize), j)]
            } else {
                Seq::<(usize, usize)>::empty()
            }) + (if i + 1 < self.height {
                seq![(((i + 1) as usize), j)]
            } else {
                Seq::<(usize, usize)>::empty()
            }) + (if j > 0 {
                seq![(i, ((j - 1) as usize))]
            } else {
                Seq::<(usize, usize)>::empty()
            }) + (if j + 1 < self.width {
                seq![(i, ((j + 1) as usize))]
            } else {
                Seq::<(usize, usize)>::empty()
            })
        } else {
            Seq::<(usize, usize)>::empty()
        }
    }

    /// A fresh grid: every cell unvisited with all four walls closed, an
    /// empty carving path, the traveler at the start `(0, 0)` and the exit
    /// at the far corner `(height - 1, width - 1)`.
    pub fn new(width: usize, height: usize) -> (m: Maze)
        requires
            1 <= width <= MAX_DIM,
            1 <= height <= MAX_DIM,
        ensures
            m.wf(),
            m.width == width,
            m.height == height,
            m.path@ == Seq::<(usize, usize)>::empty(),
            m.current_cell == ((0usize, 0usize)),
            m.exit == ((((height - 1) as usize), ((width - 1) as usize))),
            forall|i: int, j: int| m.in_bounds(i, j) ==> #[trigger] m.cell_at(i, j) == Cell::initial(),
    {
        let mut cells: Vec<Vec<Cell>> = Vec::new();
        let mut i: usize = 0;
        while i < height
            invariant
                i <= height,
                cells@.len() == i,
                forall|r: int| 0 <= r < i ==> (#[trigger] cells@[r])@.len() == width,
                forall|r: int, c: int|
                    0 <= r < i && 0 <= c < width ==> (#[trigger] cells@[r]@[c]) == Cell::initial(),
            decreases height - i,
        {
            let mut row: Vec<Cell> = Vec::new();
            let mut j: usize = 0;
            while j < width
                invariant
                    j <= width,
                    row@.len() == j,
                    forall|c: int| 0 <= c < j ==> (#[trigger] row@[c]) == Cell::initial(),
                decreases width - j,
            {
                row.push(Cell::default());
                j = j + 1;
            }
            cells.push(row);
            i = i + 1;
        }
        let m = Maze {
            width,
            height,
            cells,
            path: Vec::new(),
            current_cell: (0, 0),
            exit: (height - 1, width - 1),
        };
        m
    }

    /// Replace the cell at `(i, j)`, leaving every other cell and every
    /// other field of the maze unchanged.
    fn set_cell(&mut self, i: usize, j: usize, c: Cell)
        requires
            old(self).rect(),
            i < old(self).height,
            j < old(self).width,
        ensures
            final(self).grid() == grid_upd(old(self).grid(), i as int, j as int, c),
            final(self).rect(),
            final(self).width == old(self).width,
            final(self).height == old(self).height,
            final(self).path == old(self).path,
            final(self).current_cell == old(self).current_cell,
            final(self).exit == old(self).exit,
    {
        proof {
            assert(self.cells@.len() == self.grid().len());
            assert(self.cells@[i as int]@ == self.grid()[i as int]);
        }
        self.cells[i][j] = c;
        proof {
            assert(final(self).grid() =~~= grid_upd(old(self).grid(), i as int, j as int, c));
        }
    }

    /// The grid-adjacent coordinates of `(i, j)` (up to four of them,
    /// bounds-checked), in the order up, down, left, right.
    pub fn get_neighbours(&self, i: usize, j: usize) -> (r: Vec<(usize, usize)>)
        ensures
            r@ == self.neighbour_list(i, j),
    {
        let mut neighbours: Vec<(usize, usize)> = Vec::new();

        if i >= self.height || j >= self.width {
            proof {
                assert(neighbours@ =~= self.neighbour_list(i, j));
            }
            return neighbours;
        }

        if i > 0 {
            neighbours.push((i - 1, j));
        }
        if i + 1 < self.height {
            neighbours.push((i + 1, j));
        }
        if j > 0 {
            neighbours.push((i, j - 1));
        }
        if j + 1 < self.width {
            neighbours.push((i, j + 1));
        }

        proof {
            assert(neighbours@ =~= self.neighbour_list(i, j));
        }
        neighbours
    }

    /// Read the cell at `(i, j)`.
    pub fn get_cell(&self, i: usize, j: usize) -> (c: Cell)
        requires
            self.rect(),
            i < self.height,
            j < self.width,
        ensures
            c == self.cell_at(i as int, j as int),
    {
        proof {
            assert(self.cells@.len() == self.grid().len());
            assert(self.cells@[i as int]@ == self.grid()[i as int]);
        }
        self.cells[i][j]
    }

    /// Every listed neighbour lies in bounds one step away from `(i, j)`,
    /// and for an in-bounds `(i, j)` every in-bounds adjacent coordinate is
    /// listed.
    proof fn lemma_neighbour_list_props(self, i: usize, j: usize)
        ensures
            forall|k: int|
                0 <= k < self.neighbour_list(i, j).len() ==> self.in_bounds(
                    (#[trigger] self.neighbour_list(i, j)[k]).0 as int,
                    self.neighbour_list(i, j)[k].1 as int,
                ) && is_adjacent(self.neighbour_list(i, j)[k], (i, j)),
            (i < self.height && j < self.width) ==> forall|p: (usize, usize)|
                self.in_bounds(p.0 as int, p.1 as int) && is_adjacent(p, (i, j))
                    ==> self.neighbour_list(i, j).contains(p),
    {
        broadcast use vstd::seq_lib::lemma_seq_concat_contains_all_elements;

        let l = self.neighbour_list(i, j);
        if i < self.height && j < self.width {
            let s1 = if i > 0 {
                seq![(((i - 1) as usize), j)]
            } else {
                Seq::<(usize, usize)>::empty()
            };
            let s2 = if i + 1 < self.height {
                seq![(((i + 1) as usize), j)]
            } else {
                Seq::<(usize, usize)>::empty()
            };
            let s3 = if j > 0 {
                seq![(i, ((j - 1) as usize))]
            } else {
                Seq::<(usize, usize)>::empty()
            };
            let s4 = if j + 1 < self.width {
                seq![(i, ((j + 1) as usize))]
            } else {
                Seq::<(usize, usize)>::empty()
            };
            assert(l == s1 + s2 + s3 + s4);
            assert forall|k: int| 0 <= k < l.len() implies self.in_bounds(
                (#[trigger] l[k]).0 as int,
                l[k].1 as int,
            ) && is_adjacent(l[k], (i, j)) by {
                let p = l[k];
                assert(l.contains(p));
                assert(s1.contains(p) || s2.contains(p) || s3.contains(p) || s4.contains(p));
            }
            assert forall|p: (usize, usize)|
                self.in_bounds(p.0 as int, p.1 as int) && is_adjacent(p, (i, j)) implies l.contains(
                p,
            ) by {
                if p.0 == i && p.1 == j + 1 {
                    assert(s4[0] == p);
                    assert(s4.contains(p));
                } else if p.0 == i && p.1 + 1 == j {
                    assert(s3[0] == p);
                    assert(s3.contains(p));
                } else if p.1 == j && p.0 == i + 1 {
                    assert(s2[0] == p);
                    assert(s2.contains(p));
                } else {
                    assert(p.1 == j && p.0 + 1 == i);
                    assert(s1[0] == p);
                    assert(s1.contains(p));
                }
            }
        }
    }

    /// The spec-level test the non-visited filter applies to a coordinate.
    pub open spec fn unvisited_pred(self) -> spec_fn((usize, usize)) -> bool {
        |p: (usize, usize)| !self.cell_at(p.0 as int, p.1 as int).visited
    }

    /// The grid-adjacent coordinates of `(i, j)` whose cells have not been
    /// visited yet, in the same order `get_neighbours` lists them.
    pub fn get_non_visited_neighbours(&self, i: usize, j: usize) -> (r: Vec<(usize, usize)>)
        requires
            self.rect(),
        ensures
            r@ == self.neighbour_list(i, j).filter(self.unvisited_pred()),
            forall|k: int|
                0 <= k < r@.len() ==> self.in_bounds(
                    (#[trigger] r@[k]).0 as int,
                    r@[k].1 as int,
                ) && is_adjacent(r@[k], (i, j)) && !self.cell_at(
                    r@[k].0 as int,
                    r@[k].1 as int,
                ).visited,
            (i < self.height && j < self.width && r@.len() == 0) ==> forall|p: (usize, usize)|
                self.in_bounds(p.0 as int, p.1 as int) && is_adjacent(p, (i, j)) ==> (
                #[trigger] self.cell_at(p.0 as int, p.1 as int)).visited,
    {
        let ghost pred = self.unvisited_pred();
        proof {
            self.lemma_neighbour_list_props(i, j);
        }
        let neighbours = self.get_neighbours(i, j);
        let ghost l = self.neighbour_list(i, j);
        let mut non_visited: Vec<(usize, usize)> = Vec::new();
        let mut k: usize = 0;
        while k < neighbours.len()
            invariant
                self.rect(),
                neighbours@ == l,
                l == self.neighbour_list(i, j),
                pred == self.unvisited_pred(),
                k <= l.len(),
                forall|t: int|
                    0 <= t < l.len() ==> self.in_bounds(
                        (#[trigger] l[t]).0 as int,
                        l[t].1 as int,
                    ) && is_adjacent(l[t], (i, j)),
                forall|t: int|
                    0 <= t < non_visited@.len() ==> self.in_bounds(
                        (#[trigger] non_visited@[t]).0 as int,
                        non_visited@[t].1 as int,
                    ) && is_adjacent(non_visited@[t], (i, j)) && !self.cell_at(
                        non_visited@[t].0 as int,
                        non_visited@[t].1 as int,
                    ).visited,
                non_visited@ == l.subrange(0, k as int).filter(pred),
            decreases l.len() - k,
        {
            let p = neighbours[k];
            let c = self.get_cell(p.0, p.1);
            if !c.visited {
                non_visited.push(p);
            }
            proof {
                reveal_with_fuel(Seq::<_>::filter, 2);
                let sub1 = l.subrange(0, k + 1);
                assert(sub1.drop_last() =~= l.subrange(0, k as int));
                assert(sub1.last() == l[k as int]);
                assert(pred(l[k as int]) == !c.visited);
                assert(non_visited@ == sub1.filter(pred));
            }
            k = k + 1;
        }
        proof {
            assert(l.subrange(0, l.len() as int) =~= l);
            if i < self.height && j < self.width && non_visited@.len() == 0 {
                assert forall|p: (usize, usize)|
                    self.in_bounds(p.0 as int, p.1 as int) && is_adjacent(p, (i, j)) implies (
                #[trigger] self.cell_at(p.0 as int, p.1 as int)).visited by {
                    assert(l.contains(p));
                    let idx = l.lemma_contains_to_index(p);
                    if !self.cell_at(p.0 as int, p.1 as int).visited {
                        assert(pred(l[idx]));
                        l.lemma_filter_contains(pred, idx);
                    }
                }
            }
        }
        non_visited
    }

    /// Open the wall pair between two adjacent in-bounds coordinates: the
    /// two facing walls are cleared together. A same-cell, non-adjacent or
    /// out-of-bounds pair leaves every wall flag unchanged.
    #[verifier::rlimit(30)]
    pub fn open_adjacent_wall(&mut self, first: (usize, usize), second: (usize, usize))
        requires
            old(self).rect(),
        ensures
            final(self).rect(),
            final(self).width == old(self).width,
            final(self).height == old(self).height,
            final(self).path == old(self).path,
            final(self).current_cell == old(self).current_cell,
            final(self).exit == old(self).exit,
            (old(self).in_bounds(first.0 as int, first.1 as int) && old(self).in_bounds(
                second.0 as int,
                second.1 as int,
            ) && is_adjacent(first, second)) ==> final(self).grid() == with_open_wall(
                old(self).grid(),
                first,
                second,
            ),
            !(old(self).in_bounds(first.0 as int, first.1 as int) && old(self).in_bounds(
                second.0 as int,
                second.1 as int,
            ) && is_adjacent(first, second)) ==> final(self).grid() == old(self).grid(),
    {
        if first.0 >= self.height || first.1 >= self.width || second.0 >= self.height
            || second.1 >= self.width {
            return ;
        }
        if first.0 == second.0 && first.1 == second.1 {
            return ;
        }

        let horizontal = first.0 == second.0 && (first.1 + 1 == second.1 || second.1 + 1
            == first.1);
        let vertical = first.1 == second.1 && (first.0 + 1 == second.0 || second.0 + 1 == first.0);
        if !horizontal && !vertical {
            return ;
        }

        if horizontal {
            let (l, r) = if first.1 < second.1 {
                (first, second)
            } else {
                (second, first)
            };
            let lc = self.get_cell(l.0, l.1);
            self.set_cell(
                l.0,
                l.1,
                Cell {
                    visited: lc.visited,
                    top_wall: lc.top_wall,
                    bottom_wall: lc.bottom_wall,
                    left_wall: lc.left_wall,
                    right_wall: false,
                },
            );
            let rc = self.get_cell(r.0, r.1);
            self.set_cell(
                r.0,
                r.1,
                Cell {
                    visited: rc.visited,
                    top_wall: rc.top_wall,
                    bottom_wall: rc.bottom_wall,
                    left_wall: false,
                    right_wall: rc.right_wall,
                },
            );
            proof {
                assert(self.grid() == open_horizontal(old(self).grid(), l, r));
                assert(with_open_wall(old(self).grid(), first, second) == open_horizontal(
                    old(self).grid(),
                    l,
                    r,
                ));
            }
        } else {
            let (t, b) = if first.0 < second.0 {
                (first, second)
            } else {
                (second, first)
            };
            let tc = self.get_cell(t.0, t.1);
            self.set_cell(
                t.0,
                t.1,
                Cell {
                    visited: tc.visited,
                    top_wall: tc.top_wall,
                    bottom_wall: false,
                    left_wall: tc.left_wall,
                    right_wall: tc.right_wall,
                },
            );
            let bc = self.get_cell(b.0, b.1);
            self.set_cell(
                b.0,
                b.1,
                Cell {
                    visited: bc.visited,
                    top_wall: false,
                    bottom_wall: bc.bottom_wall,
                    left_wall: bc.left_wall,
                    right_wall: bc.right_wall,
                },
            );
            proof {
                assert(self.grid() == open_vertical(old(self).grid(), t, b));
                assert(with_open_wall(old(self).grid(), first, second) == open_vertical(
                    old(self).grid(),
                    t,
                    b,
                ));
            }
        }
    }

    /// Carve a perfect maze by randomized depth-first backtracking: starting
    /// from `(0, 0)`, repeatedly open the wall to a uniformly chosen
    /// unvisited neighbour of the cell on top of the stack, or backtrack
    /// when none is left. The result is a spanning tree of the grid graph:
    /// every cell visited, exactly `width * height - 1` wall pairs open, and
    /// every cell reached from the start by a flood fill through open walls.
    /// Each cell is pushed onto the carving path exactly once, so the path
    /// covers the grid exactly.
    #[verifier::rlimit(60)]
    pub fn generate_maze(width: usize, height: usize) -> (m: Maze)
        requires
            1 <= width <= MAX_DIM,
            1 <= height <= MAX_DIM,
        ensures
            m.wf(),
            m.width == width,
            m.height == height,
            m.current_cell == ((0usize, 0usize)),
            m.exit == ((((height - 1) as usize), ((width - 1) as usize))),
            m.path@.len() == width * height,
            forall|i: int, j: int| m.in_bounds(i, j) ==> (#[trigger] m.cell_at(i, j)).visited,
            m.walls_consistent(),
            m.border_closed(),
            grid_pairs(m.grid(), width as int, height as int) + 1 == width * height,
            forall|p: (usize, usize)|
                p.0 < height && p.1 < width ==> #[trigger] connected(
                    m.grid(),
                    (0usize, 0usize),
                    p,
                ),
            m.is_perfect_maze(),
    {
        let ghost gw = width as int;
        let ghost gh = height as int;
        let mut maze = Maze::new(width, height);
        let ghost m0 = maze;

        let c0 = maze.get_cell(0, 0);
        maze.set_cell(
            0,
            0,
            Cell {
                visited: true,
                top_wall: c0.top_wall,
                bottom_wall: c0.bottom_wall,
                left_wall: c0.left_wall,
                right_wall: c0.right_wall,
            },
        );

        let mut stack: Vec<(usize, usize)> = Vec::new();
        stack.push((0, 0));
        maze.path.push((0, 0));

        proof {
            let gnew = m0.grid();
            let g = maze.grid();
            assert(c0 == Cell::initial());
            assert forall|i: int, j: int| 0 <= i < gh && 0 <= j < gw implies (#[trigger] gnew[i][j])
                == Cell::initial() by {
                assert(m0.cell_at(i, j) == Cell::initial());
            }
            lemma_grid_visited_zero(gnew);
            lemma_grid_pairs_zero(gnew, gw, gh);
            lemma_mark_step(gnew, gw, gh, (0usize, 0usize));
            assert(g == grid_upd(gnew, 0, 0, visited_initial()));
            assert(grid_visited(g) == 1);
            assert(grid_pairs(g, gw, gh) == 0);
            assert(1 <= gw * gh) by (nonlinear_arith)
                requires
                    1 <= gw,
                    1 <= gh,
            ;
            lemma_connected_refl(g, (0, 0));
            assert(stack@[0] == ((0usize, 0usize)));
            assert forall|k: int| 0 <= k < stack@.len() implies (#[trigger] stack@[k]).0 < height
                && stack@[k].1 < width && g[stack@[k].0 as int][stack@[k].1 as int].visited by {
                assert(stack@[k] == ((0usize, 0usize)));
            }
            assert forall|p: (usize, usize)|
                p.0 < height && p.1 < width && (#[trigger] g[p.0 as int][p.1 as int]).visited implies connected(
                g,
                (0usize, 0usize),
                p,
            ) by {
                if p != ((0usize, 0usize)) {
                    assert(g[p.0 as int][p.1 as int] == gnew[p.0 as int][p.1 as int]);
                    assert(false);
                }
            }
            assert forall|p: (usize, usize)|
                p.0 < height && p.1 < width && (#[trigger] g[p.0 as int][p.1 as int]).visited
                    && !stack@.contains(p) implies neighbours_visited(g, gw, gh, p) by {
                if p == ((0usize, 0usize)) {
                    assert(stack@.contains(p));
                } else {
                    assert(g[p.0 as int][p.1 as int] == gnew[p.0 as int][p.1 as int]);
                }
                assert(false);
            }
        }

        while stack.len() != 0
            invariant
                1 <= width <= MAX_DIM,
                1 <= height <= MAX_DIM,
                gw == width as int,
                gh == height as int,
                maze.rect(),
                maze.width == width,
                maze.height == height,
                maze.current_cell == ((0usize, 0usize)),
                maze.exit == ((((height - 1) as usize), ((width - 1) as usize))),
                maze.grid()[0][0].visited,
                grid_consistent(maze.grid(), gw, gh),
                grid_border_closed(maze.grid(), gw, gh),
                grid_unvisited_closed(maze.grid(), gw, gh),
                grid_pairs(maze.grid(), gw, gh) + 1 == grid_visited(maze.grid()),
                grid_visited(maze.grid()) <= gw * gh,
                maze.path@.len() == grid_visited(maze.grid()),
                stack_ok(maze.grid(), gw, gh, stack@),
                frontier_ok(maze.grid(), gw, gh, stack@),
                visited_connected(maze.grid(), gw, gh),
            decreases gw * gh - grid_visited(maze.grid()), stack@.len(),
        {
            let current = stack[stack.len() - 1];
            proof {
                assert(stack@[stack@.len() - 1] == current);
            }
            let nv = maze.get_non_visited_neighbours(current.0, current.1);
            if nv.len() == 0 {
                let ghost old_stack = stack@;
                let _ = stack.pop();
                proof {
                    maze.lemma_finished_cell(current);
                    assert(old_stack.last() == current);
                    lemma_backtrack(maze.grid(), gw, gh, old_stack);
                    assert(stack@ =~= old_stack.drop_last());
                }
            } else {
                let idx = random_below(nv.len());
                let selected = nv[idx];
                let ghost g0 = maze.grid();
                let ghost old_stack = stack@;
                proof {
                    assert(nv@[idx as int] == selected);
                    assert(!g0[selected.0 as int][selected.1 as int].visited);
                    assert(g0[selected.0 as int][selected.1 as int] == Cell::initial());
                }
                let sc = maze.get_cell(selected.0, selected.1);
                maze.set_cell(
                    selected.0,
                    selected.1,
                    Cell {
                        visited: true,
                        top_wall: sc.top_wall,
                        bottom_wall: sc.bottom_wall,
                        left_wall: sc.left_wall,
                        right_wall: sc.right_wall,
                    },
                );
                let ghost g1 = maze.grid();
                maze.open_adjacent_wall(current, selected);
                stack.push(selected);
                maze.path.push(selected);
                proof {
                    assert(sc == Cell::initial());
                    assert(g1 == grid_upd(g0, selected.0 as int, selected.1 as int, visited_initial()));
                    assert(is_adjacent(current, selected));
                    assert(maze.grid() == with_open_wall(g1, current, selected));
                    assert(old_stack.last() == current);
                    lemma_extend(g0, gw, gh, old_stack, current, selected);
                    assert(stack@ == old_stack.push(selected));
                }
            }
        }

        proof {
            let g = maze.grid();
            assert forall|a: int, b: int|
                0 <= a < gh && 0 <= b < gw && (#[trigger] g[a][b]).visited implies ((a + 1 < gh
                ==> g[a + 1][b].visited) && (b + 1 < gw ==> g[a][b + 1].visited) && (a > 0 ==> g[a
                - 1][b].visited) && (b > 0 ==> g[a][b - 1].visited)) by {
                let p = ((a as usize), (b as usize));
                assert(!stack@.contains(p));
                assert(g[p.0 as int][p.1 as int].visited);
                assert(neighbours_visited(g, gw, gh, p));
            }
            assert forall|a: int, b: int| 0 <= a < gh && 0 <= b < gw implies (
            #[trigger] g[a][b]).visited by {
                lemma_visited_spreads(g, gw, gh, a, b);
            }
            lemma_grid_visited_full(g, gw);
            assert(gh * gw == gw * gh) by (nonlinear_arith);
            assert(grid_visited(g) == width * height);
            assert forall|p: (usize, usize)| p.0 < height && p.1 < width implies #[trigger] connected(
                g,
                (0usize, 0usize),
                p,
            ) by {
                assert(g[p.0 as int][p.1 as int].visited);
            }
        }
        maze
    }

    /// Clear every cell's visited flag, touching nothing else: every wall
    /// flag, the dimensions, the carving path, the traveler's position and
    /// the exit all stay as they were.
    pub fn reset_visited_cells(&mut self)
        requires
            old(self).rect(),
        ensures
            final(self).rect(),
            final(self).width == old(self).width,
            final(self).height == old(self).height,
            final(self).path == old(self).path,
            final(self).current_cell == old(self).current_cell,
            final(self).exit == old(self).exit,
            forall|a: int, b: int|
                old(self).in_bounds(a, b) ==> #[trigger] final(self).cell_at(a, b) == (Cell {
                    visited: false,
                    top_wall: old(self).cell_at(a, b).top_wall,
                    bottom_wall: old(self).cell_at(a, b).bottom_wall,
                    left_wall: old(self).cell_at(a, b).left_wall,
                    right_wall: old(self).cell_at(a, b).right_wall,
                }),
    {
        let height = self.height;
        let width = self.width;
        let mut i: usize = 0;
        while i < height
            invariant
                self.rect(),
                height == self.height,
                width == self.width,
                i <= height,
                self.width == old(self).width,
                self.height == old(self).height,
                self.path == old(self).path,
                self.current_cell == old(self).current_cell,
                self.exit == old(self).exit,
                forall|a: int, b: int|
                    old(self).in_bounds(a, b) && a < i ==> #[trigger] self.cell_at(a, b) == (Cell {
                        visited: false,
                        top_wall: old(self).cell_at(a, b).top_wall,
                        bottom_wall: old(self).cell_at(a, b).bottom_wall,
                        left_wall: old(self).cell_at(a, b).left_wall,
                        right_wall: old(self).cell_at(a, b).right_wall,
                    }),
                forall|a: int, b: int|
                    old(self).in_bounds(a, b) && a >= i ==> #[trigger] self.cell_at(a, b) == old(
                        self,
                    ).cell_at(a, b),
            decreases height - i,
        {
            let mut j: usize = 0;
            while j < width
                invariant
                    self.rect(),
                    height == self.height,
                    width == self.width,
                    i < height,
                    j <= width,
                    self.width == old(self).width,
                    self.height == old(self).height,
                    self.path == old(self).path,
                    self.current_cell == old(self).current_cell,
                    self.exit == old(self).exit,
                    forall|a: int, b: int|
                        old(self).in_bounds(a, b) && (a < i || (a == i && b < j))
                            ==> #[trigger] self.cell_at(a, b) == (Cell {
                            visited: false,
                            top_wall: old(self).cell_at(a, b).top_wall,
                            bottom_wall: old(self).cell_at(a, b).bottom_wall,
                            left_wall: old(self).cell_at(a, b).left_wall,
                            right_wall: old(self).cell_at(a, b).right_wall,
                        }),
                    forall|a: int, b: int|
                        old(self).in_bounds(a, b) && (a > i || (a == i && b >= j))
                            ==> #[trigger] self.cell_at(a, b) == old(self).cell_at(a, b),
                decreases width - j,
            {
                let ghost prev = *self;
                let c = self.get_cell(i, j);
                self.set_cell(
                    i,
                    j,
                    Cell {
                        visited: false,
                        top_wall: c.top_wall,
                        bottom_wall: c.bottom_wall,
                        left_wall: c.left_wall,
                        right_wall: c.right_wall,
                    },
                );
                proof {
                    assert forall|a: int, b: int|
                        old(self).in_bounds(a, b) && !(a == i && b == j) implies #[trigger] self
                        .cell_at(a, b) == prev.cell_at(a, b) by {
                        assert(self.grid() == grid_upd(prev.grid(), i as int, j as int, (Cell {
                            visited: false,
                            top_wall: c.top_wall,
                            bottom_wall: c.bottom_wall,
                            left_wall: c.left_wall,
                            right_wall: c.right_wall,
                        })));
                    }
                }
                j = j + 1;
            }
            i = i + 1;
        }
    }
}

} // verus!
