use vstd::prelude::*;

use crate::cell::Cell;
use crate::maze::grid_upd;

verus! {

/// 1 when the cell has been visited, else 0.
pub open spec fn visited_weight(c: Cell) -> nat {
    if c.visited {
        1nat
    } else {
        0nat
    }
}

/// How many open wall pairs the cell at `(i, j)` accounts for: its open
/// right wall when a right-hand neighbour exists and its open bottom wall
/// when a lower neighbour exists. Counting only these two sides of every
/// cell counts each interior wall pair exactly once.
pub open spec fn pair_weight(width: int, height: int, i: int, j: int, c: Cell) -> nat {
    (if j + 1 < width && !c.right_wall {
        1nat
    } else {
        0nat
    }) + (if i + 1 < height && !c.bottom_wall {
        1nat
    } else {
        0nat
    })
}

/// Number of visited cells in one row.
pub open spec fn row_visited(row: Seq<Cell>) -> nat
    decreases row.len(),
{
    if row.len() == 0 {
        0nat
    } else {
        row_visited(row.drop_last()) + visited_weight(row.last())
    }
}

/// Number of visited cells in the whole grid.
pub open spec fn grid_visited(g: Seq<Seq<Cell>>) -> nat
    decreases g.len(),
{
    if g.len() == 0 {
        0nat
    } else {
        grid_visited(g.drop_last()) + row_visited(g.last())
    }
}

/// Open wall pairs accounted for by row `i`.
pub open spec fn row_pairs(row: Seq<Cell>, i: int, width: int, height: int) -> nat
    decreases row.len(),
{
    if row.len() == 0 {
        0nat
    } else {
        row_pairs(row.drop_last(), i, width, height) + pair_weight(
            width,
            height,
            i,
            row.len() - 1,
            row.last(),
        )
    }
}

/// Open wall pairs in the whole grid, each pair counted once at its left
/// (horizontal pair) or upper (vertical pair) cell.
pub open spec fn grid_pairs(g: Seq<Seq<Cell>>, width: int, height: int) -> nat
    decreases g.len(),
{
    if g.len() == 0 {
        0nat
    } else {
        grid_pairs(g.drop_last(), width, height) + row_pairs(g.last(), g.len() - 1, width, height)
    }
}

/// Replacing the cell at column `j` trades its old visited weight for the
/// new one and changes nothing else in the row's count.
pub proof fn lemma_row_visited_update(row: Seq<Cell>, j: int, c: Cell)
    requires
        0 <= j < row.len(),
    ensures
        row_visited(row.update(j, c)) + visited_weight(row[j]) == row_visited(row)
            + visited_weight(c),
    decreases row.len(),
{
    let r2 = row.update(j, c);
    if j == row.len() - 1 {
        assert(r2.drop_last() =~= row.drop_last());
        assert(r2.last() == c);
    } else {
        assert(r2.drop_last() =~= row.drop_last().update(j, c));
        assert(r2.last() == row.last());
        assert(row.drop_last()[j] == row[j]);
        lemma_row_visited_update(row.drop_last(), j, c);
    }
}

/// Replacing the cell at `(i, j)` trades its old visited weight for the
/// new one and changes nothing else in the grid's count.
pub proof fn lemma_grid_visited_update(g: Seq<Seq<Cell>>, i: int, j: int, c: Cell)
    requires
        0 <= i < g.len(),
        0 <= j < g[i].len(),
    ensures
        grid_visited(grid_upd(g, i, j, c)) + visited_weight(g[i][j]) == grid_visited(g)
            + visited_weight(c),
    decreases g.len(),
{
    let g2 = grid_upd(g, i, j, c);
    if i == g.len() - 1 {
        assert(g2.drop_last() =~= g.drop_last());
        assert(g2.last() == g[i].update(j, c));
        lemma_row_visited_update(g[i], j, c);
    } else {
        assert(g2.drop_last() =~= grid_upd(g.drop_last(), i, j, c));
        assert(g2.last() == g.last());
        assert(g.drop_last()[i] == g[i]);
        lemma_grid_visited_update(g.drop_last(), i, j, c);
    }
}

/// Replacing the cell at column `j` trades its old pair weight for the new
/// one and changes nothing else in the row's count.
pub proof fn lemma_row_pairs_update(row: Seq<Cell>, i: int, width: int, height: int, j: int, c: Cell)
    requires
        0 <= j < row.len(),
    ensures
        row_pairs(row.update(j, c), i, width, height) + pair_weight(width, height, i, j, row[j])
            == row_pairs(row, i, width, height) + pair_weight(width, height, i, j, c),
    decreases row.len(),
{
    let r2 = row.update(j, c);
    if j == row.len() - 1 {
        assert(r2.drop_last() =~= row.drop_last());
        assert(r2.last() == c);
    } else {
        assert(r2.drop_last() =~= row.drop_last().update(j, c));
        assert(r2.last() == row.last());
        assert(row.drop_last()[j] == row[j]);
        lemma_row_pairs_update(row.drop_last(), i, width, height, j, c);
    }
}

/// Replacing the cell at `(i, j)` trades its old pair weight for the new
/// one and changes nothing else in the grid's count.
pub proof fn lemma_grid_pairs_update(
    g: Seq<Seq<Cell>>,
    width: int,
    height: int,
    i: int,
    j: int,
    c: Cell,
)
    requires
        0 <= i < g.len(),
        0 <= j < g[i].len(),
    ensures
        grid_pairs(grid_upd(g, i, j, c), width, height) + pair_weight(
            width,
            height,
            i,
            j,
            g[i][j],
        ) == grid_pairs(g, width, height) + pair_weight(width, height, i, j, c),
    decreases g.len(),
{
    let g2 = grid_upd(g, i, j, c);
    if i == g.len() - 1 {
        assert(g2.drop_last() =~= g.drop_last());
        assert(g2.last() == g[i].update(j, c));
        lemma_row_pairs_update(g[i], i, width, height, j, c);
    } else {
        assert(g2.drop_last() =~= grid_upd(g.drop_last(), i, j, c));
        assert(g2.last() == g.last());
        assert(g.drop_last()[i] == g[i]);
        lemma_grid_pairs_update(g.drop_last(), width, height, i, j, c);
    }
}

/// Rows agreeing pointwise on the visited flag count the same.
pub proof fn lemma_row_visited_congruence(r1: Seq<Cell>, r2: Seq<Cell>)
    requires
        r1.len() == r2.len(),
        forall|j: int| 0 <= j < r1.len() ==> (#[trigger] r1[j]).visited == r2[j].visited,
    ensures
        row_visited(r1) == row_visited(r2),
    decreases r1.len(),
{
    if r1.len() > 0 {
        assert(forall|j: int|
            0 <= j < r1.drop_last().len() ==> (#[trigger] r1.drop_last()[j]).visited
                == r2.drop_last()[j].visited);
        lemma_row_visited_congruence(r1.drop_last(), r2.drop_last());
    }
}

/// Grids agreeing pointwise on the visited flag count the same.
pub proof fn lemma_grid_visited_congruence(g1: Seq<Seq<Cell>>, g2: Seq<Seq<Cell>>)
    requires
        g1.len() == g2.len(),
        forall|i: int| 0 <= i < g1.len() ==> (#[trigger] g1[i]).len() == g2[i].len(),
        forall|i: int, j: int|
            0 <= i < g1.len() && 0 <= j < g1[i].len() ==> (#[trigger] g1[i][j]).visited
                == g2[i][j].visited,
    ensures
        grid_visited(g1) == grid_visited(g2),
    decreases g1.len(),
{
    if g1.len() > 0 {
        assert(forall|i: int|
            0 <= i < g1.drop_last().len() ==> (#[trigger] g1.drop_last()[i]).len()
                == g2.drop_last()[i].len());
        assert(forall|i: int, j: int|
            0 <= i < g1.drop_last().len() && 0 <= j < g1.drop_last()[i].len() ==> (
            #[trigger] g1.drop_last()[i][j]).visited == g2.drop_last()[i][j].visited);
        lemma_grid_visited_congruence(g1.drop_last(), g2.drop_last());
        assert(forall|j: int|
            0 <= j < g1.last().len() ==> (#[trigger] g1.last()[j]).visited == g2.last()[j].visited);
        lemma_row_visited_congruence(g1.last(), g2.last());
    }
}

/// A row never counts more visited cells than it has cells.
pub proof fn lemma_row_visited_le(row: Seq<Cell>)
    ensures
        row_visited(row) <= row.len(),
    decreases row.len(),
{
    if row.len() > 0 {
        lemma_row_visited_le(row.drop_last());
    }
}

/// A grid of rows of length `width` never counts more visited cells than
/// it has cells.
pub proof fn lemma_grid_visited_le(g: Seq<Seq<Cell>>, width: int)
    requires
        forall|i: int| 0 <= i < g.len() ==> (#[trigger] g[i]).len() == width,
        width >= 0,
    ensures
        grid_visited(g) <= g.len() * width,
    decreases g.len(),
{
    if g.len() > 0 {
        assert(forall|i: int|
            0 <= i < g.drop_last().len() ==> (#[trigger] g.drop_last()[i]).len() == width);
        lemma_grid_visited_le(g.drop_last(), width);
        lemma_row_visited_le(g.last());
        assert((g.len() - 1) * width + width == g.len() * width) by (nonlinear_arith);
    }
}

/// A row of visited cells counts exactly its length.
pub proof fn lemma_row_visited_full(row: Seq<Cell>)
    requires
        forall|j: int| 0 <= j < row.len() ==> (#[trigger] row[j]).visited,
    ensures
        row_visited(row) == row.len(),
    decreases row.len(),
{
    if row.len() > 0 {
        assert(forall|j: int|
            0 <= j < row.drop_last().len() ==> (#[trigger] row.drop_last()[j]).visited);
        lemma_row_visited_full(row.drop_last());
    }
}

/// A grid of `width`-wide rows of visited cells counts exactly all of them.
pub proof fn lemma_grid_visited_full(g: Seq<Seq<Cell>>, width: int)
    requires
        forall|i: int| 0 <= i < g.len() ==> (#[trigger] g[i]).len() == width,
        forall|i: int, j: int|
            0 <= i < g.len() && 0 <= j < width ==> (#[trigger] g[i][j]).visited,
        width >= 0,
    ensures
        grid_visited(g) == g.len() * width,
    decreases g.len(),
{
    if g.len() > 0 {
        assert(forall|i: int|
            0 <= i < g.drop_last().len() ==> (#[trigger] g.drop_last()[i]).len() == width);
        assert(forall|i: int, j: int|
            0 <= i < g.drop_last().len() && 0 <= j < width ==> (#[trigger] g.drop_last()[i][j]).visited);
        lemma_grid_visited_full(g.drop_last(), width);
        lemma_row_visited_full(g.last());
        assert((g.len() - 1) * width + width == g.len() * width) by (nonlinear_arith);
    }
}

/// A row of unvisited cells counts none.
pub proof fn lemma_row_visited_zero(row: Seq<Cell>)
    requires
        forall|j: int| 0 <= j < row.len() ==> !(#[trigger] row[j]).visited,
    ensures
        row_visited(row) == 0,
    decreases row.len(),
{
    if row.len() > 0 {
        assert(forall|j: int|
            0 <= j < row.drop_last().len() ==> !(#[trigger] row.drop_last()[j]).visited);
        lemma_row_visited_zero(row.drop_last());
    }
}

/// A grid of unvisited cells counts none.
pub proof fn lemma_grid_visited_zero(g: Seq<Seq<Cell>>)
    requires
        forall|i: int, j: int|
            0 <= i < g.len() && 0 <= j < g[i].len() ==> !(#[trigger] g[i][j]).visited,
    ensures
        grid_visited(g) == 0,
    decreases g.len(),
{
    if g.len() > 0 {
        assert(forall|i: int, j: int|
            0 <= i < g.drop_last().len() && 0 <= j < g.drop_last()[i].len() ==> !(
            #[trigger] g.drop_last()[i][j]).visited);
        lemma_grid_visited_zero(g.drop_last());
        lemma_row_visited_zero(g.last());
    }
}

/// A row of fully walled cells accounts for no open pair.
pub proof fn lemma_row_pairs_zero(row: Seq<Cell>, i: int, width: int, height: int)
    requires
        forall|j: int|
            0 <= j < row.len() ==> (#[trigger] row[j]).right_wall && row[j].bottom_wall,
    ensures
        row_pairs(row, i, width, height) == 0,
    decreases row.len(),
{
    if row.len() > 0 {
        assert(forall|j: int|
            0 <= j < row.drop_last().len() ==> (#[trigger] row.drop_last()[j]).right_wall
                && row.drop_last()[j].bottom_wall);
        lemma_row_pairs_zero(row.drop_last(), i, width, height);
    }
}

/// A grid of fully walled cells holds no open pair.
pub proof fn lemma_grid_pairs_zero(g: Seq<Seq<Cell>>, width: int, height: int)
    requires
        forall|i: int, j: int|
            0 <= i < g.len() && 0 <= j < g[i].len() ==> (#[trigger] g[i][j]).right_wall
                && g[i][j].bottom_wall,
    ensures
        grid_pairs(g, width, height) == 0,
    decreases g.len(),
{
    if g.len() > 0 {
        assert(forall|i: int, j: int|
            0 <= i < g.drop_last().len() && 0 <= j < g.drop_last()[i].len() ==> (
            #[trigger] g.drop_last()[i][j]).right_wall && g.drop_last()[i][j].bottom_wall);
        lemma_grid_pairs_zero(g.drop_last(), width, height);
        lemma_row_pairs_zero(g.last(), g.len() - 1, width, height);
    }
}

} // verus!
