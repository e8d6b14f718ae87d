use vstd::prelude::*;

use crate::cell::Cell;

verus! {

/// One open passage: `b` lies one step from `a` inside the grid `g` and the
/// wall of `a` facing `b` is open.
pub open spec fn step_open(g: Seq<Seq<Cell>>, a: (usize, usize), b: (usize, usize)) -> bool {
    &&& (a.0 as int) < g.len() && (a.1 as int) < g[a.0 as int].len()
    &&& (b.0 as int) < g.len() && (b.1 as int) < g[b.0 as int].len()
    &&& {
        ||| (b.0 == a.0 && b.1 == a.1 + 1 && !g[a.0 as int][a.1 as int].right_wall)
        ||| (b.0 == a.0 && a.1 == b.1 + 1 && !g[a.0 as int][a.1 as int].left_wall)
        ||| (b.1 == a.1 && b.0 == a.0 + 1 && !g[a.0 as int][a.1 as int].bottom_wall)
        ||| (b.1 == a.1 && a.0 == b.0 + 1 && !g[a.0 as int][a.1 as int].top_wall)
    }
}

/// `p` walks from `a` to `b` through open passages of `g`.
pub open spec fn is_open_path(
    g: Seq<Seq<Cell>>,
    p: Seq<(usize, usize)>,
    a: (usize, usize),
    b: (usize, usize),
) -> bool {
    &&& p.len() >= 1
    &&& p[0] == a
    &&& p[p.len() - 1] == b
    &&& forall|k: int| 0 <= k < p.len() - 1 ==> step_open(g, #[trigger] p[k], p[k + 1])
}

/// Some open path joins `a` to `b`: what a flood fill starting at `a`
/// reaches.
pub open spec fn connected(g: Seq<Seq<Cell>>, a: (usize, usize), b: (usize, usize)) -> bool {
    exists|p: Seq<(usize, usize)>| is_open_path(g, p, a, b)
}

/// Every open wall of `g1` is still open in the same-shaped grid `g2`.
pub open spec fn walls_superset_open(g1: Seq<Seq<Cell>>, g2: Seq<Seq<Cell>>) -> bool {
    &&& g2.len() == g1.len()
    &&& forall|i: int| 0 <= i < g1.len() ==> (#[trigger] g2[i]).len() == g1[i].len()
    &&& forall|i: int, j: int|
        0 <= i < g1.len() && 0 <= j < g1[i].len() ==> ((!g1[i][j].right_wall
            ==> !(#[trigger] g2[i][j]).right_wall) && (!g1[i][j].left_wall ==> !g2[i][j].left_wall)
            && (!g1[i][j].bottom_wall ==> !g2[i][j].bottom_wall) && (!g1[i][j].top_wall
            ==> !g2[i][j].top_wall))
}

/// Every in-bounds coordinate is joined to itself.
pub proof fn lemma_connected_refl(g: Seq<Seq<Cell>>, a: (usize, usize))
    requires
        (a.0 as int) < g.len(),
        (a.1 as int) < g[a.0 as int].len(),
    ensures
        connected(g, a, a),
{
    let p = seq![a];
    assert(is_open_path(g, p, a, a));
}

/// Extending a path by one open passage keeps it a path.
pub proof fn lemma_connected_step(
    g: Seq<Seq<Cell>>,
    a: (usize, usize),
    b: (usize, usize),
    c: (usize, usize),
)
    requires
        connected(g, a, b),
        step_open(g, b, c),
    ensures
        connected(g, a, c),
{
    let p = choose|p: Seq<(usize, usize)>| is_open_path(g, p, a, b);
    let p2 = p.push(c);
    assert forall|k: int| 0 <= k < p2.len() - 1 implies step_open(g, #[trigger] p2[k], p2[k + 1]) by {
        if k < p.len() - 1 {
            assert(p2[k] == p[k]);
            assert(p2[k + 1] == p[k + 1]);
        } else {
            assert(p2[k] == b);
            assert(p2[k + 1] == c);
        }
    }
    assert(is_open_path(g, p2, a, c));
}

/// Opening more walls never disconnects anything: a path of `g1` is still a
/// path of any same-shaped grid `g2` whose open walls include those of `g1`.
pub proof fn lemma_connected_mono(
    g1: Seq<Seq<Cell>>,
    g2: Seq<Seq<Cell>>,
    a: (usize, usize),
    b: (usize, usize),
)
    requires
        walls_superset_open(g1, g2),
        connected(g1, a, b),
    ensures
        connected(g2, a, b),
{
    let p = choose|p: Seq<(usize, usize)>| is_open_path(g1, p, a, b);
    assert forall|k: int| 0 <= k < p.len() - 1 implies step_open(g2, #[trigger] p[k], p[k + 1]) by {
        assert(step_open(g1, p[k], p[k + 1]));
    }
    assert(is_open_path(g2, p, a, b));
}

/// In a grid where the visited region is closed under adjacency and holds
/// the start corner, it holds every cell: walking first up and then left
/// from `(i, j)` reaches `(0, 0)`, so visitedness spreads back down to
/// `(i, j)`.
pub proof fn lemma_visited_spreads(g: Seq<Seq<Cell>>, width: int, height: int, i: int, j: int)
    requires
        g.len() == height,
        forall|r: int| 0 <= r < height ==> (#[trigger] g[r]).len() == width,
        0 < height,
        0 < width,
        g[0][0].visited,
        forall|a: int, b: int|
            0 <= a < height && 0 <= b < width && (#[trigger] g[a][b]).visited ==> ((a + 1 < height
                ==> g[a + 1][b].visited) && (b + 1 < width ==> g[a][b + 1].visited) && (a > 0 ==> g[a
                - 1][b].visited) && (b > 0 ==> g[a][b - 1].visited)),
        0 <= i < height,
        0 <= j < width,
    ensures
        g[i][j].visited,
    decreases i + j,
{
    if i == 0 && j == 0 {
    } else if i > 0 {
        lemma_visited_spreads(g, width, height, i - 1, j);
        assert(g[i - 1][j].visited);
        assert(g[i - 1 + 1][j].visited);
    } else {
        lemma_visited_spreads(g, width, height, i, j - 1);
        assert(g[i][j - 1].visited);
        assert(g[i][j - 1 + 1].visited);
    }
}

} // verus!

