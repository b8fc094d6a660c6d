//! Reading a stick figure from its drawing: `o` marks a joint at even row and
//! column, `-` and `|` the sticks between the joints on either side.

use vstd::prelude::*;

use petgraph::graph::Graph;
use petgraph::Undirected;

use crate::blocks::edges_ok;
use crate::figures::{figure_add_edge, figure_add_node, figure_edges, figure_size, new_figure, Axis, Pin};

verus! {

/// Cell `(x, y)` is a joint: an `o` at even row and column.
pub open spec fn is_joint(grid: Seq<Seq<char>>, x: int, y: int) -> bool {
    0 <= y < grid.len() && 0 <= x < grid[y].len() && y % 2 == 0 && x % 2 == 0 && grid[y][x] == 'o'
}

/// Number of joints in row `y` left of column `x`.
pub open spec fn joints_in_row(grid: Seq<Seq<char>>, y: int, x: int) -> nat
    decreases x,
{
    if x <= 0 {
        0
    } else {
        joints_in_row(grid, y, x - 1) + if is_joint(grid, x - 1, y) { 1nat } else { 0nat }
    }
}

/// Number of joints in the rows above row `y`.
pub open spec fn joints_above(grid: Seq<Seq<char>>, y: int) -> nat
    decreases y,
{
    if y <= 0 {
        0
    } else {
        joints_above(grid, y - 1) + joints_in_row(grid, y - 1, grid[y - 1].len() as int)
    }
}

/// The node number of the joint at `(x, y)`: joints are numbered row by row, left
/// to right.
pub open spec fn joint_id(grid: Seq<Seq<char>>, x: int, y: int) -> int {
    (joints_above(grid, y) + joints_in_row(grid, y, x)) as int
}

/// The edge a cell draws: `-` joins the joints left and right of it, `|` those
/// above and below; both with sign 1.
pub open spec fn cell_edge(grid: Seq<Seq<char>>, x: int, y: int) -> Seq<(int, int, Pin)> {
    if grid[y][x] == '-' {
        seq![(joint_id(grid, x - 1, y), joint_id(grid, x + 1, y), Pin { axis: Axis::Horizontal, sign: 1 })]
    } else if grid[y][x] == '|' {
        seq![(joint_id(grid, x, y - 1), joint_id(grid, x, y + 1), Pin { axis: Axis::Vertical, sign: 1 })]
    } else {
        Seq::empty()
    }
}

/// The edges drawn in row `y` left of column `x`, left to right.
pub open spec fn row_edges(grid: Seq<Seq<char>>, y: int, x: int) -> Seq<(int, int, Pin)>
    decreases x,
{
    if x <= 0 {
        Seq::empty()
    } else {
        row_edges(grid, y, x - 1) + cell_edge(grid, x - 1, y)
    }
}

/// The edges drawn in the rows above row `y`, row by row.
pub open spec fn edges_above(grid: Seq<Seq<char>>, y: int) -> Seq<(int, int, Pin)>
    decreases y,
{
    if y <= 0 {
        Seq::empty()
    } else {
        edges_above(grid, y - 1) + row_edges(grid, y - 1, grid[y - 1].len() as int)
    }
}

/// Every stick has a joint at each end, and there are fewer than `u32::MAX` joints
/// and fewer than `u32::MAX` sticks (the graph's indices are `u32`).
pub open spec fn grid_ok(grid: Seq<Seq<char>>) -> bool {
    &&& joints_above(grid, grid.len() as int) < u32::MAX
    &&& edges_above(grid, grid.len() as int).len() < u32::MAX
    &&& forall|y: int, x: int|
        0 <= y < grid.len() && 0 <= x < grid[y].len() && #[trigger] grid[y][x] == '-' ==> is_joint(grid, x - 1, y)
            && is_joint(grid, x + 1, y)
    &&& forall|y: int, x: int|
        0 <= y < grid.len() && 0 <= x < grid[y].len() && #[trigger] grid[y][x] == '|' ==> is_joint(grid, x, y - 1)
            && is_joint(grid, x, y + 1)
}

/// The rows of the drawing as sequences.
pub open spec fn grid_view(grid: Seq<Vec<char>>) -> Seq<Seq<char>> {
    Seq::new(grid.len(), |i: int| grid[i]@)
}

proof fn lemma_row_edges_mono(grid: Seq<Seq<char>>, y: int, x1: int, x2: int)
    requires
        x1 <= x2,
    ensures
        row_edges(grid, y, x1).len() <= row_edges(grid, y, x2).len(),
    decreases x2 - x1,
{
    if x1 < x2 {
        lemma_row_edges_mono(grid, y, x1, x2 - 1);
    }
}

proof fn lemma_edges_above_mono(grid: Seq<Seq<char>>, y1: int, y2: int)
    requires
        0 <= y1 <= y2,
    ensures
        edges_above(grid, y1).len() <= edges_above(grid, y2).len(),
    decreases y2,
{
    if y2 > y1 {
        lemma_edges_above_mono(grid, y1, y2 - 1);
    }
}

/// The sticks drawn up to and including cell `(x, y)` are no more than all sticks.
proof fn lemma_edges_so_far(grid: Seq<Seq<char>>, y: int, x: int)
    requires
        0 <= y < grid.len(),
        0 <= x < grid[y].len(),
    ensures
        edges_above(grid, y).len() + row_edges(grid, y, x + 1).len() <= edges_above(grid, grid.len() as int).len(),
{
    lemma_row_edges_mono(grid, y, x + 1, grid[y].len() as int);
    lemma_edges_above_mono(grid, y + 1, grid.len() as int);
}

/// The joints up to and including cell `(x, y)` are no more than all joints.
proof fn lemma_joints_so_far(grid: Seq<Seq<char>>, y: int, x: int)
    requires
        0 <= y < grid.len(),
        0 <= x < grid[y].len(),
    ensures
        joints_above(grid, y) + joints_in_row(grid, y, x + 1) <= joints_above(grid, grid.len() as int),
{
    lemma_joints_in_row_mono(grid, y, x + 1, grid[y].len() as int);
    lemma_joints_above_mono(grid, y + 1, grid.len() as int);
}

proof fn lemma_joints_in_row_mono(grid: Seq<Seq<char>>, y: int, x1: int, x2: int)
    requires
        x1 <= x2,
    ensures
        joints_in_row(grid, y, x1) <= joints_in_row(grid, y, x2),
    decreases x2 - x1,
{
    if x1 < x2 {
        lemma_joints_in_row_mono(grid, y, x1, x2 - 1);
    }
}

fn joint_at(grid: &Vec<Vec<char>>, x: usize, y: usize) -> (r: bool)
    ensures
        r == is_joint(grid_view(grid@), x as int, y as int),
{
    y < grid.len() && x < grid[y].len() && y % 2 == 0 && x % 2 == 0 && grid[y][x] == 'o'
}

/// The sticks of cell `(x, y)` have their joints.
pub open spec fn cell_ok(grid: Seq<Seq<char>>, x: int, y: int) -> bool {
    &&& grid[y][x] == '-' ==> is_joint(grid, x - 1, y) && is_joint(grid, x + 1, y)
    &&& grid[y][x] == '|' ==> is_joint(grid, x, y - 1) && is_joint(grid, x, y + 1)
}

/// Whether a drawing can be read as a figure: each stick has a joint at either end,
/// and there are fewer than `u32::MAX` joints and fewer than `u32::MAX` sticks.
pub fn check_grid(grid: &Vec<Vec<char>>) -> (r: bool)
    ensures
        r == grid_ok(grid_view(grid@)),
{
    let ghost gv = grid_view(grid@);
    let mut nj: u32 = 0;
    let mut ns: u32 = 0;
    let mut y: usize = 0;
    while y < grid.len()
        invariant
            gv == grid_view(grid@),
            y <= grid.len(),
            nj == joints_above(gv, y as int),
            ns == edges_above(gv, y as int).len(),
            nj < u32::MAX,
            ns < u32::MAX,
            forall|yy: int, xx: int| 0 <= yy < y && 0 <= xx < gv[yy].len() ==> #[trigger] cell_ok(gv, xx, yy),
        decreases grid.len() - y,
    {
        let row = &grid[y];
        assert(row@ == gv[y as int]);
        let mut x: usize = 0;
        while x < row.len()
            invariant
                gv == grid_view(grid@),
                y < grid.len(),
                row@ == gv[y as int],
                x <= row.len(),
                nj == joints_above(gv, y as int) + joints_in_row(gv, y as int, x as int),
                ns == edges_above(gv, y as int).len() + row_edges(gv, y as int, x as int).len(),
                nj < u32::MAX,
                ns < u32::MAX,
                forall|yy: int, xx: int| 0 <= yy < y && 0 <= xx < gv[yy].len() ==> #[trigger] cell_ok(gv, xx, yy),
                forall|xx: int| 0 <= xx < x ==> #[trigger] cell_ok(gv, xx, y as int),
            decreases row.len() - x,
        {
            let c = row[x];
            if c == '-' {
                if x == 0 || !joint_at(grid, x - 1, y) || !joint_at(grid, x + 1, y) {
                    assert(!cell_ok(gv, x as int, y as int));
                    return false;
                }
            } else if c == '|' {
                if y == 0 || !joint_at(grid, x, y - 1) || !joint_at(grid, x, y + 1) {
                    assert(!cell_ok(gv, x as int, y as int));
                    return false;
                }
            }
            assert(cell_ok(gv, x as int, y as int));
            proof {
                lemma_joints_so_far(gv, y as int, x as int);
                lemma_edges_so_far(gv, y as int, x as int);
                assert(row_edges(gv, y as int, x + 1) == row_edges(gv, y as int, x as int) + cell_edge(gv, x as int, y as int));
            }
            if joint_at(grid, x, y) {
                if nj == u32::MAX - 1 {
                    return false;
                }
                nj = nj + 1;
            }
            if c == '-' || c == '|' {
                if ns == u32::MAX - 1 {
                    return false;
                }
                ns = ns + 1;
            }
            x += 1;
        }
        proof {
            assert(joints_above(gv, y + 1) == joints_above(gv, y as int) + joints_in_row(gv, y as int, gv[y as int].len() as int));
            assert(edges_above(gv, y + 1) == edges_above(gv, y as int) + row_edges(gv, y as int, gv[y as int].len() as int));
        }
        y += 1;
    }
    assert forall|yy: int, xx: int|
        0 <= yy < gv.len() && 0 <= xx < gv[yy].len() && #[trigger] gv[yy][xx] == '-' implies is_joint(gv, xx - 1, yy)
            && is_joint(gv, xx + 1, yy) by {
        assert(cell_ok(gv, xx, yy));
    }
    assert forall|yy: int, xx: int|
        0 <= yy < gv.len() && 0 <= xx < gv[yy].len() && #[trigger] gv[yy][xx] == '|' implies is_joint(gv, xx, yy - 1)
            && is_joint(gv, xx, yy + 1) by {
        assert(cell_ok(gv, xx, yy));
    }
    true
}

/// The figure graph of a drawing: a node for each joint, numbered row by row and
/// left to right, then an edge for each stick, row by row and left to right.
pub fn figure_from_grid(grid: &Vec<Vec<char>>) -> (g: Graph<(), Pin, Undirected, u32>)
    requires
        grid_ok(grid_view(grid@)),
    ensures
        figure_size(g) == joints_above(grid_view(grid@), grid@.len() as int),
        figure_edges(g) == edges_above(grid_view(grid@), grid@.len() as int),
        edges_ok(figure_edges(g), figure_size(g)),
        figure_size(g) < u32::MAX,
{
    let ghost gv = grid_view(grid@);
    let mut g = new_figure();
    let mut ids: Vec<Vec<usize>> = Vec::new();
    let mut y: usize = 0;
    while y < grid.len()
        invariant
            gv == grid_view(grid@),
            grid_ok(gv),
            y <= grid.len(),
            ids@.len() == y,
            figure_size(g) == joints_above(gv, y as int),
            figure_edges(g) == Seq::<(int, int, Pin)>::empty(),
            forall|yy: int| 0 <= yy < y ==> #[trigger] ids@[yy]@.len() == gv[yy].len(),
            forall|yy: int, xx: int|
                0 <= yy < y && 0 <= xx < gv[yy].len() && is_joint(gv, xx, yy) ==> #[trigger] ids@[yy]@[xx] == joint_id(gv, xx, yy),
        decreases grid.len() - y,
    {
        let row = &grid[y];
        assert(row@ == gv[y as int]);
        let mut row_ids: Vec<usize> = Vec::new();
        let mut x: usize = 0;
        while x < row.len()
            invariant
                gv == grid_view(grid@),
                grid_ok(gv),
                y < grid.len(),
                row@ == gv[y as int],
                x <= row.len(),
                row_ids@.len() == x,
                figure_size(g) == joints_above(gv, y as int) + joints_in_row(gv, y as int, x as int),
                figure_edges(g) == Seq::<(int, int, Pin)>::empty(),
                forall|xx: int| 0 <= xx < x && is_joint(gv, xx, y as int) ==> #[trigger] row_ids@[xx] == joint_id(gv, xx, y as int),
            decreases row.len() - x,
        {
            proof {
                lemma_joints_so_far(gv, y as int, x as int);
            }
            if y % 2 == 0 && x % 2 == 0 && row[x] == 'o' {
                let id = figure_add_node(&mut g);
                row_ids.push(id);
            } else {
                row_ids.push(0);
            }
            x += 1;
        }
        let ghost ids_before = ids@;
        ids.push(row_ids);
        proof {
            assert(joints_above(gv, y + 1) == joints_above(gv, y as int) + joints_in_row(gv, y as int, gv[y as int].len() as int));
            assert forall|yy: int, xx: int|
                0 <= yy < y + 1 && 0 <= xx < gv[yy].len() && is_joint(gv, xx, yy) implies #[trigger] ids@[yy]@[xx] == joint_id(gv, xx, yy) by {
                if yy < y {
                    assert(ids@[yy] == ids_before[yy]);
                }
            }
        }
        y += 1;
    }
    let ghost nodes = figure_size(g);
    let mut y: usize = 0;
    while y < grid.len()
        invariant
            gv == grid_view(grid@),
            grid_ok(gv),
            y <= grid.len(),
            ids@.len() == grid.len(),
            figure_size(g) == nodes,
            nodes == joints_above(gv, grid@.len() as int),
            figure_edges(g) == edges_above(gv, y as int),
            edges_ok(figure_edges(g), nodes),
            nodes < u32::MAX,
            forall|yy: int| 0 <= yy < grid.len() ==> #[trigger] ids@[yy]@.len() == gv[yy].len(),
            forall|yy: int, xx: int|
                0 <= yy < grid.len() && 0 <= xx < gv[yy].len() && is_joint(gv, xx, yy) ==> #[trigger] ids@[yy]@[xx] == joint_id(gv, xx, yy),
        decreases grid.len() - y,
    {
        let row = &grid[y];
        assert(row@ == gv[y as int]);
        let mut x: usize = 0;
        while x < row.len()
            invariant
                gv == grid_view(grid@),
                grid_ok(gv),
                y < grid.len(),
                row@ == gv[y as int],
                x <= row.len(),
                ids@.len() == grid.len(),
                figure_size(g) == nodes,
                nodes == joints_above(gv, grid@.len() as int),
                figure_edges(g) == edges_above(gv, y as int) + row_edges(gv, y as int, x as int),
                edges_ok(figure_edges(g), nodes),
                forall|yy: int| 0 <= yy < grid.len() ==> #[trigger] ids@[yy]@.len() == gv[yy].len(),
                forall|yy: int, xx: int|
                    0 <= yy < grid.len() && 0 <= xx < gv[yy].len() && is_joint(gv, xx, yy) ==> #[trigger] ids@[yy]@[xx] == joint_id(gv, xx, yy),
            decreases row.len() - x,
        {
            let c = row[x];
            proof {
                lemma_edges_so_far(gv, y as int, x as int);
                assert(row_edges(gv, y as int, x + 1) == row_edges(gv, y as int, x as int) + cell_edge(gv, x as int, y as int));
            }
            if c == '-' {
                assert(is_joint(gv, x - 1, y as int) && is_joint(gv, x + 1, y as int));
                let a = ids[y][x - 1];
                let b = ids[y][x + 1];
                proof {
                    lemma_joint_id_bound(gv, x - 1, y as int);
                    lemma_joint_id_bound(gv, x + 1, y as int);
                }
                figure_add_edge(&mut g, a, b, Pin { axis: Axis::Horizontal, sign: 1 });
            } else if c == '|' {
                assert(is_joint(gv, x as int, y - 1) && is_joint(gv, x as int, y + 1));
                let a = ids[y - 1][x];
                let b = ids[y + 1][x];
                proof {
                    lemma_joint_id_bound(gv, x as int, y - 1);
                    lemma_joint_id_bound(gv, x as int, y + 1);
                }
                figure_add_edge(&mut g, a, b, Pin { axis: Axis::Vertical, sign: 1 });
            }
            proof {
                assert(row_edges(gv, y as int, x + 1) == row_edges(gv, y as int, x as int) + cell_edge(gv, x as int, y as int));
                assert(figure_edges(g) =~= edges_above(gv, y as int) + row_edges(gv, y as int, x + 1));
            }
            x += 1;
        }
        proof {
            assert(figure_edges(g) =~= edges_above(gv, y + 1));
        }
        y += 1;
    }
    g
}

/// The number of a joint is below the number of joints.
proof fn lemma_joint_id_bound(grid: Seq<Seq<char>>, x: int, y: int)
    requires
        grid_ok(grid),
        is_joint(grid, x, y),
    ensures
        0 <= joint_id(grid, x, y) < joints_above(grid, grid.len() as int),
        joints_above(grid, grid.len() as int) < u32::MAX,
{
    lemma_joints_in_row_lt(grid, y, x, grid[y].len() as int);
    lemma_joints_above_mono(grid, y + 1, grid.len() as int);
}

proof fn lemma_joints_in_row_lt(grid: Seq<Seq<char>>, y: int, x: int, n: int)
    requires
        is_joint(grid, x, y),
        x < n,
    ensures
        joints_in_row(grid, y, x) < joints_in_row(grid, y, n),
    decreases n,
{
    if n > x + 1 {
        lemma_joints_in_row_lt(grid, y, x, n - 1);
    }
}

proof fn lemma_joints_above_mono(grid: Seq<Seq<char>>, y1: int, y2: int)
    requires
        0 <= y1 <= y2,
    ensures
        joints_above(grid, y1) <= joints_above(grid, y2),
    decreases y2,
{
    if y2 > y1 {
        lemma_joints_above_mono(grid, y1, y2 - 1);
    }
}

} // verus!
