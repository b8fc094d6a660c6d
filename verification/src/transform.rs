//! Whether two stick-figure drawings show the same figure up to mirroring: each
//! drawing is read as a graph, split into blocks at its articulation points, and
//! the resulting block-cut trees are compared from their centers.

use vstd::prelude::*;

use crate::bc_tree::{
    bc_fits, block_links, block_nodes, block_vectors, blocks_view, build_bc_tree, exec_block_nodes, find_index,
    lemma_block_links_grow, lemma_tree_links_between, lemma_tree_links_grow, tree_links, tree_nodes_are,
};
use crate::blocks::{bc_search, edges_ok, BiconnectedResult};
use crate::figures::{tree_edges, tree_nodes, BCNode, Pin};
use crate::grid::{edges_above, figure_from_grid, grid_ok, grid_view, joints_above};
use crate::matching::{compare_trees, lemma_tree_matches_itself, node_shape, tree_view, trees_ok, trees_transformable, TreeView};

verus! {

/// The node shapes of a block-cut tree: the articulation points, then each block
/// with its stick vectors.
pub open spec fn bc_shapes(aps: Seq<usize>, blocks: Seq<Seq<(usize, usize, Pin)>>) -> Seq<Option<Seq<(i32, i32)>>> {
    Seq::new(
        aps.len() + blocks.len(),
        |i: int|
            if i < aps.len() {
                None
            } else {
                Some(block_vectors(blocks[i - aps.len()]))
            },
    )
}

/// The block-cut tree of a drawing, as the comparison reads it; `None` when it would
/// need more than `u32::MAX` nodes or edges, which its graph cannot index.
pub open spec fn figure_tree(gv: Seq<Seq<char>>) -> Option<TreeView> {
    let s = bc_search(edges_above(gv, gv.len() as int), joints_above(gv, gv.len() as int));
    if bc_fits(s.aps, s.blocks) {
        Some(TreeView { nodes: bc_shapes(s.aps, s.blocks), edges: tree_links(s.aps, s.blocks, s.blocks.len() as int) })
    } else {
        None
    }
}

/// The answer for two drawings: whether their figures are the same up to mirroring,
/// `None` where it cannot be decided (see `compare_trees`).
pub open spec fn figures_compare(ga: Seq<Seq<char>>, gb: Seq<Seq<char>>) -> Option<bool> {
    match (figure_tree(ga), figure_tree(gb)) {
        (Some(a), Some(b)) => compare_trees(a, b),
        _ => None,
    }
}

fn fits(res: &BiconnectedResult) -> (r: bool)
    ensures
        r == bc_fits(res.articulation_points@, blocks_view(res.blocks@)),
{
    let ghost aps = res.articulation_points@;
    let ghost bv = blocks_view(res.blocks@);
    let na = res.articulation_points.len() as u64;
    let nb = res.blocks.len() as u64;
    if na > u32::MAX as u64 || nb > u32::MAX as u64 - na {
        return false;
    }
    let mut count: u64 = 0;
    let mut b: usize = 0;
    while b < res.blocks.len()
        invariant
            aps == res.articulation_points@,
            bv == blocks_view(res.blocks@),
            aps.len() + bv.len() <= u32::MAX,
            b <= bv.len(),
            count == tree_links(aps, bv, b as int).len(),
            count <= u32::MAX,
        decreases bv.len() - b,
    {
        let block = &res.blocks[b];
        assert(block@ == bv[b as int]);
        let ns = exec_block_nodes(block);
        let ghost bidx = aps.len() + b;
        let mut j: usize = 0;
        assert(ns@.take(0) =~= Seq::<usize>::empty());
        while j < ns.len()
            invariant
                aps == res.articulation_points@,
                bv == blocks_view(res.blocks@),
                b < bv.len(),
                block@ == bv[b as int],
                ns@ == block_nodes(block@),
                bidx == aps.len() + b,
                j <= ns.len(),
                count == tree_links(aps, bv, b as int).len() + block_links(aps, block@, ns@.take(j as int), bidx).len(),
                count <= u32::MAX,
            decreases ns.len() - j,
        {
            assert(ns@.take(j + 1).drop_last() =~= ns@.take(j as int));
            if find_index(&res.articulation_points, ns[j]).is_some() {
                count = count + 1;
                if count > u32::MAX as u64 {
                    proof {
                        lemma_block_links_grow(aps, block@, ns@, j + 1, bidx);
                        lemma_tree_links_grow(aps, bv, b + 1, bv.len() as int);
                        assert(tree_links(aps, bv, b + 1) == tree_links(aps, bv, b as int) + block_links(
                            aps,
                            bv[b as int],
                            block_nodes(bv[b as int]),
                            bidx,
                        ));
                    }
                    return false;
                }
            }
            j += 1;
        }
        proof {
            assert(ns@.take(ns.len() as int) =~= ns@);
            assert(tree_links(aps, bv, b + 1) == tree_links(aps, bv, b as int) + block_links(
                aps,
                bv[b as int],
                block_nodes(bv[b as int]),
                bidx,
            ));
        }
        b += 1;
    }
    true
}

proof fn lemma_shapes(nodes: Seq<BCNode>, aps: Seq<usize>, blocks: Seq<Seq<(usize, usize, Pin)>>)
    requires
        tree_nodes_are(nodes, aps, blocks),
    ensures
        nodes.map_values(|n: BCNode| node_shape(n)) == bc_shapes(aps, blocks),
{
    let m = nodes.map_values(|n: BCNode| node_shape(n));
    let sh = bc_shapes(aps, blocks);
    assert forall|i: int| 0 <= i < nodes.len() implies #[trigger] m[i] == sh[i] by {
        if i >= aps.len() {
            let b = i - aps.len();
            assert(nodes[aps.len() + b] == nodes[i]);
        }
    }
    assert(nodes.map_values(|n: BCNode| node_shape(n)) =~= bc_shapes(aps, blocks));
}

/// The block-cut tree of a drawing and what the comparison reads of it.
fn figure_bc_tree(grid: &Vec<Vec<char>>) -> (r: Option<petgraph::graph::Graph<BCNode, Pin, petgraph::Undirected, u32>>)
    requires
        grid_ok(grid_view(grid@)),
    ensures
        match r {
            Some(t) => figure_tree(grid_view(grid@)) == Some(tree_view(t)) && edges_ok(tree_edges(t), tree_nodes(t).len()),
            None => figure_tree(grid_view(grid@)) is None,
        },
{
    let fig = figure_from_grid(grid);
    let res = BiconnectedResult::from_graph(&fig);
    assert(blocks_view(res.blocks@) =~= Seq::new(res.blocks@.len(), |i: int| res.blocks@[i]@));
    if !fits(&res) {
        return None;
    }
    let tree = build_bc_tree(&fig, &res);
    let ghost aps = res.articulation_points@;
    let ghost bv = blocks_view(res.blocks@);
    proof {
        lemma_tree_links_between(aps, bv, bv.len() as int);
        lemma_shapes(tree_nodes(tree), aps, bv);
    }
    Some(tree)
}

/// Whether the figures of two drawings can be turned into each other by mirroring
/// horizontally, vertically or both; `None` where it cannot be decided.
pub fn figures_transformable(grid_a: &Vec<Vec<char>>, grid_b: &Vec<Vec<char>>) -> (r: Option<bool>)
    requires
        grid_ok(grid_view(grid_a@)),
        grid_ok(grid_view(grid_b@)),
    ensures
        r == figures_compare(grid_view(grid_a@), grid_view(grid_b@)),
{
    let ta = figure_bc_tree(grid_a);
    let tb = figure_bc_tree(grid_b);
    match (ta, tb) {
        (Some(ta), Some(tb)) => trees_transformable(&ta, &tb),
        _ => None,
    }
}

/// A drawing shows the same figure as itself: comparing a drawing with itself never
/// answers that it does not, unless its block-cut tree has no node (as when no
/// stick meets the first joint).
pub proof fn lemma_drawing_matches_itself(g: Seq<Seq<char>>)
    ensures
        figures_compare(g, g) != Some(false) || (figure_tree(g) matches Some(t) && t.nodes.len() == 0),
{
    if let Some(t) = figure_tree(g) {
        let s = bc_search(edges_above(g, g.len() as int), joints_above(g, g.len() as int));
        lemma_tree_links_between(s.aps, s.blocks, s.blocks.len() as int);
        assert(edges_ok(t.edges, t.nodes.len()));
        if t.nodes.len() > 0 {
            lemma_tree_matches_itself(t);
        }
    }
}

} // verus!
