//! Stick figures drawn on a grid: their graphs, with each stick as an edge that
//! records its direction, and the block-cut trees of those graphs, kept as
//! `petgraph` graphs.

use vstd::prelude::*;

use petgraph::graph::{Graph, NodeIndex};
use petgraph::visit::EdgeRef;
use petgraph::Undirected;

verus! {

/// The direction of a stick.
#[derive(PartialEq, Eq, Debug, Copy, Clone, Hash, Structural)]
pub enum Axis {
    Horizontal,
    Vertical,
}

/// A stick: its axis and its sign (1 or -1) along that axis.
#[derive(PartialEq, Eq, Debug, Copy, Clone, Hash, Structural)]
pub struct Pin {
    pub axis: Axis,
    pub sign: i8,
}

/// A node of a block-cut tree: an articulation point of the figure (by node
/// index), or a block with the (dx, dy) vectors of its sticks.
#[derive(Debug, Clone)]
pub enum BCNode {
    ArticulationPoint(usize),
    Block { edges: Vec<(i32, i32)> },
}

/// The number of nodes of a figure graph.
pub uninterp spec fn figure_size(g: Graph<(), Pin, Undirected, u32>) -> nat;

/// The edges of a figure graph as (end, end, stick), in the order they were added.
pub uninterp spec fn figure_edges(g: Graph<(), Pin, Undirected, u32>) -> Seq<(int, int, Pin)>;

/// The nodes of a block-cut tree, in the order they were added.
pub uninterp spec fn tree_nodes(g: Graph<BCNode, Pin, Undirected, u32>) -> Seq<BCNode>;

/// The edges of a block-cut tree as (end, end, stick), in the order they were added.
pub uninterp spec fn tree_edges(g: Graph<BCNode, Pin, Undirected, u32>) -> Seq<(int, int, Pin)>;

/// The edges whose first end is `u`, most recently added first, as (other end, stick).
pub open spec fn outgoing(edges: Seq<(int, int, Pin)>, u: int) -> Seq<(int, Pin)>
    decreases edges.len(),
{
    if edges.len() == 0 {
        Seq::empty()
    } else {
        let e = edges.last();
        let rest = outgoing(edges.drop_last(), u);
        if e.0 == u {
            seq![(e.1, e.2)] + rest
        } else {
            rest
        }
    }
}

/// The edges whose second end is `u` and first end another node, most recently
/// added first, as (other end, stick).
pub open spec fn incoming(edges: Seq<(int, int, Pin)>, u: int) -> Seq<(int, Pin)>
    decreases edges.len(),
{
    if edges.len() == 0 {
        Seq::empty()
    } else {
        let e = edges.last();
        let rest = incoming(edges.drop_last(), u);
        if e.1 == u && e.0 != u {
            seq![(e.0, e.2)] + rest
        } else {
            rest
        }
    }
}

/// The edges at `u` in the order an undirected `petgraph` graph lists them: those
/// added with `u` first, then the others, each part most recent first.
pub open spec fn incident(edges: Seq<(int, int, Pin)>, u: int) -> Seq<(int, Pin)> {
    outgoing(edges, u) + incoming(edges, u)
}

/// `Graph::default`: an empty figure graph.
#[verifier::external_body]
pub(crate) fn new_figure() -> (g: Graph<(), Pin, Undirected, u32>)
    ensures
        figure_size(g) == 0,
        figure_edges(g) == Seq::<(int, int, Pin)>::empty(),
{
    Graph::default()
}

/// `Graph::add_node`: a new node, numbered after the others; it panics only when
/// the index type is full, which `requires` rules out.
#[verifier::external_body]
pub(crate) fn figure_add_node(g: &mut Graph<(), Pin, Undirected, u32>) -> (i: usize)
    requires
        figure_size(*old(g)) < u32::MAX,
    ensures
        figure_size(*final(g)) == figure_size(*old(g)) + 1,
        figure_edges(*final(g)) == figure_edges(*old(g)),
        i == figure_size(*old(g)),
{
    g.add_node(()).index()
}

/// `Graph::add_edge`: appends an edge between two existing nodes.
#[verifier::external_body]
pub(crate) fn figure_add_edge(g: &mut Graph<(), Pin, Undirected, u32>, a: usize, b: usize, pin: Pin)
    requires
        a < figure_size(*old(g)),
        b < figure_size(*old(g)),
        figure_edges(*old(g)).len() < u32::MAX,
    ensures
        figure_size(*final(g)) == figure_size(*old(g)),
        figure_edges(*final(g)) == figure_edges(*old(g)).push((a as int, b as int, pin)),
{
    g.add_edge(NodeIndex::new(a), NodeIndex::new(b), pin);
}

/// `Graph::node_count`.
#[verifier::external_body]
pub(crate) fn figure_node_count(g: &Graph<(), Pin, Undirected, u32>) -> (n: usize)
    ensures
        n == figure_size(*g),
{
    g.node_count()
}

/// `Graph::edges` at node `u`: each edge at `u` as (other end, stick), in the
/// order the source of `petgraph` 0.8 shows for undirected graphs.
#[verifier::external_body]
pub(crate) fn figure_incident(g: &Graph<(), Pin, Undirected, u32>, u: usize) -> (r: Vec<(usize, Pin)>)
    requires
        u < figure_size(*g),
    ensures
        r@.len() == incident(figure_edges(*g), u as int).len(),
        forall|i: int|
            0 <= i < r@.len() ==> (#[trigger] r@[i]).0 as int == incident(figure_edges(*g), u as int)[i].0
                && r@[i].1 == incident(figure_edges(*g), u as int)[i].1,
{
    g.edges(NodeIndex::new(u)).map(|e| (e.target().index(), *e.weight())).collect()
}

/// `Graph::default`: an empty block-cut tree.
#[verifier::external_body]
pub(crate) fn new_tree() -> (g: Graph<BCNode, Pin, Undirected, u32>)
    ensures
        tree_nodes(g) == Seq::<BCNode>::empty(),
        tree_edges(g) == Seq::<(int, int, Pin)>::empty(),
{
    Graph::default()
}

/// `Graph::add_node`: appends a node and returns its index.
#[verifier::external_body]
pub(crate) fn tree_add_node(g: &mut Graph<BCNode, Pin, Undirected, u32>, n: BCNode) -> (i: usize)
    requires
        tree_nodes(*old(g)).len() < u32::MAX,
    ensures
        tree_nodes(*final(g)) == tree_nodes(*old(g)).push(n),
        tree_edges(*final(g)) == tree_edges(*old(g)),
        i == tree_nodes(*old(g)).len(),
{
    g.add_node(n).index()
}

/// `Graph::add_edge`: appends an edge between two existing nodes.
#[verifier::external_body]
pub(crate) fn tree_add_edge(g: &mut Graph<BCNode, Pin, Undirected, u32>, a: usize, b: usize, pin: Pin)
    requires
        a < tree_nodes(*old(g)).len(),
        b < tree_nodes(*old(g)).len(),
        tree_edges(*old(g)).len() < u32::MAX,
    ensures
        tree_nodes(*final(g)) == tree_nodes(*old(g)),
        tree_edges(*final(g)) == tree_edges(*old(g)).push((a as int, b as int, pin)),
{
    g.add_edge(NodeIndex::new(a), NodeIndex::new(b), pin);
}

/// `Graph::node_count`.
#[verifier::external_body]
pub(crate) fn tree_node_count(g: &Graph<BCNode, Pin, Undirected, u32>) -> (n: usize)
    ensures
        n == tree_nodes(*g).len(),
{
    g.node_count()
}

/// Indexing a block-cut tree by node: the node's weight.
#[verifier::external_body]
pub(crate) fn tree_node(g: &Graph<BCNode, Pin, Undirected, u32>, u: usize) -> (n: &BCNode)
    requires
        u < tree_nodes(*g).len(),
    ensures
        *n == tree_nodes(*g)[u as int],
{
    &g[NodeIndex::new(u)]
}

/// `Graph::edges` at node `u`: each edge at `u` as (other end, stick), in the
/// order the source of `petgraph` 0.8 shows for undirected graphs.
#[verifier::external_body]
pub(crate) fn tree_incident(g: &Graph<BCNode, Pin, Undirected, u32>, u: usize) -> (r: Vec<(usize, Pin)>)
    requires
        u < tree_nodes(*g).len(),
    ensures
        r@.len() == incident(tree_edges(*g), u as int).len(),
        forall|i: int|
            0 <= i < r@.len() ==> (#[trigger] r@[i]).0 as int == incident(tree_edges(*g), u as int)[i].0
                && r@[i].1 == incident(tree_edges(*g), u as int)[i].1,
{
    g.edges(NodeIndex::new(u)).map(|e| (e.target().index(), *e.weight())).collect()
}

/// `Graph::neighbors` at node `u`: the other end of each edge at `u`, in the same
/// order as `Graph::edges`.
#[verifier::external_body]
pub(crate) fn tree_neighbors(g: &Graph<BCNode, Pin, Undirected, u32>, u: usize) -> (r: Vec<usize>)
    requires
        u < tree_nodes(*g).len(),
    ensures
        r@.len() == incident(tree_edges(*g), u as int).len(),
        forall|i: int| 0 <= i < r@.len() ==> #[trigger] r@[i] as int == incident(tree_edges(*g), u as int)[i].0,
{
    g.neighbors(NodeIndex::new(u)).map(|n| n.index()).collect()
}

} // verus!
