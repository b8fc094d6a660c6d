//! The block-cut tree of a figure: a node for each articulation point and for each
//! block, the block recording the vectors of its sticks, and an edge from each block
//! to each articulation point on it.

use vstd::prelude::*;

use petgraph::graph::Graph;
use petgraph::Undirected;

use crate::blocks::BiconnectedResult;
use crate::figures::{new_tree, tree_add_edge, tree_add_node, tree_edges, tree_nodes, Axis, BCNode, Pin};

verus! {

/// Index of the first occurrence of `x` in `s`, or -1.
pub open spec fn first_index(s: Seq<usize>, x: usize) -> int
    decreases s.len(),
{
    if s.len() == 0 {
        -1
    } else if first_index(s.drop_last(), x) >= 0 {
        first_index(s.drop_last(), x)
    } else if s.last() == x {
        s.len() - 1
    } else {
        -1
    }
}

/// The (dx, dy) vector of a stick.
pub open spec fn stick_vector(p: Pin) -> (i32, i32) {
    (
        if p.axis == Axis::Horizontal { p.sign as i32 } else { 0 },
        if p.axis == Axis::Vertical { p.sign as i32 } else { 0 },
    )
}

/// The vectors of the sticks of a block, in order.
pub open spec fn block_vectors(es: Seq<(usize, usize, Pin)>) -> Seq<(i32, i32)> {
    es.map_values(|e: (usize, usize, Pin)| stick_vector(e.2))
}

/// The vector of a stick along its axis: `(sign, 0)` for a horizontal stick,
/// `(0, sign)` for a vertical one.
pub open spec fn vector_of_stick(p: Pin, v: (i32, i32)) -> bool {
    &&& p.axis == Axis::Horizontal ==> v == (p.sign as i32, 0i32)
    &&& p.axis == Axis::Vertical ==> v == (0i32, p.sign as i32)
}

/// A block's vectors are its sticks, one for one and in order: as many vectors as the
/// block has edges, the `k`-th along the stick of the `k`-th edge.
pub proof fn lemma_block_vectors_one_per_edge(es: Seq<(usize, usize, Pin)>)
    ensures
        block_vectors(es).len() == es.len(),
        forall|k: int| 0 <= k < es.len() ==> vector_of_stick(es[k].2, #[trigger] block_vectors(es)[k]),
{
}

/// `ns` with `x` appended unless it is there.
pub open spec fn with_node(ns: Seq<usize>, x: usize) -> Seq<usize> {
    if ns.contains(x) {
        ns
    } else {
        ns.push(x)
    }
}

/// The nodes of a block's edges, in order of first mention.
pub open spec fn block_nodes(es: Seq<(usize, usize, Pin)>) -> Seq<usize>
    decreases es.len(),
{
    if es.len() == 0 {
        Seq::empty()
    } else {
        let e = es.last();
        with_node(with_node(block_nodes(es.drop_last()), e.0), e.1)
    }
}

/// The stick of the first edge of the block at node `n`.
pub open spec fn first_pin(es: Seq<(usize, usize, Pin)>, n: usize) -> Pin
    decreases es.len(),
{
    if es.len() == 0 {
        Pin { axis: Axis::Horizontal, sign: 0 }
    } else if es[0].0 == n || es[0].1 == n {
        es[0].2
    } else {
        first_pin(es.drop_first(), n)
    }
}

/// The edges from block node `b` to the articulation points among `ns`, in order.
pub open spec fn block_links(aps: Seq<usize>, es: Seq<(usize, usize, Pin)>, ns: Seq<usize>, b: int) -> Seq<(int, int, Pin)>
    decreases ns.len(),
{
    if ns.len() == 0 {
        Seq::empty()
    } else {
        let n = ns.last();
        let rest = block_links(aps, es, ns.drop_last(), b);
        if first_index(aps, n) >= 0 {
            rest.push((b, first_index(aps, n), first_pin(es, n)))
        } else {
            rest
        }
    }
}

/// The edges of the block-cut tree contributed by the first `k` blocks.
pub open spec fn tree_links(aps: Seq<usize>, blocks: Seq<Seq<(usize, usize, Pin)>>, k: int) -> Seq<(int, int, Pin)>
    decreases k,
{
    if k <= 0 {
        Seq::empty()
    } else {
        tree_links(aps, blocks, k - 1) + block_links(aps, blocks[k - 1], block_nodes(blocks[k - 1]), aps.len() + k - 1)
    }
}

/// The nodes of the block-cut tree: first the articulation points in order, then the
/// blocks in order, each with its stick vectors.
pub open spec fn tree_nodes_are(nodes: Seq<BCNode>, aps: Seq<usize>, blocks: Seq<Seq<(usize, usize, Pin)>>) -> bool {
    &&& nodes.len() == aps.len() + blocks.len()
    &&& forall|i: int| 0 <= i < aps.len() ==> #[trigger] nodes[i] == BCNode::ArticulationPoint(aps[i])
    &&& forall|b: int|
        0 <= b < blocks.len() ==> match #[trigger] nodes[aps.len() + b] {
            BCNode::Block { edges } => edges@ == block_vectors(blocks[b]),
            _ => false,
        }
}

/// The blocks as sequences of edges.
pub open spec fn blocks_view(blocks: Seq<Vec<(usize, usize, Pin)>>) -> Seq<Seq<(usize, usize, Pin)>> {
    Seq::new(blocks.len(), |i: int| blocks[i]@)
}

pub(crate) fn find_index(s: &Vec<usize>, x: usize) -> (r: Option<usize>)
    ensures
        match r {
            Some(i) => first_index(s@, x) == i && i < s@.len(),
            None => first_index(s@, x) == -1,
        },
{
    let mut i: usize = 0;
    while i < s.len()
        invariant
            i <= s.len(),
            first_index(s@.take(i as int), x) == -1,
        decreases s.len() - i,
    {
        proof {
            assert(s@.take(i + 1).drop_last() =~= s@.take(i as int));
        }
        if s[i] == x {
            proof {
                lemma_first_index_prefix(s@, i + 1, x);
            }
            return Some(i);
        }
        i += 1;
    }
    assert(s@.take(s.len() as int) =~= s@);
    None
}

proof fn lemma_first_index_prefix(s: Seq<usize>, k: int, x: usize)
    requires
        0 <= k <= s.len(),
        first_index(s.take(k), x) >= 0,
    ensures
        first_index(s, x) == first_index(s.take(k), x),
    decreases s.len() - k,
{
    if k < s.len() {
        assert(s.take(k + 1).drop_last() =~= s.take(k));
        lemma_first_index_prefix(s, k + 1, x);
    } else {
        assert(s.take(k) =~= s);
    }
}

proof fn lemma_first_index_bound(s: Seq<usize>, x: usize)
    ensures
        -1 <= first_index(s, x) < s.len(),
    decreases s.len(),
{
    if s.len() > 0 {
        lemma_first_index_bound(s.drop_last(), x);
    }
}

proof fn lemma_block_links_between(aps: Seq<usize>, es: Seq<(usize, usize, Pin)>, ns: Seq<usize>, b: int)
    ensures
        forall|e: int|
            0 <= e < block_links(aps, es, ns, b).len() ==> (#[trigger] block_links(aps, es, ns, b)[e]).0 == b
                && 0 <= block_links(aps, es, ns, b)[e].1 < aps.len(),
    decreases ns.len(),
{
    if ns.len() > 0 {
        lemma_block_links_between(aps, es, ns.drop_last(), b);
        lemma_first_index_bound(aps, ns.last());
        let rest = block_links(aps, es, ns.drop_last(), b);
        let all = block_links(aps, es, ns, b);
        assert forall|e: int| 0 <= e < all.len() implies (#[trigger] all[e]).0 == b && 0 <= all[e].1 < aps.len() by {
            if e < rest.len() {
                assert(all[e] == rest[e]);
            }
        }
    }
}

/// Every edge of the block-cut tree joins a block node (first end) to an
/// articulation-point node (second end): the tree is bipartite between the two kinds.
pub proof fn lemma_tree_links_between(aps: Seq<usize>, blocks: Seq<Seq<(usize, usize, Pin)>>, k: int)
    requires
        0 <= k <= blocks.len(),
    ensures
        forall|e: int|
            0 <= e < tree_links(aps, blocks, k).len() ==> aps.len() <= (#[trigger] tree_links(aps, blocks, k)[e]).0
                < aps.len() + blocks.len() && 0 <= tree_links(aps, blocks, k)[e].1 < aps.len(),
    decreases k,
{
    if k > 0 {
        lemma_tree_links_between(aps, blocks, k - 1);
        lemma_block_links_between(aps, blocks[k - 1], block_nodes(blocks[k - 1]), aps.len() + k - 1);
        let a = tree_links(aps, blocks, k - 1);
        let l = block_links(aps, blocks[k - 1], block_nodes(blocks[k - 1]), aps.len() + k - 1);
        assert forall|e: int| 0 <= e < tree_links(aps, blocks, k).len() implies aps.len() <= (#[trigger] tree_links(aps, blocks, k)[e]).0
                < aps.len() + blocks.len() && 0 <= tree_links(aps, blocks, k)[e].1 < aps.len() by {
            if e < a.len() {
                assert(tree_links(aps, blocks, k)[e] == a[e]);
            } else {
                assert(tree_links(aps, blocks, k)[e] == l[e - a.len()]);
            }
        }
    }
}

fn exec_first_pin(es: &Vec<(usize, usize, Pin)>, n: usize) -> (p: Pin)
    ensures
        p == first_pin(es@, n),
{
    let mut i: usize = 0;
    assert(es@.skip(0) =~= es@);
    while i < es.len()
        invariant
            i <= es.len(),
            first_pin(es@, n) == first_pin(es@.skip(i as int), n),
        decreases es.len() - i,
    {
        let e = es[i];
        proof {
            assert(es@.skip(i as int)[0] == e);
            assert(es@.skip(i as int).drop_first() =~= es@.skip(i + 1));
        }
        if e.0 == n || e.1 == n {
            return e.2;
        }
        i += 1;
    }
    assert(es@.skip(es.len() as int) =~= Seq::<(usize, usize, Pin)>::empty());
    Pin { axis: Axis::Horizontal, sign: 0 }
}

pub(crate) fn exec_block_nodes(es: &Vec<(usize, usize, Pin)>) -> (ns: Vec<usize>)
    ensures
        ns@ == block_nodes(es@),
{
    let mut ns: Vec<usize> = Vec::new();
    let mut i: usize = 0;
    while i < es.len()
        invariant
            i <= es.len(),
            ns@ == block_nodes(es@.take(i as int)),
        decreases es.len() - i,
    {
        let e = es[i];
        proof {
            assert(es@.take(i + 1).drop_last() =~= es@.take(i as int));
        }
        if find_index(&ns, e.0).is_none() {
            proof {
                lemma_first_index_contains(ns@, e.0);
            }
            ns.push(e.0);
        } else {
            proof {
                lemma_first_index_contains(ns@, e.0);
            }
        }
        if find_index(&ns, e.1).is_none() {
            proof {
                lemma_first_index_contains(ns@, e.1);
            }
            ns.push(e.1);
        } else {
            proof {
                lemma_first_index_contains(ns@, e.1);
            }
        }
        i += 1;
    }
    assert(es@.take(es.len() as int) =~= es@);
    ns
}

proof fn lemma_first_index_contains(s: Seq<usize>, x: usize)
    ensures
        (first_index(s, x) >= 0) == s.contains(x),
    decreases s.len(),
{
    if s.len() > 0 {
        let d = s.drop_last();
        lemma_first_index_contains(d, x);
        if d.contains(x) {
            let j = choose|j: int| 0 <= j < d.len() && d[j] == x;
            assert(s[j] == x);
        }
        if s.contains(x) && !d.contains(x) {
            let j = choose|j: int| 0 <= j < s.len() && s[j] == x;
            if j < s.len() - 1 {
                assert(d[j] == x);
            }
        }
    }
}

proof fn lemma_first_index_below(s: Seq<usize>, x: usize)
    ensures
        -1 <= first_index(s, x) < s.len(),
    decreases s.len(),
{
    if s.len() > 0 {
        lemma_first_index_below(s.drop_last(), x);
    }
}

proof fn lemma_block_links_ends(aps: Seq<usize>, es: Seq<(usize, usize, Pin)>, ns: Seq<usize>, b: int, i: int)
    requires
        0 <= i < block_links(aps, es, ns, b).len(),
    ensures
        block_links(aps, es, ns, b)[i].0 == b,
        0 <= block_links(aps, es, ns, b)[i].1 < aps.len(),
    decreases ns.len(),
{
    if ns.len() > 0 {
        let rest = block_links(aps, es, ns.drop_last(), b);
        lemma_first_index_below(aps, ns.last());
        if i < rest.len() {
            lemma_block_links_ends(aps, es, ns.drop_last(), b, i);
        }
    }
}

/// Every edge of the block-cut tree joins a block to an articulation point: its first
/// end is the node of one of the blocks, its second that of an articulation point.
pub proof fn lemma_links_join_block_and_point(aps: Seq<usize>, blocks: Seq<Seq<(usize, usize, Pin)>>, k: int, i: int)
    requires
        0 <= k <= blocks.len(),
        0 <= i < tree_links(aps, blocks, k).len(),
    ensures
        aps.len() <= tree_links(aps, blocks, k)[i].0 < aps.len() + blocks.len(),
        0 <= tree_links(aps, blocks, k)[i].1 < aps.len(),
    decreases k,
{
    let before = tree_links(aps, blocks, k - 1);
    if i < before.len() {
        lemma_links_join_block_and_point(aps, blocks, k - 1, i);
    } else {
        lemma_block_links_ends(aps, blocks[k - 1], block_nodes(blocks[k - 1]), aps.len() + k - 1, i - before.len());
    }
}

/// The block-cut tree of these blocks stays within the node and edge indices of its
/// graph: at most `u32::MAX` nodes and `u32::MAX` edges.
pub open spec fn bc_fits(aps: Seq<usize>, blocks: Seq<Seq<(usize, usize, Pin)>>) -> bool {
    aps.len() + blocks.len() <= u32::MAX && tree_links(aps, blocks, blocks.len() as int).len() <= u32::MAX
}

/// The links of the first `k` blocks are no more than those of the first `m`.
pub proof fn lemma_tree_links_grow(aps: Seq<usize>, blocks: Seq<Seq<(usize, usize, Pin)>>, k: int, m: int)
    requires
        0 <= k <= m <= blocks.len(),
    ensures
        tree_links(aps, blocks, k).len() <= tree_links(aps, blocks, m).len(),
    decreases m - k,
{
    if k < m {
        lemma_tree_links_grow(aps, blocks, k, m - 1);
    }
}

/// The links of a block from the first `j` of its nodes are no more than from all.
pub proof fn lemma_block_links_grow(aps: Seq<usize>, es: Seq<(usize, usize, Pin)>, ns: Seq<usize>, j: int, b: int)
    requires
        0 <= j <= ns.len(),
    ensures
        block_links(aps, es, ns.take(j), b).len() <= block_links(aps, es, ns, b).len(),
    decreases ns.len() - j,
{
    if j < ns.len() {
        assert(ns.take(j + 1).drop_last() =~= ns.take(j));
        lemma_block_links_grow(aps, es, ns, j + 1, b);
    } else {
        assert(ns.take(j) =~= ns);
    }
}

/// Builds the block-cut tree: the articulation points first, then each block with
/// the vectors of its sticks and an edge to each articulation point among its nodes
/// (in order of first mention), carrying the stick of the block's first edge there.
pub fn build_bc_tree(_figure: &Graph<(), Pin, Undirected, u32>, res: &BiconnectedResult) -> (tree: Graph<BCNode, Pin, Undirected, u32>)
    requires
        bc_fits(res.articulation_points@, blocks_view(res.blocks@)),
    ensures
        tree_nodes_are(tree_nodes(tree), res.articulation_points@, blocks_view(res.blocks@)),
        forall|b: int|
            0 <= b < res.blocks@.len() ==> match #[trigger] tree_nodes(tree)[res.articulation_points@.len() + b] {
                BCNode::Block { edges } => edges@.len() == res.blocks@[b]@.len() && forall|k: int|
                    0 <= k < edges@.len() ==> vector_of_stick(res.blocks@[b]@[k].2, #[trigger] edges@[k]),
                _ => false,
            },
        tree_edges(tree) == tree_links(res.articulation_points@, blocks_view(res.blocks@), res.blocks@.len() as int),
{
    let ghost aps = res.articulation_points@;
    let ghost blocks = blocks_view(res.blocks@);
    let mut tree = new_tree();
    let mut k: usize = 0;
    while k < res.articulation_points.len()
        invariant
            aps == res.articulation_points@,
            k <= aps.len(),
            aps.len() + res.blocks@.len() <= u32::MAX,
            tree_nodes(tree).len() == k,
            forall|i: int| 0 <= i < k ==> #[trigger] tree_nodes(tree)[i] == BCNode::ArticulationPoint(aps[i]),
            tree_edges(tree) == Seq::<(int, int, Pin)>::empty(),
        decreases aps.len() - k,
    {
        tree_add_node(&mut tree, BCNode::ArticulationPoint(res.articulation_points[k]));
        k += 1;
    }
    let mut b: usize = 0;
    while b < res.blocks.len()
        invariant
            aps == res.articulation_points@,
            blocks == blocks_view(res.blocks@),
            b <= blocks.len(),
            bc_fits(aps, blocks),
            tree_nodes(tree).len() == aps.len() + b,
            forall|i: int| 0 <= i < aps.len() ==> #[trigger] tree_nodes(tree)[i] == BCNode::ArticulationPoint(aps[i]),
            forall|bb: int|
                0 <= bb < b ==> match #[trigger] tree_nodes(tree)[aps.len() + bb] {
                    BCNode::Block { edges } => edges@ == block_vectors(blocks[bb]),
                    _ => false,
                },
            tree_edges(tree) == tree_links(aps, blocks, b as int),
        decreases blocks.len() - b,
    {
        let block = &res.blocks[b];
        assert(block@ == blocks[b as int]);
        let mut vecs: Vec<(i32, i32)> = Vec::new();
        let mut q: usize = 0;
        while q < block.len()
            invariant
                q <= block.len(),
                vecs@ == block_vectors(block@.take(q as int)),
            decreases block.len() - q,
        {
            let e = block[q];
            let dx: i32 = if e.2.axis == Axis::Horizontal { e.2.sign as i32 } else { 0 };
            let dy: i32 = if e.2.axis == Axis::Vertical { e.2.sign as i32 } else { 0 };
            vecs.push((dx, dy));
            q += 1;
            assert(vecs@ =~= block_vectors(block@.take(q as int)));
        }
        assert(block@.take(block.len() as int) =~= block@);
        let ghost nodes_before = tree_nodes(tree);
        let ghost vecs_view = vecs@;
        let bidx = tree_add_node(&mut tree, BCNode::Block { edges: vecs });
        let ghost nodes_after = tree_nodes(tree);
        proof {
            assert(nodes_after[aps.len() + b] == nodes_after.last());
            assert forall|bb: int|
                0 <= bb < b + 1 implies match #[trigger] nodes_after[aps.len() + bb] {
                    BCNode::Block { edges } => edges@ == block_vectors(blocks[bb]),
                    _ => false,
                } by {
                if bb < b {
                    assert(nodes_after[aps.len() + bb] == nodes_before[aps.len() + bb]);
                }
            }
            assert forall|i: int| 0 <= i < aps.len() implies #[trigger] nodes_after[i] == BCNode::ArticulationPoint(aps[i]) by {
                assert(nodes_after[i] == nodes_before[i]);
            }
        }
        let ns = exec_block_nodes(block);
        let ghost links_before = tree_edges(tree);
        proof {
            lemma_tree_links_grow(aps, blocks, b + 1, blocks.len() as int);
            assert(tree_links(aps, blocks, b + 1) == tree_links(aps, blocks, b as int) + block_links(
                aps,
                blocks[b as int],
                block_nodes(blocks[b as int]),
                aps.len() + b,
            ));
        }
        let mut j: usize = 0;
        while j < ns.len()
            invariant
                aps == res.articulation_points@,
                block@ == blocks[b as int],
                ns@ == block_nodes(block@),
                j <= ns.len(),
                bidx == aps.len() + b,
                tree_nodes(tree) == nodes_after,
                tree_nodes(tree).len() == aps.len() + b + 1,
                links_before == tree_links(aps, blocks, b as int),
                links_before.len() + block_links(aps, block@, ns@, bidx as int).len() <= u32::MAX,
                tree_edges(tree) == links_before + block_links(aps, block@, ns@.take(j as int), bidx as int),
            decreases ns.len() - j,
        {
            let nd = ns[j];
            proof {
                assert(ns@.take(j + 1).drop_last() =~= ns@.take(j as int));
                lemma_block_links_grow(aps, block@, ns@, j + 1, bidx as int);
            }
            match find_index(&res.articulation_points, nd) {
                Some(a_idx) => {
                    let pin = exec_first_pin(block, nd);
                    tree_add_edge(&mut tree, bidx, a_idx, pin);
                },
                None => {},
            }
            j += 1;
        }
        proof {
            assert(ns@.take(ns.len() as int) =~= ns@);
            assert(tree_links(aps, blocks, b + 1) == tree_links(aps, blocks, b as int) + block_links(
                aps,
                blocks[b as int],
                block_nodes(blocks[b as int]),
                aps.len() + b,
            ));
        }
        b += 1;
    }
    proof {
        assert forall|bb: int|
            0 <= bb < res.blocks@.len() implies match #[trigger] tree_nodes(tree)[res.articulation_points@.len() + bb] {
                BCNode::Block { edges } => edges@.len() == res.blocks@[bb]@.len() && forall|k: int|
                    0 <= k < edges@.len() ==> vector_of_stick(res.blocks@[bb]@[k].2, #[trigger] edges@[k]),
                _ => false,
            } by {
            assert(blocks[bb] == res.blocks@[bb]@);
            lemma_block_vectors_one_per_edge(blocks[bb]);
        }
    }
    tree
}

} // verus!
