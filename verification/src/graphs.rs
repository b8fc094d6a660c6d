//! The graph type of `petgraph` as the library uses it, and walks in edge lists.

use vstd::prelude::*;

use petgraph::graph::Graph;
use petgraph::Undirected;

verus! {

/// `petgraph`'s adjacency-list graph, opaque to Verus.
#[verifier::external_type_specification]
#[verifier::external_body]
#[verifier::reject_recursive_types(N)]
#[verifier::reject_recursive_types(E)]
#[verifier::reject_recursive_types(Ty)]
#[verifier::reject_recursive_types(Ix)]
pub struct ExGraph<N, E, Ty, Ix>(Graph<N, E, Ty, Ix>);

/// `petgraph`'s marker for undirected graphs.
#[verifier::external_type_specification]
#[verifier::external_body]
pub struct ExUndirected(Undirected);

/// Edge `e` of `edges` joins `x` and `y`, in either direction.
pub open spec fn joins(edges: Seq<(int, int, int)>, e: int, x: int, y: int) -> bool {
    0 <= e < edges.len() && ((edges[e].0 == x && edges[e].1 == y) || (edges[e].0 == y && edges[e].1 == x))
}

/// `nodes` is a walk from `a` to `b` that goes along the edges `hops`.
pub open spec fn is_walk(edges: Seq<(int, int, int)>, nodes: Seq<int>, hops: Seq<int>, a: int, b: int) -> bool {
    &&& nodes.len() == hops.len() + 1
    &&& nodes[0] == a
    &&& nodes.last() == b
    &&& forall|i: int| 0 <= i < hops.len() ==> #[trigger] joins(edges, hops[i], nodes[i], nodes[i + 1])
}

/// Total weight of the edges `hops`.
pub open spec fn walk_cost(edges: Seq<(int, int, int)>, hops: Seq<int>) -> int
    decreases hops.len(),
{
    if hops.len() == 0 {
        0
    } else {
        walk_cost(edges, hops.drop_last()) + edges[hops.last()].2
    }
}

/// Some walk leads from `a` to `b`.
pub open spec fn reachable(edges: Seq<(int, int, int)>, a: int, b: int) -> bool {
    exists|nodes: Seq<int>, hops: Seq<int>| is_walk(edges, nodes, hops, a, b)
}

/// `d` is the least total weight of a walk from `a` to `b`.
pub open spec fn is_shortest(edges: Seq<(int, int, int)>, a: int, b: int, d: int) -> bool {
    &&& exists|nodes: Seq<int>, hops: Seq<int>| is_walk(edges, nodes, hops, a, b) && walk_cost(edges, hops) == d
    &&& forall|nodes: Seq<int>, hops: Seq<int>| is_walk(edges, nodes, hops, a, b) ==> walk_cost(edges, hops) >= d
}

/// Node indices as integers.
pub open spec fn ints(s: Seq<usize>) -> Seq<int> {
    s.map_values(|x: usize| x as int)
}

/// Every edge joins two of the `n` nodes.
pub open spec fn edges_in_range(edges: Seq<(int, int, int)>, n: int) -> bool {
    forall|e: int| 0 <= e < edges.len() ==> 0 <= #[trigger] edges[e].0 < n && 0 <= edges[e].1 < n
}

/// Sum of the edge weights.
pub open spec fn total_weight(edges: Seq<(int, int, int)>) -> int
    decreases edges.len(),
{
    if edges.len() == 0 {
        0
    } else {
        total_weight(edges.drop_last()) + edges.last().2
    }
}

/// With non-negative weights every walk costs at least nothing.
pub proof fn lemma_walk_cost_nonneg(edges: Seq<(int, int, int)>, hops: Seq<int>)
    requires
        forall|e: int| 0 <= e < edges.len() ==> #[trigger] edges[e].2 >= 0,
        forall|i: int| 0 <= i < hops.len() ==> 0 <= #[trigger] hops[i] < edges.len(),
    ensures
        walk_cost(edges, hops) >= 0,
    decreases hops.len(),
{
    if hops.len() > 0 {
        lemma_walk_cost_nonneg(edges, hops.drop_last());
        assert(0 <= hops[hops.len() - 1] < edges.len());
    }
}

/// A shortest distance over non-negative weights is not negative.
pub proof fn lemma_shortest_nonneg(edges: Seq<(int, int, int)>, a: int, b: int, d: int)
    requires
        forall|e: int| 0 <= e < edges.len() ==> #[trigger] edges[e].2 >= 0,
        is_shortest(edges, a, b, d),
    ensures
        d >= 0,
{
    let (nodes, hops) = choose|nodes: Seq<int>, hops: Seq<int>| is_walk(edges, nodes, hops, a, b) && walk_cost(edges, hops) == d;
    assert forall|i: int| 0 <= i < hops.len() implies 0 <= #[trigger] hops[i] < edges.len() by {
        assert(joins(edges, hops[i], nodes[i], nodes[i + 1]));
    }
    lemma_walk_cost_nonneg(edges, hops);
}

/// The nodes of a walk in a graph of `n` nodes are nodes of the graph.
pub proof fn lemma_walk_in_range(edges: Seq<(int, int, int)>, n: int, nodes: Seq<int>, hops: Seq<int>, a: int, b: int)
    requires
        edges_in_range(edges, n),
        is_walk(edges, nodes, hops, a, b),
        0 <= a < n,
    ensures
        forall|i: int| 0 <= i < nodes.len() ==> 0 <= #[trigger] nodes[i] < n,
{
    assert forall|i: int| 0 <= i < nodes.len() implies 0 <= #[trigger] nodes[i] < n by {
        if i > 0 {
            let k = i - 1;
            assert(joins(edges, hops[k], nodes[k], nodes[k + 1]));
        }
    }
}

/// The least weight of a walk between two nodes is one number.
pub proof fn lemma_shortest_unique(edges: Seq<(int, int, int)>, a: int, b: int, d1: int, d2: int)
    requires
        is_shortest(edges, a, b, d1),
        is_shortest(edges, a, b, d2),
    ensures
        d1 == d2,
{
    let w1 = choose|nodes: Seq<int>, hops: Seq<int>| is_walk(edges, nodes, hops, a, b) && walk_cost(edges, hops) == d1;
    let w2 = choose|nodes: Seq<int>, hops: Seq<int>| is_walk(edges, nodes, hops, a, b) && walk_cost(edges, hops) == d2;
    assert(is_walk(edges, w1.0, w1.1, a, b));
    assert(is_walk(edges, w2.0, w2.1, a, b));
}

/// With weights of at most `m` each, `k` edges weigh at most `k * m` in all.
pub proof fn lemma_total_weight_bound(edges: Seq<(int, int, int)>, m: int)
    requires
        forall|e: int| 0 <= e < edges.len() ==> 0 <= #[trigger] edges[e].2 <= m,
    ensures
        0 <= total_weight(edges) <= edges.len() * m,
    decreases edges.len(),
{
    if edges.len() > 0 {
        lemma_total_weight_bound(edges.drop_last(), m);
        assert(edges.drop_last().len() * m + m == edges.len() * m) by (nonlinear_arith)
            requires
                edges.drop_last().len() + 1 == edges.len(),
        ;
    }
}

} // verus!
