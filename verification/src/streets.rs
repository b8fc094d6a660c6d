//! The street network of a delivery task as a `petgraph` graph, and distances in it.

use vstd::prelude::*;

use petgraph::graph::{EdgeIndex, Graph, NodeIndex};
use petgraph::Undirected;

use crate::delivery::LocationType;
use crate::graphs::{edges_in_range, ints, is_shortest, is_walk, lemma_shortest_unique, lemma_total_weight_bound, reachable, total_weight, walk_cost};

verus! {

/// The places held by a street graph, in the order they were added.
pub uninterp spec fn street_nodes(g: Graph<LocationType, i32, Undirected, u32>) -> Seq<LocationType>;

/// The streets of a street graph as (end, end, length), in the order they were added.
pub uninterp spec fn street_edges(g: Graph<LocationType, i32, Undirected, u32>) -> Seq<(int, int, int)>;

/// The node sequence that `petgraph::algo::astar` returns between two places.
pub uninterp spec fn astar_street_route(n: nat, edges: Seq<(int, int, int)>, from: int, to: int) -> Option<Seq<int>>;

/// `Graph::new_undirected`: an empty graph.
#[verifier::external_body]
fn new_street_graph() -> (g: Graph<LocationType, i32, Undirected, u32>)
    ensures
        street_nodes(g) == Seq::<LocationType>::empty(),
        street_edges(g) == Seq::<(int, int, int)>::empty(),
{
    Graph::new_undirected()
}

/// `Graph::add_node`: appends a node and returns its index; it panics only when the
/// index type is full, which `requires` rules out.
#[verifier::external_body]
fn street_add_node(g: &mut Graph<LocationType, i32, Undirected, u32>, loc: LocationType) -> (i: usize)
    requires
        street_nodes(*old(g)).len() < u32::MAX,
    ensures
        street_nodes(*final(g)) == street_nodes(*old(g)).push(loc),
        street_edges(*final(g)) == street_edges(*old(g)),
        i == street_nodes(*old(g)).len(),
{
    g.add_node(loc).index()
}

/// `Graph::add_edge`: appends an edge between two existing nodes.
#[verifier::external_body]
fn street_add_edge(g: &mut Graph<LocationType, i32, Undirected, u32>, a: usize, b: usize, w: i32)
    requires
        a < street_nodes(*old(g)).len(),
        b < street_nodes(*old(g)).len(),
        street_edges(*old(g)).len() < u32::MAX,
    ensures
        street_nodes(*final(g)) == street_nodes(*old(g)),
        street_edges(*final(g)) == street_edges(*old(g)).push((a as int, b as int, w as int)),
{
    g.add_edge(NodeIndex::new(a), NodeIndex::new(b), w);
}

/// Indexing a graph by node: the weight of node `i`.
#[verifier::external_body]
pub(crate) fn street_node(g: &Graph<LocationType, i32, Undirected, u32>, i: usize) -> (loc: LocationType)
    requires
        i < street_nodes(*g).len(),
    ensures
        loc == street_nodes(*g)[i as int],
{
    g[NodeIndex::new(i)]
}

/// `Graph::edge_count`.
#[verifier::external_body]
pub(crate) fn street_edge_count(g: &Graph<LocationType, i32, Undirected, u32>) -> (n: usize)
    ensures
        n == street_edges(*g).len(),
{
    g.edge_count()
}

/// `Graph::edge_endpoints` and indexing by edge: the ends and the length of edge `e`.
#[verifier::external_body]
pub(crate) fn street_edge(g: &Graph<LocationType, i32, Undirected, u32>, e: usize) -> (r: (usize, usize, i32))
    requires
        e < street_edges(*g).len(),
    ensures
        (r.0 as int, r.1 as int, r.2 as int) == street_edges(*g)[e as int],
{
    let (a, b) = g.edge_endpoints(EdgeIndex::new(e)).unwrap();
    (a.index(), b.index(), g[EdgeIndex::new(e)])
}

/// A shortest distance from `a` to either end of edge `e`, plus the length of `e`,
/// stays within `i32`.
pub open spec fn fits_from(edges: Seq<(int, int, int)>, a: int, e: int) -> bool {
    forall|b: int, d: int|
        #[trigger] is_shortest(edges, a, b, d) && (edges[e].0 == b || edges[e].1 == b) ==> d + edges[e].2 <= i32::MAX
}

/// The lengths are non-negative, and the sums that the shortest-path searches form
/// stay within `i32`: a shortest distance from one of the `n` places to a place,
/// plus the length of one more street at that place.
pub open spec fn lengths_fit(edges: Seq<(int, int, int)>, n: int) -> bool {
    &&& forall|e: int| 0 <= e < edges.len() ==> #[trigger] edges[e].2 >= 0
    &&& forall|a: int, e: int| 0 <= a < n && 0 <= e < edges.len() ==> #[trigger] fits_from(edges, a, e)
}

/// `petgraph::algo::dijkstra` from `start`, with edge lengths as costs: each node it
/// reaches, by index, with the least length of a walk to it. It reaches every node
/// that some walk reaches; the pairs come in the order of a hash map, which is left
/// unsaid.
#[verifier::external_body]
fn street_scores(g: &Graph<LocationType, i32, Undirected, u32>, start: usize) -> (r: Vec<(usize, i32)>)
    requires
        start < street_nodes(*g).len(),
        edges_in_range(street_edges(*g), street_nodes(*g).len() as int),
        lengths_fit(street_edges(*g), street_nodes(*g).len() as int),
    ensures
        forall|k: int|
            0 <= k < r@.len() ==> (#[trigger] r@[k]).0 < street_nodes(*g).len() && is_shortest(
                street_edges(*g),
                start as int,
                r@[k].0 as int,
                r@[k].1 as int,
            ),
        forall|v: int|
            0 <= v < street_nodes(*g).len() && #[trigger] reachable(street_edges(*g), start as int, v) ==> exists|k: int|
                0 <= k < r@.len() && r@[k].0 == v,
{
    petgraph::algo::dijkstra(g, NodeIndex::new(start), None, |e| *e.weight()).into_iter().map(|(n, c)| (n.index(), c)).collect()
}

/// The least length of a walk from `start` to each node of the map, by node index;
/// `None` for the nodes that no walk reaches.
pub(crate) fn street_distances(m: &StreetMap, start: usize) -> (d: Vec<Option<i32>>)
    requires
        m.wf(),
        start < m.locs@.len(),
        lengths_fit(street_edges(m.graph), m.locs@.len() as int),
    ensures
        d.len() == m.locs@.len(),
        forall|v: int|
            0 <= v < d.len() ==> (#[trigger] d@[v] is Some <==> reachable(street_edges(m.graph), start as int, v)),
        forall|v: int|
            0 <= v < d.len() && #[trigger] d@[v] is Some ==> is_shortest(street_edges(m.graph), start as int, v, d@[v]->0 as int),
{
    let ghost es = street_edges(m.graph);
    let scores = street_scores(&m.graph, start);
    let n = m.locs.len();
    let mut d: Vec<Option<i32>> = Vec::new();
    let mut v: usize = 0;
    while v < n
        invariant
            v <= n,
            d@.len() == v,
            forall|k: int| 0 <= k < v ==> d@[k] is None,
        decreases n - v,
    {
        d.push(None);
        v += 1;
    }
    let mut k: usize = 0;
    while k < scores.len()
        invariant
            es == street_edges(m.graph),
            n == m.locs@.len(),
            n == street_nodes(m.graph).len(),
            k <= scores@.len(),
            d@.len() == n,
            forall|j: int|
                0 <= j < scores@.len() ==> (#[trigger] scores@[j]).0 < n && is_shortest(es, start as int, scores@[j].0 as int, scores@[j].1 as int),
            forall|x: int| 0 <= x < n && #[trigger] d@[x] is Some ==> is_shortest(es, start as int, x, d@[x]->0 as int),
            forall|x: int| 0 <= x < n && #[trigger] d@[x] is Some ==> exists|j: int| 0 <= j < k && scores@[j].0 == x,
            forall|j: int| 0 <= j < k ==> (#[trigger] d@[scores@[j].0 as int]) is Some,
        decreases scores.len() - k,
    {
        let (x, c) = scores[k];
        let ghost before = d@;
        d.set(x, Some(c));
        proof {
            assert forall|y: int| 0 <= y < n && #[trigger] d@[y] is Some implies exists|j: int| 0 <= j < k + 1 && scores@[j].0 == y by {
                if y != x {
                    assert(before[y] is Some);
                    let j = choose|j: int| 0 <= j < k && scores@[j].0 == y;
                }
            }
            assert forall|j: int| 0 <= j < k + 1 implies (#[trigger] d@[scores@[j].0 as int]) is Some by {
                if j < k && scores@[j].0 != x {
                    assert(before[scores@[j].0 as int] is Some);
                }
            }
        }
        k += 1;
    }
    proof {
        assert forall|x: int| 0 <= x < d@.len() implies (#[trigger] d@[x] is Some <==> reachable(es, start as int, x)) by {
            if reachable(es, start as int, x) {
                let j = choose|j: int| 0 <= j < scores@.len() && scores@[j].0 == x;
                assert(d@[scores@[j].0 as int] is Some);
            }
            if d@[x] is Some {
                let w = choose|nodes: Seq<int>, hops: Seq<int>| is_walk(es, nodes, hops, start as int, x) && walk_cost(es, hops) == d@[x]->0 as int;
                assert(is_walk(es, w.0, w.1, start as int, x));
            }
        }
    }
    d
}

/// A length as a wide integer.
pub fn widen(w: i32) -> (r: i128)
    ensures
        r == w,
{
    w as i128
}

/// `petgraph::algo::dijkstra` from `start`, with the lengths widened to `i128` as
/// costs: each node it reaches, by index, with the least length of a walk to it. It
/// reaches every node that some walk reaches; the pairs come in the order of a hash
/// map, which is left unsaid. Every sum it forms is at most twice the total length.
#[verifier::external_body]
fn street_scores_wide(g: &Graph<LocationType, i32, Undirected, u32>, start: usize) -> (r: Vec<(usize, i128)>)
    requires
        start < street_nodes(*g).len(),
        edges_in_range(street_edges(*g), street_nodes(*g).len() as int),
        forall|e: int| 0 <= e < street_edges(*g).len() ==> #[trigger] street_edges(*g)[e].2 >= 0,
        total_weight(street_edges(*g)) <= i128::MAX / 2,
    ensures
        forall|k: int|
            0 <= k < r@.len() ==> (#[trigger] r@[k]).0 < street_nodes(*g).len() && is_shortest(
                street_edges(*g),
                start as int,
                r@[k].0 as int,
                r@[k].1 as int,
            ),
        forall|v: int|
            0 <= v < street_nodes(*g).len() && #[trigger] reachable(street_edges(*g), start as int, v) ==> exists|k: int|
                0 <= k < r@.len() && r@[k].0 == v,
{
    petgraph::algo::dijkstra(g, NodeIndex::new(start), None, |e| widen(*e.weight())).into_iter().map(|(n, c)| (n.index(), c)).collect()
}

/// Whether the sums the shortest-path searches form stay within `i32` (see
/// `lengths_fit`): each search is run once from every place with wide costs.
pub fn lengths_ok(m: &StreetMap) -> (r: bool)
    requires
        m.wf(),
        street_edges(m.graph).len() <= u32::MAX,
    ensures
        r == lengths_fit(street_edges(m.graph), m.locs@.len() as int),
{
    let ghost es = street_edges(m.graph);
    let n = m.locs.len();
    let ne = street_edge_count(&m.graph);
    let mut e: usize = 0;
    while e < ne
        invariant
            es == street_edges(m.graph),
            ne == es.len(),
            e <= ne,
            forall|j: int| 0 <= j < e ==> 0 <= #[trigger] es[j].2 <= i32::MAX,
        decreases ne - e,
    {
        let (_, _, w) = street_edge(&m.graph, e);
        if w < 0 {
            return false;
        }
        e += 1;
    }
    proof {
        lemma_total_weight_bound(es, i32::MAX as int);
        assert(es.len() * (i32::MAX as int) <= i128::MAX / 2) by (nonlinear_arith)
            requires
                es.len() <= u32::MAX,
        ;
    }
    let mut a: usize = 0;
    while a < n
        invariant
            es == street_edges(m.graph),
            m.wf(),
            n == m.locs@.len(),
            ne == es.len(),
            a <= n,
            forall|j: int| 0 <= j < es.len() ==> 0 <= #[trigger] es[j].2 <= i32::MAX,
            total_weight(es) <= i128::MAX / 2,
            forall|a2: int, j: int| 0 <= a2 < a && 0 <= j < es.len() ==> #[trigger] fits_from(es, a2, j),
        decreases n - a,
    {
        let scores = street_scores_wide(&m.graph, a);
        let mut dist: Vec<Option<i128>> = Vec::new();
        let mut v: usize = 0;
        while v < n
            invariant
                v <= n,
                dist@.len() == v,
                forall|x: int| 0 <= x < v ==> dist@[x] is None,
            decreases n - v,
        {
            dist.push(None);
            v += 1;
        }
        let mut k: usize = 0;
        while k < scores.len()
            invariant
                es == street_edges(m.graph),
                n == street_nodes(m.graph).len(),
                k <= scores@.len(),
                dist@.len() == n,
                forall|j: int|
                    0 <= j < scores@.len() ==> (#[trigger] scores@[j]).0 < n && is_shortest(es, a as int, scores@[j].0 as int, scores@[j].1 as int),
                forall|x: int| 0 <= x < n && #[trigger] dist@[x] is Some ==> is_shortest(es, a as int, x, dist@[x]->0 as int),
                forall|j: int| 0 <= j < k ==> (#[trigger] dist@[scores@[j].0 as int]) is Some,
            decreases scores.len() - k,
        {
            let (x, c) = scores[k];
            let ghost before = dist@;
            dist.set(x, Some(c));
            proof {
                assert forall|j: int| 0 <= j < k + 1 implies (#[trigger] dist@[scores@[j].0 as int]) is Some by {
                    if j < k && scores@[j].0 != x {
                        assert(before[scores@[j].0 as int] is Some);
                    }
                }
            }
            k += 1;
        }
        proof {
            assert forall|x: int| 0 <= x < n && reachable(es, a as int, x) implies (#[trigger] dist@[x]) is Some by {
                let j = choose|j: int| 0 <= j < scores@.len() && scores@[j].0 == x;
                assert(dist@[scores@[j].0 as int] is Some);
            }
        }
        let mut e: usize = 0;
        while e < ne
            invariant
                es == street_edges(m.graph),
                m.wf(),
                n == m.locs@.len(),
                ne == es.len(),
                a < n,
                e <= ne,
                dist@.len() == n,
                forall|j: int| 0 <= j < es.len() ==> 0 <= #[trigger] es[j].2 <= i32::MAX,
                forall|x: int| 0 <= x < n && #[trigger] dist@[x] is Some ==> is_shortest(es, a as int, x, dist@[x]->0 as int),
                forall|x: int| 0 <= x < n && reachable(es, a as int, x) ==> (#[trigger] dist@[x]) is Some,
                forall|a2: int, j: int| 0 <= a2 < a && 0 <= j < es.len() ==> #[trigger] fits_from(es, a2, j),
                forall|j: int| 0 <= j < e ==> #[trigger] fits_from(es, a as int, j),
            decreases ne - e,
        {
            let (x, y, w) = street_edge(&m.graph, e);
            assert(0 <= x < n && 0 <= y < n);
            let mut ok = true;
            match dist[x] {
                Some(d) => {
                    if d > i32::MAX as i128 - (w as i128) {
                        ok = false;
                    }
                },
                None => {},
            }
            match dist[y] {
                Some(d) => {
                    if d > i32::MAX as i128 - (w as i128) {
                        ok = false;
                    }
                },
                None => {},
            }
            if !ok {
                proof {
                    assert(!fits_from(es, a as int, e as int)) by {
                        if dist@[x as int] is Some && dist@[x as int]->0 + w > i32::MAX {
                            assert(is_shortest(es, a as int, x as int, dist@[x as int]->0 as int));
                        } else {
                            assert(is_shortest(es, a as int, y as int, dist@[y as int]->0 as int));
                        }
                    }
                }
                return false;
            }
            proof {
                assert forall|b: int, d: int|
                    #[trigger] is_shortest(es, a as int, b, d) && (es[e as int].0 == b || es[e as int].1 == b) implies d + es[e as int].2
                    <= i32::MAX by {
                    let (nodes, hops) = choose|nodes: Seq<int>, hops: Seq<int>| is_walk(es, nodes, hops, a as int, b) && walk_cost(es, hops) == d;
                    assert(reachable(es, a as int, b));
                    lemma_shortest_unique(es, a as int, b, d, dist@[b]->0 as int);
                }
            }
            e += 1;
        }
        a += 1;
    }
    true
}

/// `petgraph::algo::astar` from `from` to `to` with edge lengths as costs and no
/// estimate: its node sequence, first `from` and last `to`, found exactly when `to`
/// is reachable, along a walk of least length. Which of several shortest walks it
/// returns is left unsaid.
#[verifier::external_body]
pub(crate) fn street_route(g: &Graph<LocationType, i32, Undirected, u32>, from: usize, to: usize) -> (r: Option<Vec<usize>>)
    requires
        from < street_nodes(*g).len(),
        to < street_nodes(*g).len(),
        edges_in_range(street_edges(*g), street_nodes(*g).len() as int),
        lengths_fit(street_edges(*g), street_nodes(*g).len() as int),
    ensures
        match r {
            Some(p) => astar_street_route(street_nodes(*g).len(), street_edges(*g), from as int, to as int)
                == Some(ints(p@)),
            None => astar_street_route(street_nodes(*g).len(), street_edges(*g), from as int, to as int) is None,
        },
        r is Some <==> reachable(street_edges(*g), from as int, to as int),
        match r {
            Some(p) => exists|hops: Seq<int>|
                #[trigger] is_walk(street_edges(*g), ints(p@), hops, from as int, to as int) && is_shortest(
                    street_edges(*g),
                    from as int,
                    to as int,
                    walk_cost(street_edges(*g), hops),
                ),
            None => true,
        },
{
    let goal = NodeIndex::new(to);
    let found = petgraph::algo::astar(g, NodeIndex::new(from), |n| n == goal, |e| *e.weight(), |_| 0);
    match found {
        Some((_, path)) => Some(path.iter().map(|n| n.index()).collect()),
        None => None,
    }
}

/// Index of the first occurrence of `x` in `s`, or -1 when there is none.
pub open spec fn index_in(s: Seq<LocationType>, x: LocationType) -> int
    decreases s.len(),
{
    if s.len() == 0 {
        -1
    } else if index_in(s.drop_last(), x) >= 0 {
        index_in(s.drop_last(), x)
    } else if s.last() == x {
        s.len() - 1
    } else {
        -1
    }
}

/// `index_in` finds exactly the places that occur, and finds them.
pub proof fn lemma_index_in(s: Seq<LocationType>, x: LocationType)
    ensures
        (index_in(s, x) >= 0) == s.contains(x),
        index_in(s, x) >= 0 ==> index_in(s, x) < s.len() && s[index_in(s, x)] == x,
        index_in(s, x) >= 0 ==> forall|j: int| 0 <= j < index_in(s, x) ==> s[j] != x,
    decreases s.len(),
{
    if s.len() > 0 {
        let d = s.drop_last();
        lemma_index_in(d, x);
        if d.contains(x) {
            let j = choose|j: int| 0 <= j < d.len() && d[j] == x;
            assert(s[j] == x);
        }
        if s.contains(x) && !d.contains(x) {
            let j = choose|j: int| 0 <= j < s.len() && s[j] == x;
            if j < s.len() - 1 {
                assert(d[j] == x);
            }
            assert forall|j2: int| 0 <= j2 < s.len() - 1 implies s[j2] != x by {
                assert(s[j2] == d[j2]);
            }
        }
        if d.contains(x) {
            assert forall|j2: int| 0 <= j2 < index_in(d, x) implies s[j2] != x by {
                assert(s[j2] == d[j2]);
            }
        }
    }
}

/// `index_in` is unchanged by appending when the place already occurs.
pub proof fn lemma_index_in_push(s: Seq<LocationType>, y: LocationType, x: LocationType)
    ensures
        s.contains(x) ==> index_in(s.push(y), x) == index_in(s, x),
        !s.contains(x) && y == x ==> index_in(s.push(y), x) == s.len(),
{
    lemma_index_in(s, x);
    assert(s.push(y).drop_last() =~= s);
}

/// The first position of `loc` among `locs`.
pub fn find_place(locs: &Vec<LocationType>, loc: LocationType) -> (r: Option<usize>)
    ensures
        match r {
            Some(i) => index_in(locs@, loc) == i,
            None => index_in(locs@, loc) == -1,
        },
{
    let mut i: usize = 0;
    while i < locs.len()
        invariant
            i <= locs.len(),
            forall|j: int| 0 <= j < i ==> locs@[j] != loc,
        decreases locs.len() - i,
    {
        if locs[i] == loc {
            proof {
                lemma_index_in(locs@, loc);
                assert(locs@.contains(loc));
            }
            return Some(i);
        }
        i += 1;
    }
    proof {
        lemma_index_in(locs@, loc);
    }
    None
}

/// `ps` with `l` appended unless it occurs already.
pub open spec fn with_place(ps: Seq<LocationType>, l: LocationType) -> Seq<LocationType> {
    if ps.contains(l) {
        ps
    } else {
        ps.push(l)
    }
}

/// The places named by the first `k` streets, in order of first mention.
pub open spec fn places_upto(streets: Seq<(LocationType, LocationType, u32)>, k: nat) -> Seq<LocationType>
    decreases k,
{
    if k == 0 {
        Seq::empty()
    } else {
        let ps = places_upto(streets, (k - 1) as nat);
        with_place(with_place(ps, streets[k - 1].0), streets[k - 1].1)
    }
}

/// The places of the network: those the streets name, in order of first mention,
/// then the start and the goal if no street names them.
pub open spec fn street_places(streets: Seq<(LocationType, LocationType, u32)>) -> Seq<LocationType> {
    with_place(with_place(places_upto(streets, streets.len()), LocationType::Start), LocationType::Goal)
}

/// The streets as edges between place indices, in input order; a length is read as
/// an `i32`.
pub open spec fn street_list(streets: Seq<(LocationType, LocationType, u32)>, places: Seq<LocationType>) -> Seq<(int, int, int)> {
    Seq::new(
        streets.len(),
        |k: int| (index_in(places, streets[k].0), index_in(places, streets[k].1), (streets[k].2 as i32) as int),
    )
}

/// A street network: the graph, whose node `i` is the place `locs[i]`.
pub struct StreetMap {
    pub graph: Graph<LocationType, i32, Undirected, u32>,
    pub locs: Vec<LocationType>,
}

impl StreetMap {
    /// The graph's places are `locs`, all distinct, and its edges join them.
    pub open spec fn wf(&self) -> bool {
        &&& street_nodes(self.graph) == self.locs@
        &&& edges_in_range(street_edges(self.graph), self.locs@.len() as int)
        &&& self.locs@.len() < u32::MAX
    }
}

proof fn lemma_with_place(ps: Seq<LocationType>, l: LocationType)
    ensures
        with_place(ps, l).contains(l),
        forall|x: LocationType| ps.contains(x) ==> with_place(ps, l).contains(x),
        forall|x: LocationType| ps.contains(x) ==> index_in(with_place(ps, l), x) == index_in(ps, x),
        with_place(ps, l).len() <= ps.len() + 1,
{
    if !ps.contains(l) {
        assert(ps.push(l)[ps.len() as int] == l);
        assert forall|x: LocationType| ps.contains(x) implies ps.push(l).contains(x) by {
            let j = choose|j: int| 0 <= j < ps.len() && ps[j] == x;
            assert(ps.push(l)[j] == x);
        }
        assert forall|x: LocationType| ps.contains(x) implies index_in(ps.push(l), x) == index_in(ps, x) by {
            lemma_index_in_push(ps, l, x);
        }
    }
}

/// `with_place` keeps what was there and adds the place.
pub proof fn lemma_with_place_grows(ps: Seq<LocationType>, l: LocationType)
    ensures
        with_place(ps, l).contains(l),
        forall|x: LocationType| ps.contains(x) ==> with_place(ps, l).contains(x),
{
    lemma_with_place(ps, l);
}

/// Once a place occurs, its index stays the same as more streets are read.
proof fn lemma_places_grow(streets: Seq<(LocationType, LocationType, u32)>, k: nat, m: nat, x: LocationType)
    requires
        k <= m <= streets.len(),
        places_upto(streets, k).contains(x),
    ensures
        places_upto(streets, m).contains(x),
        index_in(places_upto(streets, m), x) == index_in(places_upto(streets, k), x),
    decreases m - k,
{
    if k < m {
        lemma_places_grow(streets, k, (m - 1) as nat, x);
        let ps = places_upto(streets, (m - 1) as nat);
        lemma_with_place(ps, streets[m - 1].0);
        lemma_with_place(with_place(ps, streets[m - 1].0), streets[m - 1].1);
    }
}

/// The places named by the first `k` streets include both ends of each of them.
proof fn lemma_places_contain(streets: Seq<(LocationType, LocationType, u32)>, k: nat, j: int)
    requires
        0 <= j < k <= streets.len(),
    ensures
        places_upto(streets, k).contains(streets[j].0),
        places_upto(streets, k).contains(streets[j].1),
    decreases k,
{
    let ps = places_upto(streets, (k - 1) as nat);
    lemma_with_place(ps, streets[k - 1].0);
    lemma_with_place(with_place(ps, streets[k - 1].0), streets[k - 1].1);
    if j < k - 1 {
        lemma_places_contain(streets, (k - 1) as nat, j);
    }
}

proof fn lemma_places_mono(streets: Seq<(LocationType, LocationType, u32)>, k: nat, n: nat)
    requires
        k <= n <= streets.len(),
    ensures
        places_upto(streets, k).len() <= places_upto(streets, n).len(),
    decreases n - k,
{
    if k < n {
        lemma_places_mono(streets, k, (n - 1) as nat);
    }
}

proof fn lemma_places_len(streets: Seq<(LocationType, LocationType, u32)>, k: nat, n: nat)
    requires
        k <= n <= streets.len(),
    ensures
        places_upto(streets, k).len() <= places_upto(streets, n).len(),
        places_upto(streets, n).len() <= street_places(streets).len(),
{
    lemma_places_mono(streets, k, n);
    lemma_places_mono(streets, n, streets.len());
}

/// The places of the network (see `street_places`), listed without building it.
pub fn place_list(streets: &Vec<(LocationType, LocationType, u32)>) -> (locs: Vec<LocationType>)
    ensures
        locs@ == street_places(streets@),
{
    let mut locs: Vec<LocationType> = Vec::new();
    let mut k: usize = 0;
    while k < streets.len()
        invariant
            k <= streets.len(),
            locs@ == places_upto(streets@, k as nat),
        decreases streets.len() - k,
    {
        let (f, t, _) = streets[k];
        let ghost before = locs@;
        if find_place(&locs, f).is_none() {
            locs.push(f);
        }
        proof {
            lemma_index_in(before, f);
            assert(locs@ == with_place(before, f));
        }
        let ghost mid = locs@;
        if find_place(&locs, t).is_none() {
            locs.push(t);
        }
        proof {
            lemma_index_in(mid, t);
            assert(locs@ == with_place(mid, t));
        }
        k += 1;
    }
    let ghost all = locs@;
    if find_place(&locs, LocationType::Start).is_none() {
        locs.push(LocationType::Start);
    }
    proof {
        lemma_index_in(all, LocationType::Start);
        assert(locs@ == with_place(all, LocationType::Start));
    }
    let ghost mid = locs@;
    if find_place(&locs, LocationType::Goal).is_none() {
        locs.push(LocationType::Goal);
    }
    proof {
        lemma_index_in(mid, LocationType::Goal);
        assert(locs@ == with_place(mid, LocationType::Goal));
        assert(streets@.len() == k);
    }
    locs
}

/// Builds the street graph: a node for each place at its first mention, an edge for
/// each street in order, then the start and the goal if no street names them.
pub fn build_street_map(streets: &Vec<(LocationType, LocationType, u32)>) -> (m: StreetMap)
    requires
        streets.len() <= u32::MAX,
        street_places(streets@).len() < u32::MAX,
    ensures
        m.wf(),
        m.locs@ == street_places(streets@),
        street_edges(m.graph) == street_list(streets@, m.locs@),
{
    let mut graph = new_street_graph();
    let mut locs: Vec<LocationType> = Vec::new();
    let mut k: usize = 0;
    while k < streets.len()
        invariant
            k <= streets.len(),
            streets.len() <= u32::MAX,
            street_places(streets@).len() < u32::MAX,
            street_nodes(graph) == locs@,
            locs@ == places_upto(streets@, k as nat),
            street_edges(graph).len() == k,
            forall|j: int| 0 <= j < k ==> #[trigger] street_edges(graph)[j] == (
                index_in(locs@, streets@[j].0),
                index_in(locs@, streets@[j].1),
                (streets@[j].2 as i32) as int,
            ),
            edges_in_range(street_edges(graph), locs@.len() as int),
        decreases streets.len() - k,
    {
        let (f, t, w) = streets[k];
        let ghost before = locs@;
        proof {
            lemma_places_len(streets@, (k + 1) as nat, streets@.len());
            lemma_with_place(before, f);
            lemma_index_in(before, f);
            lemma_index_in(with_place(before, f), t);
            assert(with_place(before, f).len() <= places_upto(streets@, (k + 1) as nat).len());
        }
        let fi = match find_place(&locs, f) {
            Some(i) => i,
            None => {
                proof {
                    lemma_index_in(locs@, f);
                }
                let i = street_add_node(&mut graph, f);
                locs.push(f);
                i
            },
        };
        proof {
            lemma_index_in(before, f);
            lemma_with_place(before, f);
            assert(locs@ == with_place(before, f));
            lemma_index_in(locs@, f);
        }
        let ghost mid = locs@;
        let ti = match find_place(&locs, t) {
            Some(i) => i,
            None => {
                proof {
                    lemma_index_in(locs@, t);
                }
                let i = street_add_node(&mut graph, t);
                locs.push(t);
                i
            },
        };
        proof {
            lemma_index_in(mid, t);
            lemma_with_place(mid, t);
            assert(locs@ == with_place(mid, t));
            lemma_index_in(locs@, t);
            lemma_index_in(locs@, f);
        }
        street_add_edge(&mut graph, fi, ti, w as i32);
        proof {
            assert(locs@ == places_upto(streets@, (k + 1) as nat));
            assert forall|j: int| 0 <= j < k + 1 implies #[trigger] street_edges(graph)[j] == (
                index_in(locs@, streets@[j].0),
                index_in(locs@, streets@[j].1),
                (streets@[j].2 as i32) as int,
            ) by {
                if j < k {
                    lemma_places_contain(streets@, k as nat, j);
                    assert(index_in(mid, streets@[j].0) == index_in(before, streets@[j].0));
                    assert(index_in(mid, streets@[j].1) == index_in(before, streets@[j].1));
                }
            }
        }
        k += 1;
    }
    let ghost all = locs@;
    let ghost edges_all = street_edges(graph);
    if find_place(&locs, LocationType::Start).is_none() {
        proof {
            lemma_index_in(locs@, LocationType::Start);
        }
        street_add_node(&mut graph, LocationType::Start);
        locs.push(LocationType::Start);
    }
    proof {
        lemma_index_in(all, LocationType::Start);
        lemma_with_place(all, LocationType::Start);
        assert(locs@ == with_place(all, LocationType::Start));
    }
    let ghost mid = locs@;
    if find_place(&locs, LocationType::Goal).is_none() {
        proof {
            lemma_index_in(locs@, LocationType::Goal);
        }
        street_add_node(&mut graph, LocationType::Goal);
        locs.push(LocationType::Goal);
    }
    proof {
        lemma_index_in(mid, LocationType::Goal);
        lemma_with_place(mid, LocationType::Goal);
        assert(locs@ == with_place(mid, LocationType::Goal));
        assert(streets@.len() == k);
        assert(street_edges(graph) =~= street_list(streets@, locs@)) by {
            assert forall|j: int| 0 <= j < streets@.len() implies street_edges(graph)[j] == street_list(streets@, locs@)[j] by {
                lemma_places_contain(streets@, k as nat, j);
                assert(mid.contains(streets@[j].0) && mid.contains(streets@[j].1));
            }
        }
        assert(edges_in_range(street_edges(graph), locs@.len() as int));
    }
    StreetMap { graph, locs }
}

} // verus!
