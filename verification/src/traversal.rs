//! Depth-first traversal of adjacency lists in preorder.

use vstd::prelude::*;

use crate::flags::{count_unvisited, lemma_count_mono, lemma_count_update};

verus! {

/// The adjacency lists as sequences.
pub open spec fn adj_view(lists: Seq<Vec<usize>>) -> Seq<Seq<usize>> {
    Seq::new(lists.len(), |i: int| lists[i]@)
}

/// Every neighbour entry of every adjacency list names a node of the graph.
pub open spec fn adjacency_in_range(adj: Seq<Seq<usize>>) -> bool {
    forall|u: int, k: int| 0 <= u < adj.len() && 0 <= k < adj[u].len() ==> #[trigger] adj[u][k] < adj.len()
}

/// Preorder depth-first visit of `node`: mark it, emit it, then visit each not yet
/// marked neighbour in list order. Returns the flags afterwards and the emitted nodes.
/// `fuel` only bounds the recursion; it is large enough when it exceeds the number of
/// unmarked nodes once `node` is marked.
pub open spec fn dfs_from(adj: Seq<Seq<usize>>, node: int, visited: Seq<bool>, fuel: nat) -> (Seq<bool>, Seq<usize>)
    decreases fuel, 0nat, 0int,
{
    if fuel == 0 {
        (visited, Seq::empty())
    } else {
        let r = dfs_over(adj, adj[node], 0, visited.update(node, true), (fuel - 1) as nat);
        (r.0, seq![node as usize] + r.1)
    }
}

/// Visits, in order, the not yet marked nodes among `nbrs[i..]`.
pub open spec fn dfs_over(adj: Seq<Seq<usize>>, nbrs: Seq<usize>, i: int, visited: Seq<bool>, fuel: nat) -> (Seq<bool>, Seq<usize>)
    decreases fuel, 1nat, nbrs.len() - i,
{
    if i < 0 || i >= nbrs.len() {
        (visited, Seq::empty())
    } else if !visited[nbrs[i] as int] {
        let r1 = dfs_from(adj, nbrs[i] as int, visited, fuel);
        let r2 = dfs_over(adj, nbrs, i + 1, r1.0, fuel);
        (r2.0, r1.1 + r2.1)
    } else {
        dfs_over(adj, nbrs, i + 1, visited, fuel)
    }
}

/// Preorder depth-first visit of `node` with flags `visited`, as `_dfs` performs it.
pub open spec fn dfs_visit(adj: Seq<Seq<usize>>, node: int, visited: Seq<bool>) -> (Seq<bool>, Seq<usize>) {
    dfs_from(adj, node, visited, count_unvisited(visited.update(node, true)) + 1)
}


/// The flags only ever turn on, and the visited node ends marked.
proof fn lemma_from_grows(adj: Seq<Seq<usize>>, node: int, visited: Seq<bool>, fuel: nat)
    requires
        adjacency_in_range(adj),
        visited.len() == adj.len(),
        0 <= node < adj.len(),
    ensures
        dfs_from(adj, node, visited, fuel).0.len() == adj.len(),
        forall|k: int| 0 <= k < adj.len() && visited[k] ==> #[trigger] dfs_from(adj, node, visited, fuel).0[k],
        fuel > 0 ==> dfs_from(adj, node, visited, fuel).0[node],
    decreases fuel, 0nat, 0int,
{
    if fuel > 0 {
        let marked = visited.update(node, true);
        lemma_over_grows(adj, adj[node], 0, marked, (fuel - 1) as nat);
    }
}

proof fn lemma_over_grows(adj: Seq<Seq<usize>>, nbrs: Seq<usize>, i: int, visited: Seq<bool>, fuel: nat)
    requires
        adjacency_in_range(adj),
        visited.len() == adj.len(),
        forall|k: int| 0 <= k < nbrs.len() ==> #[trigger] nbrs[k] < adj.len(),
    ensures
        dfs_over(adj, nbrs, i, visited, fuel).0.len() == adj.len(),
        forall|k: int| 0 <= k < adj.len() && visited[k] ==> #[trigger] dfs_over(adj, nbrs, i, visited, fuel).0[k],
    decreases fuel, 1nat, nbrs.len() - i,
{
    if 0 <= i < nbrs.len() {
        let nb = nbrs[i] as int;
        if !visited[nb] {
            lemma_from_grows(adj, nb, visited, fuel);
            let r1 = dfs_from(adj, nb, visited, fuel);
            lemma_over_grows(adj, nbrs, i + 1, r1.0, fuel);
        } else {
            lemma_over_grows(adj, nbrs, i + 1, visited, fuel);
        }
    }
}

/// Any fuel above the number of unmarked nodes gives the same visit.
proof fn lemma_from_fuel(adj: Seq<Seq<usize>>, node: int, visited: Seq<bool>, f1: nat, f2: nat)
    requires
        adjacency_in_range(adj),
        visited.len() == adj.len(),
        0 <= node < adj.len(),
        count_unvisited(visited.update(node, true)) < f1,
        count_unvisited(visited.update(node, true)) < f2,
    ensures
        dfs_from(adj, node, visited, f1) == dfs_from(adj, node, visited, f2),
    decreases f1, 0nat, 0int,
{
    let marked = visited.update(node, true);
    lemma_over_fuel(adj, adj[node], 0, marked, (f1 - 1) as nat, (f2 - 1) as nat);
}

proof fn lemma_over_fuel(adj: Seq<Seq<usize>>, nbrs: Seq<usize>, i: int, visited: Seq<bool>, f1: nat, f2: nat)
    requires
        adjacency_in_range(adj),
        visited.len() == adj.len(),
        forall|k: int| 0 <= k < nbrs.len() ==> #[trigger] nbrs[k] < adj.len(),
        count_unvisited(visited) <= f1,
        count_unvisited(visited) <= f2,
    ensures
        dfs_over(adj, nbrs, i, visited, f1) == dfs_over(adj, nbrs, i, visited, f2),
    decreases f1, 1nat, nbrs.len() - i,
{
    if 0 <= i < nbrs.len() {
        let nb = nbrs[i] as int;
        if !visited[nb] {
            lemma_count_update(visited, nb);
            lemma_from_fuel(adj, nb, visited, f1, f2);
            lemma_from_grows(adj, nb, visited, f1);
            let r1 = dfs_from(adj, nb, visited, f1);
            lemma_count_mono(visited.update(nb, true), r1.0);
            lemma_over_fuel(adj, nbrs, i + 1, r1.0, f1, f2);
        } else {
            lemma_over_fuel(adj, nbrs, i + 1, visited, f1, f2);
        }
    }
}

/// No node occurs twice.
pub open spec fn distinct(s: Seq<usize>) -> bool {
    forall|i: int, j: int| 0 <= i < j < s.len() ==> s[i] != s[j]
}

proof fn lemma_from_fresh(adj: Seq<Seq<usize>>, node: int, visited: Seq<bool>, fuel: nat)
    requires
        adjacency_in_range(adj),
        visited.len() == adj.len(),
        0 <= node < adj.len(),
        adj.len() <= usize::MAX,
        !visited[node],
    ensures
        ({
            let r = dfs_from(adj, node, visited, fuel);
            &&& r.0.len() == adj.len()
            &&& distinct(r.1)
            &&& forall|i: int| 0 <= i < r.1.len() ==> #[trigger] r.1[i] < adj.len() && !visited[r.1[i] as int]
            &&& forall|k: int| 0 <= k < adj.len() ==> (#[trigger] r.0[k] <==> (visited[k] || r.1.contains(k as usize)))
            &&& fuel > 0 ==> r.1.len() > 0 && r.1[0] == node
        }),
    decreases fuel, 0nat, 0int,
{
    if fuel > 0 {
        let marked = visited.update(node, true);
        lemma_over_fresh(adj, adj[node], 0, marked, (fuel - 1) as nat);
        let r = dfs_over(adj, adj[node], 0, marked, (fuel - 1) as nat);
        let o = seq![node as usize] + r.1;
        assert forall|i: int, j: int| 0 <= i < j < o.len() implies o[i] != o[j] by {
            if i == 0 {
                assert(o[j] == r.1[j - 1]);
                assert(!marked[r.1[j - 1] as int]);
            } else {
                assert(o[i] == r.1[i - 1] && o[j] == r.1[j - 1]);
            }
        }
        assert forall|i: int| 0 <= i < o.len() implies #[trigger] o[i] < adj.len() && !visited[o[i] as int] by {
            if i > 0 {
                assert(o[i] == r.1[i - 1]);
            }
        }
        assert forall|k: int| 0 <= k < adj.len() implies (#[trigger] r.0[k] <==> (visited[k] || o.contains(k as usize))) by {
            if k == node {
                assert(o[0] == k as usize);
            }
            if r.1.contains(k as usize) {
                let j = choose|j: int| 0 <= j < r.1.len() && r.1[j] == k as usize;
                assert(o[j + 1] == k as usize);
            }
            if o.contains(k as usize) {
                let j = choose|j: int| 0 <= j < o.len() && o[j] == k as usize;
                if j > 0 {
                    assert(r.1[j - 1] == k as usize);
                }
            }
        }
    }
}

proof fn lemma_over_fresh(adj: Seq<Seq<usize>>, nbrs: Seq<usize>, i: int, visited: Seq<bool>, fuel: nat)
    requires
        adjacency_in_range(adj),
        visited.len() == adj.len(),
        forall|k: int| 0 <= k < nbrs.len() ==> #[trigger] nbrs[k] < adj.len(),
        adj.len() <= usize::MAX,
    ensures
        ({
            let r = dfs_over(adj, nbrs, i, visited, fuel);
            &&& r.0.len() == adj.len()
            &&& distinct(r.1)
            &&& forall|j: int| 0 <= j < r.1.len() ==> #[trigger] r.1[j] < adj.len() && !visited[r.1[j] as int]
            &&& forall|k: int| 0 <= k < adj.len() ==> (#[trigger] r.0[k] <==> (visited[k] || r.1.contains(k as usize)))
        }),
    decreases fuel, 1nat, nbrs.len() - i,
{
    if 0 <= i < nbrs.len() {
        let nb = nbrs[i] as int;
        if !visited[nb] {
            lemma_from_fresh(adj, nb, visited, fuel);
            let r1 = dfs_from(adj, nb, visited, fuel);
            lemma_over_fresh(adj, nbrs, i + 1, r1.0, fuel);
            let r2 = dfs_over(adj, nbrs, i + 1, r1.0, fuel);
            let o = r1.1 + r2.1;
            assert forall|x: int| 0 <= x < r1.1.len() implies r1.0[#[trigger] r1.1[x] as int] by {
                assert(r1.1.contains(r1.1[x]));
            }
            assert forall|a: int, b: int| 0 <= a < b < o.len() implies o[a] != o[b] by {
                if a < r1.1.len() && b >= r1.1.len() {
                    assert(o[b] == r2.1[b - r1.1.len()]);
                    assert(!r1.0[r2.1[b - r1.1.len()] as int]);
                    assert(r1.0[r1.1[a] as int]);
                } else if a >= r1.1.len() {
                    assert(o[a] == r2.1[a - r1.1.len()] && o[b] == r2.1[b - r1.1.len()]);
                } else {
                    assert(o[a] == r1.1[a] && o[b] == r1.1[b]);
                }
            }
            assert forall|j: int| 0 <= j < o.len() implies #[trigger] o[j] < adj.len() && !visited[o[j] as int] by {
                if j < r1.1.len() {
                    assert(o[j] == r1.1[j]);
                } else {
                    assert(o[j] == r2.1[j - r1.1.len()]);
                    assert(!r1.0[r2.1[j - r1.1.len()] as int]);
                }
            }
            assert forall|k: int| 0 <= k < adj.len() implies (#[trigger] r2.0[k] <==> (visited[k] || o.contains(k as usize))) by {
                if r1.1.contains(k as usize) {
                    let j = choose|j: int| 0 <= j < r1.1.len() && r1.1[j] == k as usize;
                    assert(o[j] == k as usize);
                }
                if r2.1.contains(k as usize) {
                    let j = choose|j: int| 0 <= j < r2.1.len() && r2.1[j] == k as usize;
                    assert(o[j + r1.1.len()] == k as usize);
                }
                if o.contains(k as usize) {
                    let j = choose|j: int| 0 <= j < o.len() && o[j] == k as usize;
                    if j < r1.1.len() {
                        assert(r1.1[j] == k as usize);
                    } else {
                        assert(r2.1[j - r1.1.len()] == k as usize);
                    }
                }
            }
        } else {
            lemma_over_fresh(adj, nbrs, i + 1, visited, fuel);
        }
    } else {
        assert forall|k: int| 0 <= k < adj.len() implies (#[trigger] visited[k] <==> (visited[k] || Seq::<usize>::empty().contains(k as usize))) by {}
    }
}

/// A depth-first traversal from `start` lists `start` first and no node twice; the
/// nodes it lists are exactly those it marks.
pub proof fn lemma_dfs_once(adj: Seq<Seq<usize>>, start: int)
    requires
        adjacency_in_range(adj),
        0 <= start < adj.len(),
        adj.len() <= usize::MAX,
    ensures
        ({
            let r = dfs_visit(adj, start, Seq::new(adj.len(), |i: int| false));
            &&& r.1.len() > 0 && r.1[0] == start
            &&& distinct(r.1)
            &&& forall|i: int| 0 <= i < r.1.len() ==> #[trigger] r.1[i] < adj.len()
            &&& forall|k: int| 0 <= k < adj.len() ==> (#[trigger] r.0[k] <==> r.1.contains(k as usize))
        }),
{
    let none = Seq::new(adj.len(), |i: int| false);
    lemma_from_fresh(adj, start, none, count_unvisited(none.update(start, true)) + 1);
}

proof fn lemma_from_closed(adj: Seq<Seq<usize>>, node: int, visited: Seq<bool>, fuel: nat)
    requires
        adjacency_in_range(adj),
        visited.len() == adj.len(),
        0 <= node < adj.len(),
        !visited[node],
        count_unvisited(visited.update(node, true)) < fuel,
    ensures
        ({
            let r = dfs_from(adj, node, visited, fuel);
            forall|x: int, j: int|
                0 <= x < adj.len() && r.0[x] && !visited[x] && 0 <= j < adj[x].len() ==> r.0[#[trigger] adj[x][j] as int]
        }),
    decreases fuel, 0nat, 0int,
{
    let marked = visited.update(node, true);
    lemma_over_closed(adj, adj[node], 0, marked, (fuel - 1) as nat);
    let r = dfs_from(adj, node, visited, fuel);
    assert forall|x: int, j: int|
        0 <= x < adj.len() && r.0[x] && !visited[x] && 0 <= j < adj[x].len() implies r.0[#[trigger] adj[x][j] as int] by {
        if x != node {
            assert(!marked[x]);
        }
    }
}

proof fn lemma_over_closed(adj: Seq<Seq<usize>>, nbrs: Seq<usize>, i: int, visited: Seq<bool>, fuel: nat)
    requires
        adjacency_in_range(adj),
        visited.len() == adj.len(),
        forall|k: int| 0 <= k < nbrs.len() ==> #[trigger] nbrs[k] < adj.len(),
        count_unvisited(visited) <= fuel,
        0 <= i,
    ensures
        ({
            let r = dfs_over(adj, nbrs, i, visited, fuel);
            &&& forall|x: int, j: int|
                0 <= x < adj.len() && r.0[x] && !visited[x] && 0 <= j < adj[x].len() ==> r.0[#[trigger] adj[x][j] as int]
            &&& forall|k: int| i <= k < nbrs.len() ==> r.0[#[trigger] nbrs[k] as int]
        }),
    decreases fuel, 1nat, nbrs.len() - i,
{
    lemma_over_grows(adj, nbrs, i, visited, fuel);
    if i < nbrs.len() {
        let nb = nbrs[i] as int;
        if !visited[nb] {
            lemma_count_update(visited, nb);
            lemma_from_closed(adj, nb, visited, fuel);
            lemma_from_grows(adj, nb, visited, fuel);
            let r1 = dfs_from(adj, nb, visited, fuel);
            lemma_count_mono(visited, r1.0);
            lemma_over_closed(adj, nbrs, i + 1, r1.0, fuel);
            lemma_over_grows(adj, nbrs, i + 1, r1.0, fuel);
            let r2 = dfs_over(adj, nbrs, i + 1, r1.0, fuel);
            assert forall|x: int, j: int|
                0 <= x < adj.len() && r2.0[x] && !visited[x] && 0 <= j < adj[x].len() implies r2.0[#[trigger] adj[x][j] as int] by {
                if r1.0[x] {
                    assert(r1.0[adj[x][j] as int]);
                }
            }
            assert forall|k: int| i <= k < nbrs.len() implies r2.0[#[trigger] nbrs[k] as int] by {
                if k == i {
                    assert(r1.0[nb]);
                }
            }
        } else {
            lemma_over_closed(adj, nbrs, i + 1, visited, fuel);
        }
    }
}

/// `to` can be reached from `from` along at most `steps` adjacency entries.
pub open spec fn reaches(adj: Seq<Seq<usize>>, from: int, to: int, steps: nat) -> bool
    decreases steps,
{
    from == to || (steps > 0 && exists|x: int, j: int|
        0 <= x < adj.len() && 0 <= j < adj[x].len() && #[trigger] adj[x][j] as int == to
            && reaches(adj, from, x, (steps - 1) as nat))
}

/// `to` can be reached from `from` along adjacency entries.
pub open spec fn reachable(adj: Seq<Seq<usize>>, from: int, to: int) -> bool {
    exists|n: nat| #[trigger] reaches(adj, from, to, n)
}

/// One more adjacency entry from a reachable node reaches its target.
pub proof fn lemma_step_reachable(adj: Seq<Seq<usize>>, from: int, x: int, j: int)
    requires
        reachable(adj, from, x),
        0 <= x < adj.len(),
        0 <= j < adj[x].len(),
    ensures
        reachable(adj, from, adj[x][j] as int),
{
    let n = choose|n: nat| #[trigger] reaches(adj, from, x, n);
    assert(reaches(adj, from, adj[x][j] as int, n + 1));
}

/// `big` holds every list of `small` as a prefix of its own.
pub open spec fn extends(big: Seq<Seq<usize>>, small: Seq<Seq<usize>>) -> bool {
    &&& big.len() == small.len()
    &&& forall|x: int| 0 <= x < small.len() ==> small[x].len() <= #[trigger] big[x].len()
    &&& forall|x: int, j: int| 0 <= x < small.len() && 0 <= j < small[x].len() ==> #[trigger] big[x][j] == small[x][j]
}

/// What can be reached in adjacency lists can be reached once the lists grow.
pub proof fn lemma_reaches_grows(big: Seq<Seq<usize>>, small: Seq<Seq<usize>>, from: int, to: int, steps: nat)
    requires
        extends(big, small),
        reaches(small, from, to, steps),
    ensures
        reaches(big, from, to, steps),
    decreases steps,
{
    if from != to {
        let (x, j) = choose|x: int, j: int|
            0 <= x < small.len() && 0 <= j < small[x].len() && #[trigger] small[x][j] as int == to
                && reaches(small, from, x, (steps - 1) as nat);
        lemma_reaches_grows(big, small, from, x, (steps - 1) as nat);
        assert(big[x][j] == small[x][j]);
    }
}

/// `to` can be reached from `from` along at most `steps` adjacency entries, every
/// node after `from` unmarked in `marked`.
pub open spec fn reaches_unmarked(adj: Seq<Seq<usize>>, marked: Seq<bool>, from: int, to: int, steps: nat) -> bool
    decreases steps,
{
    from == to || (steps > 0 && !marked[to] && exists|x: int, j: int|
        0 <= x < adj.len() && 0 <= j < adj[x].len() && #[trigger] adj[x][j] as int == to
            && reaches_unmarked(adj, marked, from, x, (steps - 1) as nat))
}

/// `to` can be reached from `from` through nodes unmarked in `marked`.
pub open spec fn reachable_unmarked(adj: Seq<Seq<usize>>, marked: Seq<bool>, from: int, to: int) -> bool {
    exists|n: nat| #[trigger] reaches_unmarked(adj, marked, from, to, n)
}

proof fn lemma_step_unmarked(adj: Seq<Seq<usize>>, marked: Seq<bool>, from: int, x: int, j: int)
    requires
        reachable_unmarked(adj, marked, from, x),
        0 <= x < adj.len(),
        0 <= j < adj[x].len(),
        !marked[adj[x][j] as int],
    ensures
        reachable_unmarked(adj, marked, from, adj[x][j] as int),
{
    let n = choose|n: nat| #[trigger] reaches_unmarked(adj, marked, from, x, n);
    assert(reaches_unmarked(adj, marked, from, adj[x][j] as int, n + 1));
}

proof fn lemma_from_sound(adj: Seq<Seq<usize>>, v0: Seq<bool>, start: int, node: int, visited: Seq<bool>, fuel: nat)
    requires
        adjacency_in_range(adj),
        visited.len() == adj.len(),
        v0.len() == adj.len(),
        forall|k: int| 0 <= k < adj.len() && k != node && v0[k] ==> #[trigger] visited[k],
        0 <= node < adj.len(),
        adj.len() <= usize::MAX,
        reachable_unmarked(adj, v0, start, node),
    ensures
        forall|i: int| 0 <= i < dfs_from(adj, node, visited, fuel).1.len()
            ==> reachable_unmarked(adj, v0, start, #[trigger] dfs_from(adj, node, visited, fuel).1[i] as int),
    decreases fuel, 0nat, 0int,
{
    if fuel > 0 {
        let marked = visited.update(node, true);
        lemma_over_sound(adj, v0, start, node, 0, marked, (fuel - 1) as nat);
        let r = dfs_over(adj, adj[node], 0, marked, (fuel - 1) as nat);
        let o = seq![node as usize] + r.1;
        assert forall|i: int| 0 <= i < o.len() implies reachable_unmarked(adj, v0, start, #[trigger] o[i] as int) by {
            if i > 0 {
                assert(o[i] == r.1[i - 1]);
            }
        }
    }
}

proof fn lemma_over_sound(adj: Seq<Seq<usize>>, v0: Seq<bool>, start: int, x: int, i: int, visited: Seq<bool>, fuel: nat)
    requires
        adjacency_in_range(adj),
        visited.len() == adj.len(),
        v0.len() == adj.len(),
        forall|k: int| 0 <= k < adj.len() && v0[k] ==> #[trigger] visited[k],
        0 <= x < adj.len(),
        adj.len() <= usize::MAX,
        reachable_unmarked(adj, v0, start, x),
    ensures
        forall|k: int| 0 <= k < dfs_over(adj, adj[x], i, visited, fuel).1.len()
            ==> reachable_unmarked(adj, v0, start, #[trigger] dfs_over(adj, adj[x], i, visited, fuel).1[k] as int),
    decreases fuel, 1nat, adj[x].len() - i,
{
    let nbrs = adj[x];
    if 0 <= i < nbrs.len() {
        let nb = nbrs[i] as int;
        if !visited[nb] {
            assert(!v0[nb]);
            lemma_step_unmarked(adj, v0, start, x, i);
            lemma_from_sound(adj, v0, start, nb, visited, fuel);
            let r1 = dfs_from(adj, nb, visited, fuel);
            lemma_from_grows(adj, nb, visited, fuel);
            lemma_over_sound(adj, v0, start, x, i + 1, r1.0, fuel);
            let r2 = dfs_over(adj, nbrs, i + 1, r1.0, fuel);
            let o = r1.1 + r2.1;
            assert forall|k: int| 0 <= k < o.len() implies reachable_unmarked(adj, v0, start, #[trigger] o[k] as int) by {
                if k < r1.1.len() {
                    assert(o[k] == r1.1[k]);
                } else {
                    assert(o[k] == r2.1[k - r1.1.len()]);
                }
            }
            assert(dfs_over(adj, nbrs, i, visited, fuel).1 == o);
        } else {
            lemma_over_sound(adj, v0, start, x, i + 1, visited, fuel);
            assert(dfs_over(adj, nbrs, i, visited, fuel) == dfs_over(adj, nbrs, i + 1, visited, fuel));
        }
    }
}

/// A depth-first visit from `start`, with some nodes marked before, lists no node
/// twice and lists exactly the nodes that can be reached from `start` through
/// unmarked nodes; it marks what was marked and what it lists.
pub proof fn lemma_visit_reaches(adj: Seq<Seq<usize>>, visited: Seq<bool>, start: int, to: int, steps: nat)
    requires
        adjacency_in_range(adj),
        visited.len() == adj.len(),
        0 <= start < adj.len(),
        0 <= to < adj.len(),
        adj.len() <= usize::MAX,
    ensures
        ({
            let r = dfs_visit(adj, start, visited);
            &&& distinct(r.1)
            &&& r.1.len() > 0 && r.1[0] == start
            &&& forall|k: int| 0 <= k < adj.len() ==> (#[trigger] r.0[k] <==> (visited[k] || r.1.contains(k as usize)))
            &&& reaches_unmarked(adj, visited, start, to, steps) ==> r.1.contains(to as usize)
            &&& r.1.contains(to as usize) ==> reachable_unmarked(adj, visited, start, to)
        }),
    decreases steps,
{
    let v1 = visited.update(start, false);
    let fuel = (count_unvisited(visited.update(start, true)) + 1) as nat;
    assert(v1.update(start, true) =~= visited.update(start, true));
    let r = dfs_visit(adj, start, visited);
    assert(r == dfs_from(adj, start, v1, fuel));
    lemma_from_fresh(adj, start, v1, fuel);
    lemma_from_closed(adj, start, v1, fuel);
    assert forall|k: int| 0 <= k < adj.len() implies (#[trigger] r.0[k] <==> (visited[k] || r.1.contains(k as usize))) by {
        if k == start {
            assert(r.1[0] == k as usize);
        }
    }
    if reaches_unmarked(adj, visited, start, to, steps) && to != start {
        let (x, j) = choose|x: int, j: int|
            0 <= x < adj.len() && 0 <= j < adj[x].len() && #[trigger] adj[x][j] as int == to
                && reaches_unmarked(adj, visited, start, x, (steps - 1) as nat);
        lemma_visit_reaches(adj, visited, start, x, (steps - 1) as nat);
        assert(r.1.contains(x as usize));
        assert(r.0[x]);
        assert(!v1[x]);
        assert(r.0[adj[x][j] as int]);
        assert(!v1[to]);
    }
    if to == start {
        assert(r.1[0] == start as usize);
    }
    assert(reaches_unmarked(adj, visited, start, start, 0));
    lemma_from_sound(adj, visited, start, start, v1, fuel);
    if r.1.contains(to as usize) {
        let i = choose|i: int| 0 <= i < r.1.len() && r.1[i] == to as usize;
        assert(reachable_unmarked(adj, visited, start, r.1[i] as int));
    }
}

proof fn lemma_reaches_unmarked(adj: Seq<Seq<usize>>, marked: Seq<bool>, from: int, to: int, steps: nat)
    requires
        forall|k: int| 0 <= k < marked.len() ==> !#[trigger] marked[k],
        marked.len() == adj.len(),
        adjacency_in_range(adj),
    ensures
        reaches(adj, from, to, steps) ==> reaches_unmarked(adj, marked, from, to, steps),
        reaches_unmarked(adj, marked, from, to, steps) ==> reaches(adj, from, to, steps),
    decreases steps,
{
    if steps > 0 && from != to {
        if reaches(adj, from, to, steps) {
            let (x, j) = choose|x: int, j: int|
                0 <= x < adj.len() && 0 <= j < adj[x].len() && #[trigger] adj[x][j] as int == to
                    && reaches(adj, from, x, (steps - 1) as nat);
            lemma_reaches_unmarked(adj, marked, from, x, (steps - 1) as nat);
            assert(adj[x][j] < adj.len());
            assert(!marked[to]);
        }
        if reaches_unmarked(adj, marked, from, to, steps) {
            let (x, j) = choose|x: int, j: int|
                0 <= x < adj.len() && 0 <= j < adj[x].len() && #[trigger] adj[x][j] as int == to
                    && reaches_unmarked(adj, marked, from, x, (steps - 1) as nat);
            lemma_reaches_unmarked(adj, marked, from, x, (steps - 1) as nat);
        }
    }
}

/// A depth-first traversal from `start`, with no node marked before, lists every
/// node that can be reached from `start`, and only such nodes.
pub proof fn lemma_dfs_reaches(adj: Seq<Seq<usize>>, start: int, to: int, steps: nat)
    requires
        adjacency_in_range(adj),
        0 <= start < adj.len(),
        0 <= to < adj.len(),
        adj.len() <= usize::MAX,
    ensures
        reaches(adj, start, to, steps) ==> dfs_visit(adj, start, Seq::new(adj.len(), |i: int| false)).1.contains(
            to as usize,
        ),
        dfs_visit(adj, start, Seq::new(adj.len(), |i: int| false)).1.contains(to as usize) ==> reachable(adj, start, to),
{
    let none = Seq::new(adj.len(), |i: int| false);
    lemma_reaches_unmarked(adj, none, start, to, steps);
    lemma_visit_reaches(adj, none, start, to, steps);
    let r = dfs_visit(adj, start, none);
    if r.1.contains(to as usize) {
        let n = choose|n: nat| #[trigger] reaches_unmarked(adj, none, start, to, n);
        lemma_reaches_unmarked(adj, none, start, to, n);
        assert(reaches(adj, start, to, n));
    }
}

/// Visits `node` and then, in list order, every neighbour that is not yet marked,
/// recursively: marks the nodes in `visited` and appends them to `order` in preorder.
pub fn _dfs(mst: &[Vec<usize>], node: usize, visited: &mut [bool], order: &mut Vec<usize>)
    requires
        node < mst.len(),
        old(visited)@.len() == mst.len(),
        adjacency_in_range(adj_view(mst@)),
    ensures
        final(visited)@ == dfs_visit(adj_view(mst@), node as int, old(visited)@).0,
        final(order)@ == old(order)@ + dfs_visit(adj_view(mst@), node as int, old(visited)@).1,
    decreases count_unvisited(old(visited)@.update(node as int, true)),
{
    let ghost adj = adj_view(mst@);
    let ghost start = visited@;
    let ghost marked = start.update(node as int, true);
    let ghost fuel: nat = (count_unvisited(marked) + 1) as nat;
    let ghost prefix = order@;
    visited[node] = true;
    order.push(node);
    assert(visited@ =~= marked);
    let nbrs = &mst[node];
    let mut k: usize = 0;
    while k < nbrs.len()
        invariant
            adj == adj_view(mst@),
            adjacency_in_range(adj),
            node < mst.len(),
            nbrs@ == adj[node as int],
            k <= nbrs.len(),
            visited@.len() == adj.len(),
            count_unvisited(visited@) <= count_unvisited(marked),
            fuel == count_unvisited(marked) + 1,
            marked == old(visited)@.update(node as int, true),
            dfs_over(adj, nbrs@, 0, marked, (fuel - 1) as nat).0
                == dfs_over(adj, nbrs@, k as int, visited@, (fuel - 1) as nat).0,
            prefix + seq![node] + dfs_over(adj, nbrs@, 0, marked, (fuel - 1) as nat).1
                == order@ + dfs_over(adj, nbrs@, k as int, visited@, (fuel - 1) as nat).1,
        decreases nbrs.len() - k,
    {
        let neighbor = nbrs[k];
        assert(neighbor < adj.len()) by {
            assert(adj[node as int][k as int] == neighbor);
        }
        proof {
            assert forall|j: int| 0 <= j < nbrs@.len() implies #[trigger] nbrs@[j] < adj.len() by {
                assert(adj[node as int][j] == nbrs@[j]);
            }
        }
        if !visited[neighbor] {
            let ghost before = visited@;
            let ghost before_order = order@;
            proof {
                lemma_count_update(before, neighbor as int);
                lemma_from_fuel(adj, neighbor as int, before, (fuel - 1) as nat,
                    count_unvisited(before.update(neighbor as int, true)) + 1);
                lemma_from_grows(adj, neighbor as int, before, (fuel - 1) as nat);
            }
            assert(count_unvisited(visited@.update(neighbor as int, true)) < count_unvisited(marked));
            _dfs(mst, neighbor, visited, order);
            proof {
                let r1 = dfs_from(adj, neighbor as int, before, (fuel - 1) as nat);
                assert(visited@ == r1.0);
                lemma_count_mono(before.update(neighbor as int, true), r1.0);
                assert(order@ == before_order + r1.1);
                assert(dfs_over(adj, nbrs@, k as int, before, (fuel - 1) as nat).1
                    == r1.1 + dfs_over(adj, nbrs@, k + 1, r1.0, (fuel - 1) as nat).1);
                assert(before_order + (r1.1 + dfs_over(adj, nbrs@, k + 1, r1.0, (fuel - 1) as nat).1)
                    =~= order@ + dfs_over(adj, nbrs@, k + 1, r1.0, (fuel - 1) as nat).1);
            }
        }
        k += 1;
    }
    proof {
        lemma_count_update(start, node as int);
        assert(order@ =~= prefix + (seq![node] + dfs_over(adj, nbrs@, 0, marked, (fuel - 1) as nat).1));
    }
}

/// Preorder depth-first traversal of `mst` from `start`.
pub fn dfs(mst: &[Vec<usize>], start: usize) -> (order: Vec<usize>)
    requires
        start < mst.len(),
        adjacency_in_range(adj_view(mst@)),
    ensures
        order@ == dfs_visit(adj_view(mst@), start as int, Seq::new(mst.len() as nat, |i: int| false)).1,
{
    let mut order = Vec::new();
    let mut visited = vec![false; mst.len()];
    assert(visited@ =~= Seq::new(mst.len() as nat, |i: int| false));
    _dfs(mst, start, &mut visited, &mut order);
    assert(order@ =~= Seq::<usize>::empty() + dfs_visit(adj_view(mst@), start as int, Seq::new(mst.len() as nat, |i: int| false)).1);
    order
}

} // verus!
