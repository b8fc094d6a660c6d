//! Prim's method on the complete graph of trees, weighted by Euclidean distance.

use vstd::prelude::*;

use crate::flags::{count_unvisited, lemma_count_all_unset, lemma_count_positive, lemma_count_update};
use crate::trees::{sq_dist, sq_distance, Tree};
use crate::traversal::{adj_view, extends, lemma_reaches_grows, lemma_step_reachable, reachable, reaches};

verus! {

/// Squared distance from tree `b` to the nearest tree listed in `prefix`;
/// `u128::MAX` when `prefix` is empty.
pub open spec fn key(trees: Seq<Tree>, prefix: Seq<usize>, b: int) -> int
    decreases prefix.len(),
{
    if prefix.len() == 0 {
        u128::MAX as int
    } else {
        let k = key(trees, prefix.drop_last(), b);
        let d = sq_dist(trees[prefix.last() as int], trees[b]);
        if d < k { d } else { k }
    }
}

/// The first tree listed in `prefix` at distance `key(trees, prefix, b)` from `b`;
/// `0` when `prefix` is empty.
pub open spec fn attach(trees: Seq<Tree>, prefix: Seq<usize>, b: int) -> usize
    decreases prefix.len(),
{
    if prefix.len() == 0 {
        0
    } else if sq_dist(trees[prefix.last() as int], trees[b]) < key(trees, prefix.drop_last(), b) {
        prefix.last()
    } else {
        attach(trees, prefix.drop_last(), b)
    }
}

/// `b` is the tree added after the trees of `prefix`: not among them, nearest to them,
/// and of least index among the equally near.
pub open spec fn is_next(trees: Seq<Tree>, prefix: Seq<usize>, b: int) -> bool {
    &&& 0 <= b < trees.len()
    &&& !prefix.contains(b as usize)
    &&& forall|c: int|
        0 <= c < trees.len() && !prefix.contains(c as usize) ==> {
            ||| key(trees, prefix, b) < #[trigger] key(trees, prefix, c)
            ||| (key(trees, prefix, b) == key(trees, prefix, c) && b <= c)
        }
}

/// `order` is the order in which Prim's method, started at tree 0, adds the trees.
pub open spec fn is_prim_order(trees: Seq<Tree>, order: Seq<usize>) -> bool {
    &&& order.len() == trees.len()
    &&& order.len() > 0 ==> order[0] == 0
    &&& forall|k: int| 1 <= k < order.len() ==> #[trigger] is_next(trees, order.take(k), order[k] as int)
}

/// Adjacency lists after the first `r` trees of `order` are added: each added tree
/// (after the first) is joined to its attachment point, and each list holds its
/// neighbours in the order the joining edges were made.
pub open spec fn prim_adjacency(trees: Seq<Tree>, order: Seq<usize>, r: nat) -> Seq<Seq<usize>>
    decreases r,
{
    if r <= 1 {
        Seq::new(trees.len(), |i: int| Seq::<usize>::empty())
    } else {
        let prev = prim_adjacency(trees, order, (r - 1) as nat);
        let b = order[r - 1];
        let a = attach(trees, order.take(r - 1), b as int);
        prev.update(a as int, prev[a as int].push(b)).update(b as int, prev[b as int].push(a))
    }
}

/// The adjacency lists after `r` additions depend on the first `r` trees of the order only.
pub proof fn lemma_prim_adjacency_prefix(trees: Seq<Tree>, o1: Seq<usize>, o2: Seq<usize>, r: nat)
    requires
        r <= o1.len(),
        r <= o2.len(),
        o1.take(r as int) == o2.take(r as int),
    ensures
        prim_adjacency(trees, o1, r) == prim_adjacency(trees, o2, r),
    decreases r,
{
    if r > 1 {
        assert(o1.take(r - 1) =~= o1.take(r as int).take(r - 1));
        assert(o2.take(r - 1) =~= o2.take(r as int).take(r - 1));
        assert(o1[r - 1] == o1.take(r as int)[r - 1]);
        assert(o2[r - 1] == o2.take(r as int)[r - 1]);
        lemma_prim_adjacency_prefix(trees, o1, o2, (r - 1) as nat);
    }
}

/// The attachment point of a tree lies in a non-empty prefix.
pub proof fn lemma_attach_in_prefix(trees: Seq<Tree>, prefix: Seq<usize>, b: int)
    requires
        prefix.len() > 0,
    ensures
        prefix.contains(attach(trees, prefix, b)),
    decreases prefix.len(),
{
    let p = prefix.drop_last();
    if sq_dist(trees[prefix.last() as int], trees[b]) < key(trees, p, b) {
        assert(prefix[prefix.len() - 1] == prefix.last());
    } else if p.len() == 0 {
        assert(key(trees, p, b) == u128::MAX as int);
        crate::trees::lemma_sq_dist_bounds(trees[prefix.last() as int], trees[b]);
    } else {
        lemma_attach_in_prefix(trees, p, b);
        let j = choose|j: int| 0 <= j < p.len() && p[j] == attach(trees, p, b);
        assert(prefix[j] == p[j]);
    }
}

/// Adjacency lists of an undirected graph: every entry names a node, and whenever
/// `v` is listed at `u`, `u` is listed at `v`.
pub open spec fn symmetric(adj: Seq<Seq<usize>>) -> bool {
    forall|u: int, k: int|
        0 <= u < adj.len() && 0 <= k < adj[u].len() ==> #[trigger] adj[u][k] < adj.len() && adj[adj[u][k] as int].contains(
            u as usize,
        )
}

proof fn lemma_push_keeps(s: Seq<usize>, e: usize, y: usize)
    ensures
        s.contains(y) ==> s.push(e).contains(y),
        s.push(e).contains(e),
{
    if s.contains(y) {
        let j = choose|j: int| 0 <= j < s.len() && s[j] == y;
        assert(s.push(e)[j] == y);
    }
    assert(s.push(e)[s.len() as int] == e);
}

proof fn lemma_prim_symmetric_upto(trees: Seq<Tree>, order: Seq<usize>, r: nat)
    requires
        is_prim_order(trees, order),
        1 <= r <= order.len(),
    ensures
        prim_adjacency(trees, order, r).len() == trees.len(),
        symmetric(prim_adjacency(trees, order, r)),
    decreases r,
{
    if r > 1 {
        lemma_prim_symmetric_upto(trees, order, (r - 1) as nat);
        let prev = prim_adjacency(trees, order, (r - 1) as nat);
        let p = order.take(r - 1);
        let b = order[r - 1];
        assert(is_next(trees, order.take(r - 1), order[r - 1] as int));
        lemma_attach_in_prefix(trees, p, b as int);
        let a = attach(trees, p, b as int);
        let ja = choose|j: int| 0 <= j < p.len() && p[j] == a;
        if ja >= 1 {
            assert(order.take(ja)[0] == order[0]);
            assert(is_next(trees, order.take(ja), order[ja] as int));
        }
        assert(a < trees.len());
        assert(a != b);
        let new = prim_adjacency(trees, order, r);
        assert(new == prev.update(a as int, prev[a as int].push(b)).update(b as int, prev[b as int].push(a)));
        lemma_push_keeps(prev[a as int], b, b);
        lemma_push_keeps(prev[b as int], a, a);
        assert forall|x: int, y: usize| 0 <= x < prev.len() && prev[x].contains(y) implies #[trigger] new[x].contains(y) by {
            if x == a as int {
                lemma_push_keeps(prev[a as int], b, y);
            } else if x == b as int {
                lemma_push_keeps(prev[b as int], a, y);
            }
        }
        assert forall|u: int, k: int| 0 <= u < new.len() && 0 <= k < new[u].len() implies #[trigger] new[u][k] < new.len()
            && new[new[u][k] as int].contains(u as usize) by {
            if u == a as int && k == prev[u].len() {
                assert(new[u][k] == b);
            } else if u == b as int && k == prev[u].len() {
                assert(new[u][k] == a);
            } else {
                assert(new[u][k] == prev[u][k]);
                assert(prev[prev[u][k] as int].contains(u as usize));
            }
        }
    }
}

proof fn lemma_order_covers(trees: Seq<Tree>, order: Seq<usize>, b: int)
    requires
        is_prim_order(trees, order),
        0 <= b < trees.len(),
    ensures
        exists|i: int| 0 <= i < order.len() && order[i] as int == b,
{
    let n = trees.len() as int;
    let os = order.map_values(|x: usize| x as int);
    assert forall|i: int, j: int| 0 <= i < j < os.len() implies os[i] != os[j] by {
        assert(is_next(trees, order.take(j), order[j] as int));
        assert(order.take(j)[i] == order[i]);
    }
    assert(os.no_duplicates());
    os.unique_seq_to_set();
    vstd::set_lib::lemma_int_range(0, n);
    assert forall|x: int| os.to_set().contains(x) implies vstd::set_lib::set_int_range(0, n).contains(x) by {
        let i = choose|i: int| 0 <= i < os.len() && os[i] == x;
        if i >= 1 {
            assert(is_next(trees, order.take(i), order[i] as int));
        }
    }
    vstd::set_lib::lemma_subset_equality(os.to_set(), vstd::set_lib::set_int_range(0, n));
    assert(os.to_set().contains(b));
    let i = choose|i: int| 0 <= i < os.len() && os[i] == b;
    assert(order[i] as int == b);
}

proof fn lemma_prim_connected_upto(trees: Seq<Tree>, order: Seq<usize>, r: nat, i: int)
    requires
        is_prim_order(trees, order),
        1 <= r <= order.len(),
        0 <= i < r,
    ensures
        reachable(prim_adjacency(trees, order, r), 0, order[i] as int),
    decreases r,
{
    if r == 1 {
        assert(reaches(prim_adjacency(trees, order, r), 0, order[i] as int, 0));
    } else {
        let prev = prim_adjacency(trees, order, (r - 1) as nat);
        let new = prim_adjacency(trees, order, r);
        let p = order.take(r - 1);
        let b = order[r - 1];
        assert(is_next(trees, order.take(r - 1), order[r - 1] as int));
        lemma_attach_in_prefix(trees, p, b as int);
        let a = attach(trees, p, b as int);
        let ja = choose|j: int| 0 <= j < p.len() && p[j] == a;
        if ja >= 1 {
            assert(order.take(ja)[0] == order[0]);
            assert(is_next(trees, order.take(ja), order[ja] as int));
        }
        assert(a != b);
        lemma_prim_symmetric_upto(trees, order, (r - 1) as nat);
        assert(new == prev.update(a as int, prev[a as int].push(b)).update(b as int, prev[b as int].push(a)));
        assert(extends(new, prev));
        let target = if i < r - 1 { i } else { ja };
        lemma_prim_connected_upto(trees, order, (r - 1) as nat, target);
        let n = choose|n: nat| #[trigger] reaches(prev, 0, order[target] as int, n);
        lemma_reaches_grows(new, prev, 0, order[target] as int, n);
        if i == r - 1 {
            assert(order[ja] == a);
            assert(new[a as int][prev[a as int].len() as int] == b);
            lemma_step_reachable(new, 0, a as int, prev[a as int].len() as int);
        }
    }
}

/// The spanning tree joins every tree to tree 0: a depth-first traversal from tree 0
/// reaches them all.
pub proof fn lemma_prim_spans(trees: Seq<Tree>, order: Seq<usize>, b: int)
    requires
        is_prim_order(trees, order),
        0 <= b < trees.len(),
    ensures
        reachable(prim_adjacency(trees, order, trees.len()), 0, b),
{
    lemma_order_covers(trees, order, b);
    let i = choose|i: int| 0 <= i < order.len() && order[i] as int == b;
    lemma_prim_connected_upto(trees, order, trees.len(), i);
}

/// The number of entries over all adjacency lists.
pub open spec fn list_total(adj: Seq<Seq<usize>>) -> int
    decreases adj.len(),
{
    if adj.len() == 0 {
        0
    } else {
        list_total(adj.drop_last()) + adj.last().len()
    }
}

proof fn lemma_total_update(adj: Seq<Seq<usize>>, x: int, l: Seq<usize>)
    requires
        0 <= x < adj.len(),
    ensures
        list_total(adj.update(x, l)) == list_total(adj) - adj[x].len() + l.len(),
    decreases adj.len(),
{
    let up = adj.update(x, l);
    if x == adj.len() - 1 {
        assert(up.drop_last() =~= adj.drop_last());
    } else {
        assert(up.drop_last() =~= adj.drop_last().update(x, l));
        lemma_total_update(adj.drop_last(), x, l);
    }
}

proof fn lemma_total_empty(n: nat)
    ensures
        list_total(Seq::new(n, |i: int| Seq::<usize>::empty())) == 0,
    decreases n,
{
    if n > 0 {
        assert(Seq::new(n, |i: int| Seq::<usize>::empty()).drop_last() =~= Seq::new(
            (n - 1) as nat,
            |i: int| Seq::<usize>::empty(),
        ));
        lemma_total_empty((n - 1) as nat);
    }
}

/// The spanning tree has one edge less than there are trees: its lists hold
/// `2 * (n - 1)` entries, each edge listed at both ends. Joined to tree 0 as
/// `lemma_prim_spans` shows, it is a tree.
pub proof fn lemma_prim_edges(trees: Seq<Tree>, order: Seq<usize>, r: nat)
    requires
        is_prim_order(trees, order),
        1 <= r <= order.len(),
    ensures
        list_total(prim_adjacency(trees, order, r)) == 2 * (r - 1),
    decreases r,
{
    if r == 1 {
        lemma_total_empty(trees.len());
    } else {
        lemma_prim_edges(trees, order, (r - 1) as nat);
        lemma_prim_symmetric_upto(trees, order, (r - 1) as nat);
        let prev = prim_adjacency(trees, order, (r - 1) as nat);
        let p = order.take(r - 1);
        let b = order[r - 1];
        assert(is_next(trees, order.take(r - 1), order[r - 1] as int));
        lemma_attach_in_prefix(trees, p, b as int);
        let a = attach(trees, p, b as int);
        let ja = choose|j: int| 0 <= j < p.len() && p[j] == a;
        if ja >= 1 {
            assert(order.take(ja)[0] == order[0]);
            assert(is_next(trees, order.take(ja), order[ja] as int));
        }
        assert(a != b);
        let mid = prev.update(a as int, prev[a as int].push(b));
        lemma_total_update(prev, a as int, prev[a as int].push(b));
        lemma_total_update(mid, b as int, prev[b as int].push(a));
    }
}

/// The spanning tree that Prim's method builds is undirected: its adjacency lists,
/// one per tree, name trees only, and list each edge at both of its ends.
pub proof fn lemma_prim_symmetric(trees: Seq<Tree>, order: Seq<usize>)
    requires
        is_prim_order(trees, order),
        trees.len() > 0,
    ensures
        prim_adjacency(trees, order, trees.len()).len() == trees.len(),
        symmetric(prim_adjacency(trees, order, trees.len())),
{
    lemma_prim_symmetric_upto(trees, order, trees.len());
}

/// The spanning tree that Prim's method builds over the trees, started at tree 0, as
/// adjacency lists indexed like `trees`. Distances are compared exactly, through
/// their squares.
pub fn build_mst(trees: &[Tree]) -> (mst: Vec<Vec<usize>>)
    requires
        trees.len() > 0,
    ensures
        exists|order: Seq<usize>|
            #[trigger] is_prim_order(trees@, order)
            && adj_view(mst@) == prim_adjacency(trees@, order, trees.len() as nat),
{
    let n = trees.len();
    let ghost ts = trees@;
    let mut mst: Vec<Vec<usize>> = Vec::new();
    let mut in_mst: Vec<bool> = Vec::new();
    let mut min_edge: Vec<(u128, usize)> = Vec::new();
    let mut i: usize = 0;
    while i < n
        invariant
            i <= n,
            mst.len() == i,
            in_mst.len() == i,
            min_edge.len() == i,
            forall|j: int| 0 <= j < i ==> mst@[j]@ == Seq::<usize>::empty(),
            forall|j: int| 0 <= j < i ==> !in_mst@[j],
            forall|j: int| 0 <= j < i ==> min_edge@[j] == (u128::MAX, 0usize),
        decreases n - i,
    {
        mst.push(Vec::new());
        in_mst.push(false);
        min_edge.push((u128::MAX, 0));
        i += 1;
    }
    min_edge[0] = (0, 0);
    let ghost mut order: Seq<usize> = Seq::empty();
    proof {
        assert(adj_view(mst@) =~= prim_adjacency(ts, order, 0));
        lemma_count_all_unset(in_mst@);
    }
    let mut round: usize = 0;
    while round < n
        invariant
            ts == trees@,
            n == trees.len(),
            n > 0,
            round <= n,
            order.len() == round,
            mst.len() == n,
            in_mst.len() == n,
            min_edge.len() == n,
            round > 0 ==> order[0] == 0,
            forall|k: int| 1 <= k < round ==> #[trigger] is_next(ts, order.take(k), order[k] as int),
            forall|k: int| 0 <= k < round ==> order[k] < n,
            forall|j: int| 0 <= j < n ==> (in_mst@[j] <==> order.contains(j as usize)),
            count_unvisited(in_mst@) == n - round,
            forall|j: int|
                0 <= j < n && !in_mst@[j] ==> min_edge@[j].0 == (if round == 0 && j == 0 {
                    0int
                } else {
                    key(ts, order, j)
                }) && min_edge@[j].1 == attach(ts, order, j),
            adj_view(mst@) == prim_adjacency(ts, order, round as nat),
        decreases n - round,
    {
        let mut u: usize = n;
        let mut i: usize = 0;
        while i < n
            invariant
                n == trees.len(),
                in_mst.len() == n,
                min_edge.len() == n,
                i <= n,
                u == n ==> forall|j: int| 0 <= j < i ==> in_mst@[j],
                u < n ==> u < i && !in_mst@[u as int] && forall|j: int|
                    0 <= j < i && !in_mst@[j] ==> min_edge@[u as int].0 < min_edge@[j].0 || (
                    min_edge@[u as int].0 == min_edge@[j].0 && u <= j),
                u <= n,
            decreases n - i,
        {
            if !in_mst[i] && (u == n || min_edge[i].0 < min_edge[u].0) {
                u = i;
            }
            i += 1;
        }
        proof {
            if u == n {
                let j = lemma_count_positive(in_mst@);
                assert(false);
            }
        }
        let ghost old_in = in_mst@;
        let ghost old_me = min_edge@;
        let ghost old_adj = adj_view(mst@);
        proof {
            if round == 0 {
                assert(!order.contains(0usize));
                assert(!old_in[0]);
                assert(old_me[0].0 == 0);
                assert(u == 0) by {
                    if u != 0 {
                        assert(old_me[u as int].0 == key(ts, order, u as int));
                        assert(key(ts, order, u as int) == u128::MAX as int);
                    }
                }
            } else {
                assert forall|c: int| 0 <= c < n && !order.contains(c as usize) implies {
                    ||| key(ts, order, u as int) < #[trigger] key(ts, order, c)
                    ||| (key(ts, order, u as int) == key(ts, order, c) && u <= c)
                } by {
                    assert(!old_in[c]);
                }
                assert(is_next(ts, order, u as int));
            }
        }
        in_mst[u] = true;
        let p = min_edge[u].1;
        proof {
            lemma_count_update(old_in, u as int);
            if round > 0 {
                lemma_attach_in_prefix(ts, order, u as int);
                assert(p != u);
            }
        }
        if p != u {
            mst[p].push(u);
            mst[u].push(p);
        }
        let ghost new_order = order.push(u);
        proof {
            assert(new_order.take(round as int) =~= order);
            assert(order.take(round as int) =~= order);
            assert(new_order.drop_last() =~= order);
            lemma_prim_adjacency_prefix(ts, order, new_order, round as nat);
            if round == 0 {
                assert(adj_view(mst@) =~= prim_adjacency(ts, new_order, 1));
            } else {
                assert(adj_view(mst@) =~= prim_adjacency(ts, new_order, (round + 1) as nat));
            }
            assert forall|k: int| 1 <= k < round + 1 implies #[trigger] is_next(ts, new_order.take(k), new_order[k] as int) by {
                if k < round {
                    assert(new_order.take(k) =~= order.take(k));
                }
            }
            assert forall|j: int| 0 <= j < n implies (in_mst@[j] <==> new_order.contains(j as usize)) by {
                if in_mst@[j] && j != u {
                    assert(order.contains(j as usize));
                    let t = choose|t: int| 0 <= t < order.len() && order[t] == j as usize;
                    assert(new_order[t] == j as usize);
                }
                if new_order.contains(j as usize) && j != u {
                    let t = choose|t: int| 0 <= t < new_order.len() && new_order[t] == j as usize;
                    assert(order[t] == j as usize);
                }
                if j == u {
                    assert(new_order[round as int] == u);
                }
            }
        }
        let mut v: usize = 0;
        while v < n
            invariant
                ts == trees@,
                n == trees.len(),
                in_mst.len() == n,
                min_edge.len() == n,
                v <= n,
                u < n,
                in_mst@[u as int],
                order.len() == round,
                round == 0 ==> u == 0,
                forall|j: int|
                    0 <= j < n && !old_in[j] && j != u ==> old_me[j].0 == (if round == 0 && j == 0 {
                        0int
                    } else {
                        key(ts, order, j)
                    }) && old_me[j].1 == attach(ts, order, j),
                old_in.len() == n,
                new_order == order.push(u),
                forall|j: int| 0 <= j < n && j != u ==> in_mst@[j] == old_in[j],
                forall|j: int| v <= j < n ==> min_edge@[j] == old_me[j],
                forall|j: int|
                    0 <= j < v && !in_mst@[j] ==> min_edge@[j].0 == key(ts, new_order, j)
                        && min_edge@[j].1 == attach(ts, new_order, j),
            decreases n - v,
        {
            if !in_mst[v] {
                let d = sq_distance(&trees[u], &trees[v]);
                proof {
                    assert(new_order.drop_last() =~= order);
                    assert(new_order.last() == u);
                    if round == 0 {
                        assert(v != 0);
                        assert(key(ts, order, v as int) == u128::MAX as int);
                        crate::trees::lemma_sq_dist_bounds(ts[u as int], ts[v as int]);
                    }
                }
                proof {
                    assert(!old_in[v as int]);
                    assert(old_me[v as int].0 == key(ts, order, v as int));
                    assert(old_me[v as int].1 == attach(ts, order, v as int));
                    assert(d == sq_dist(ts[new_order.last() as int], ts[v as int]));
                }
                if d < min_edge[v].0 {
                    min_edge[v] = (d, u);
                }
                assert(min_edge@[v as int].0 == key(ts, new_order, v as int));
                assert(min_edge@[v as int].1 == attach(ts, new_order, v as int));
            }
            v += 1;
        }
        proof {
            order = new_order;
        }
        round += 1;
    }
    proof {
        assert(is_prim_order(ts, order));
    }
    mst
}

} // verus!
