//! Centers of a block-cut tree, found by removing leaves round by round.

use vstd::prelude::*;

use petgraph::graph::Graph;
use petgraph::Undirected;

use crate::blocks::{edges_ok, lemma_incident_in_range};
use crate::figures::{incident, tree_edges, tree_neighbors, tree_node_count, tree_nodes, BCNode, Pin};

verus! {

/// The neighbours of `v`, in `petgraph` order.
pub open spec fn nbrs(es: Seq<(int, int, Pin)>, v: int) -> Seq<int> {
    incident(es, v).map_values(|p: (int, Pin)| p.0)
}

/// Lowers the degree of each present node of `ns`, in order; a node whose degree
/// drops to one is appended to `next`. `None` when a degree would drop below zero.
pub open spec fn peel_neighbors(ns: Seq<int>, deg: Seq<Option<usize>>, next: Seq<usize>) -> Option<(Seq<Option<usize>>, Seq<usize>)>
    decreases ns.len(),
{
    if ns.len() == 0 {
        Some((deg, next))
    } else {
        match peel_neighbors(ns.drop_last(), deg, next) {
            None => None,
            Some((d1, n1)) => {
                let n = ns.last();
                match d1[n] {
                    None => Some((d1, n1)),
                    Some(x) => if x == 0 {
                        None
                    } else {
                        let d2 = d1.update(n, Some((x - 1) as usize));
                        if x - 1 == 1 {
                            Some((d2, n1.push(n as usize)))
                        } else {
                            Some((d2, n1))
                        }
                    },
                }
            },
        }
    }
}

/// Removes the leaves `ls` one after the other: lowers the degrees of the
/// neighbours of each, then drops it. Returns the degrees and the new leaves.
pub open spec fn peel_leaves(es: Seq<(int, int, Pin)>, ls: Seq<usize>, deg: Seq<Option<usize>>) -> Option<(Seq<Option<usize>>, Seq<usize>)>
    decreases ls.len(),
{
    if ls.len() == 0 {
        Some((deg, Seq::empty()))
    } else {
        match peel_leaves(es, ls.drop_last(), deg) {
            None => None,
            Some((d1, n1)) => {
                let l = ls.last();
                match peel_neighbors(nbrs(es, l as int), d1, n1) {
                    None => None,
                    Some((d2, n2)) => Some((d2.update(l as int, None), n2)),
                }
            },
        }
    }
}

/// Rounds of leaf removal until the removed and current leaves account for all
/// `cnt` nodes. `None` when a round has no leaves left (the rounds would never
/// end) or a degree would drop below zero.
pub open spec fn peel(es: Seq<(int, int, Pin)>, cnt: nat, deg: Seq<Option<usize>>, leaves: Seq<usize>, rem: nat) -> Option<Seq<Option<usize>>>
    decreases cnt - rem,
{
    if rem + leaves.len() >= cnt {
        Some(deg)
    } else if leaves.len() == 0 {
        None
    } else {
        match peel_leaves(es, leaves, deg) {
            None => None,
            Some((d2, nx)) => peel(es, cnt, d2, nx, rem + leaves.len()),
        }
    }
}

/// The nodes among the first `k` whose degree is recorded, in index order.
pub open spec fn present(deg: Seq<Option<usize>>, k: int) -> Seq<usize>
    decreases k,
{
    if k <= 0 {
        Seq::empty()
    } else if deg[k - 1] is Some {
        present(deg, k - 1).push((k - 1) as usize)
    } else {
        present(deg, k - 1)
    }
}

/// The nodes among the first `k` of degree one, in index order.
pub open spec fn degree_one(deg: Seq<Option<usize>>, k: int) -> Seq<usize>
    decreases k,
{
    if k <= 0 {
        Seq::empty()
    } else if deg[k - 1] == Some(1usize) {
        degree_one(deg, k - 1).push((k - 1) as usize)
    } else {
        degree_one(deg, k - 1)
    }
}

/// The centers of a tree of `cnt` nodes with edges `es`: all nodes when there are at
/// most two; otherwise the nodes left when leaves are removed round by round.
pub open spec fn tree_centers(es: Seq<(int, int, Pin)>, cnt: nat) -> Option<Seq<usize>> {
    if cnt <= 2 {
        Some(Seq::new(cnt, |i: int| i as usize))
    } else {
        let deg0 = Seq::new(cnt, |v: int| Some(nbrs(es, v).len() as usize));
        match peel(es, cnt, deg0, degree_one(deg0, cnt as int), 0) {
            Some(d) => Some(present(d, cnt as int)),
            None => None,
        }
    }
}

proof fn lemma_present_below(deg: Seq<Option<usize>>, k: int)
    ensures
        forall|i: int| 0 <= i < present(deg, k).len() ==> #[trigger] present(deg, k)[i] < k,
    decreases k,
{
    if k > 0 {
        lemma_present_below(deg, k - 1);
        let p = present(deg, k - 1);
        assert forall|i: int| 0 <= i < present(deg, k).len() implies #[trigger] present(deg, k)[i] < k by {
            if i < p.len() {
                assert(present(deg, k)[i] == p[i]);
            }
        }
    }
}

/// Every center is a node of the tree.
pub proof fn lemma_centers_in_range(es: Seq<(int, int, Pin)>, cnt: nat)
    ensures
        tree_centers(es, cnt) matches Some(c) ==> forall|i: int| 0 <= i < c.len() ==> #[trigger] c[i] < cnt,
{
    if cnt > 2 {
        let deg0 = Seq::new(cnt, |v: int| Some(nbrs(es, v).len() as usize));
        if let Some(d) = peel(es, cnt, deg0, degree_one(deg0, cnt as int), 0) {
            lemma_present_below(d, cnt as int);
        }
    }
}

/// Number of nodes whose degree is no longer recorded.
pub open spec fn count_none(d: Seq<Option<usize>>) -> nat
    decreases d.len(),
{
    if d.len() == 0 {
        0
    } else {
        count_none(d.drop_last()) + if d.last() is None { 1nat } else { 0nat }
    }
}

proof fn lemma_count_none_update(d: Seq<Option<usize>>, i: int, v: Option<usize>)
    requires
        0 <= i < d.len(),
    ensures
        count_none(d.update(i, v)) + (if d[i] is None { 1int } else { 0int }) == count_none(d) + (if v is None { 1int } else { 0int }),
    decreases d.len(),
{
    let up = d.update(i, v);
    if i == d.len() - 1 {
        assert(up.drop_last() =~= d.drop_last());
    } else {
        assert(up.drop_last() =~= d.drop_last().update(i, v));
        lemma_count_none_update(d.drop_last(), i, v);
    }
}

proof fn lemma_count_none_all_some(n: nat, f: spec_fn(int) -> usize)
    ensures
        count_none(Seq::new(n, |v: int| Some(f(v)))) == 0,
    decreases n,
{
    if n > 0 {
        assert(Seq::new(n, |v: int| Some(f(v))).drop_last() =~= Seq::new((n - 1) as nat, |v: int| Some(f(v))));
        lemma_count_none_all_some((n - 1) as nat, f);
    }
}

proof fn lemma_neighbors_keep_count(ns: Seq<int>, deg: Seq<Option<usize>>, next: Seq<usize>, cnt: nat)
    requires
        forall|i: int| 0 <= i < ns.len() ==> 0 <= #[trigger] ns[i] < cnt,
        forall|i: int| 0 <= i < next.len() ==> #[trigger] next[i] < cnt,
        deg.len() == cnt,
    ensures
        match peel_neighbors(ns, deg, next) {
            Some((d, n)) => count_none(d) == count_none(deg),
            None => true,
        },
    decreases ns.len(),
{
    if ns.len() > 0 {
        lemma_neighbors_keep_count(ns.drop_last(), deg, next, cnt);
        lemma_peel_neighbors_range(ns.drop_last(), deg, next, cnt);
        match peel_neighbors(ns.drop_last(), deg, next) {
            None => {},
            Some((d1, n1)) => {
                let n = ns.last();
                assert(0 <= ns[ns.len() - 1] < cnt);
                if let Some(x) = d1[n] {
                    if x != 0 {
                        lemma_count_none_update(d1, n, Some((x - 1) as usize));
                    }
                }
            },
        }
    }
}

proof fn lemma_leaves_count(es: Seq<(int, int, Pin)>, ls: Seq<usize>, deg: Seq<Option<usize>>, cnt: nat)
    requires
        edges_ok(es, cnt),
        forall|i: int| 0 <= i < ls.len() ==> #[trigger] ls[i] < cnt,
        deg.len() == cnt,
    ensures
        match peel_leaves(es, ls, deg) {
            Some((d, n)) => count_none(d) <= count_none(deg) + ls.len(),
            None => true,
        },
    decreases ls.len(),
{
    if ls.len() > 0 {
        lemma_leaves_count(es, ls.drop_last(), deg, cnt);
        lemma_peel_leaves_range(es, ls.drop_last(), deg, cnt);
        match peel_leaves(es, ls.drop_last(), deg) {
            None => {},
            Some((d1, n1)) => {
                let l = ls.last();
                assert(l == ls[ls.len() - 1]);
                lemma_incident_in_range(es, cnt, l as int);
                let ns = nbrs(es, l as int);
                assert forall|i: int| 0 <= i < ns.len() implies 0 <= #[trigger] ns[i] < cnt by {
                    assert(ns[i] == incident(es, l as int)[i].0);
                }
                lemma_neighbors_keep_count(ns, d1, n1, cnt);
                lemma_peel_neighbors_range(ns, d1, n1, cnt);
                if let Some((d2, n2)) = peel_neighbors(ns, d1, n1) {
                    lemma_count_none_update(d2, l as int, None);
                }
            },
        }
    }
}

proof fn lemma_peel_count(es: Seq<(int, int, Pin)>, cnt: nat, deg: Seq<Option<usize>>, leaves: Seq<usize>, rem: nat)
    requires
        edges_ok(es, cnt),
        deg.len() == cnt,
        forall|i: int| 0 <= i < leaves.len() ==> #[trigger] leaves[i] < cnt,
        count_none(deg) <= rem < cnt,
    ensures
        peel(es, cnt, deg, leaves, rem) matches Some(d) ==> d.len() == cnt && count_none(d) < cnt,
    decreases cnt - rem,
{
    if rem + leaves.len() < cnt && leaves.len() > 0 {
        lemma_leaves_count(es, leaves, deg, cnt);
        lemma_peel_leaves_range(es, leaves, deg, cnt);
        if let Some((d2, nx)) = peel_leaves(es, leaves, deg) {
            lemma_peel_count(es, cnt, d2, nx, rem + leaves.len());
        }
    }
}

proof fn lemma_present_count(d: Seq<Option<usize>>, k: int)
    requires
        0 <= k <= d.len(),
    ensures
        present(d, k).len() + count_none(d.take(k)) == k,
    decreases k,
{
    if k > 0 {
        lemma_present_count(d, k - 1);
        assert(d.take(k).drop_last() =~= d.take(k - 1));
        assert(d.take(k).last() == d[k - 1]);
    }
}

proof fn lemma_degree_one_below(deg: Seq<Option<usize>>, k: int)
    ensures
        forall|i: int| 0 <= i < degree_one(deg, k).len() ==> #[trigger] degree_one(deg, k)[i] < k,
    decreases k,
{
    if k > 0 {
        lemma_degree_one_below(deg, k - 1);
        let p = degree_one(deg, k - 1);
        assert forall|i: int| 0 <= i < degree_one(deg, k).len() implies #[trigger] degree_one(deg, k)[i] < k by {
            if i < p.len() {
                assert(degree_one(deg, k)[i] == p[i]);
            }
        }
    }
}

/// A tree with nodes has a center: when the edges join its nodes, the centers found
/// are never none at all.
pub proof fn lemma_centers_nonempty(es: Seq<(int, int, Pin)>, cnt: nat)
    requires
        edges_ok(es, cnt),
        cnt > 0,
    ensures
        tree_centers(es, cnt) matches Some(c) ==> c.len() > 0,
{
    if cnt > 2 {
        let deg0 = Seq::new(cnt, |v: int| Some(nbrs(es, v).len() as usize));
        lemma_count_none_all_some(cnt, |v: int| nbrs(es, v).len() as usize);
        assert(deg0 =~= Seq::new(cnt, |v: int| Some((|v: int| nbrs(es, v).len() as usize)(v))));
        lemma_degree_one_below(deg0, cnt as int);
        lemma_peel_count(es, cnt, deg0, degree_one(deg0, cnt as int), 0);
        if let Some(d) = peel(es, cnt, deg0, degree_one(deg0, cnt as int), 0) {
            lemma_present_count(d, cnt as int);
            assert(d.take(cnt as int) =~= d);
        }
    }
}

fn exec_peel_neighbors(ns: &Vec<usize>, deg: &mut Vec<Option<usize>>, next: &mut Vec<usize>) -> (ok: bool)
    requires
        forall|i: int| 0 <= i < ns@.len() ==> #[trigger] ns@[i] < old(deg)@.len(),
    ensures
        final(deg)@.len() == old(deg)@.len(),
        match peel_neighbors(ns@.map_values(|x: usize| x as int), old(deg)@, old(next)@) {
            Some((d, n)) => ok && final(deg)@ == d && final(next)@ == n,
            None => !ok,
        },
{
    let ghost d0 = deg@;
    let ghost n0 = next@;
    let ghost nsi = ns@.map_values(|x: usize| x as int);
    let mut i: usize = 0;
    while i < ns.len()
        invariant
            nsi == ns@.map_values(|x: usize| x as int),
            forall|k: int| 0 <= k < ns@.len() ==> #[trigger] ns@[k] < d0.len(),
            i <= ns.len(),
            d0 == old(deg)@,
            n0 == old(next)@,
            deg@.len() == d0.len(),
            peel_neighbors(nsi.take(i as int), d0, n0) == Some((deg@, next@)),
        decreases ns.len() - i,
    {
        let n = ns[i];
        proof {
            assert(nsi.take(i + 1).drop_last() =~= nsi.take(i as int));
            assert(nsi.take(i + 1).last() == n as int);
        }
        match deg[n] {
            None => {},
            Some(x) => {
                if x == 0 {
                    proof {
                        lemma_peel_neighbors_none(nsi, d0, n0, i + 1);
                        assert(nsi.take(ns.len() as int) =~= nsi);
                    }
                    return false;
                }
                deg.set(n, Some(x - 1));
                if x - 1 == 1 {
                    next.push(n);
                }
            },
        }
        i += 1;
    }
    assert(nsi.take(ns.len() as int) =~= nsi);
    true
}

proof fn lemma_peel_neighbors_range(ns: Seq<int>, deg: Seq<Option<usize>>, next: Seq<usize>, cnt: nat)
    requires
        forall|i: int| 0 <= i < ns.len() ==> 0 <= #[trigger] ns[i] < cnt,
        forall|i: int| 0 <= i < next.len() ==> #[trigger] next[i] < cnt,
        deg.len() == cnt,
    ensures
        match peel_neighbors(ns, deg, next) {
            Some((d, n)) => d.len() == cnt && forall|i: int| 0 <= i < n.len() ==> #[trigger] n[i] < cnt,
            None => true,
        },
    decreases ns.len(),
{
    if ns.len() > 0 {
        lemma_peel_neighbors_range(ns.drop_last(), deg, next, cnt);
        assert(0 <= ns[ns.len() - 1] < cnt);
    }
}

proof fn lemma_peel_leaves_range(es: Seq<(int, int, Pin)>, ls: Seq<usize>, deg: Seq<Option<usize>>, cnt: nat)
    requires
        edges_ok(es, cnt),
        forall|i: int| 0 <= i < ls.len() ==> #[trigger] ls[i] < cnt,
        deg.len() == cnt,
    ensures
        match peel_leaves(es, ls, deg) {
            Some((d, n)) => d.len() == cnt && forall|i: int| 0 <= i < n.len() ==> #[trigger] n[i] < cnt,
            None => true,
        },
    decreases ls.len(),
{
    if ls.len() > 0 {
        lemma_peel_leaves_range(es, ls.drop_last(), deg, cnt);
        match peel_leaves(es, ls.drop_last(), deg) {
            None => {},
            Some((d1, n1)) => {
                let l = ls.last();
                assert(l == ls[ls.len() - 1]);
                lemma_incident_in_range(es, cnt, l as int);
                let ns = nbrs(es, l as int);
                assert forall|i: int| 0 <= i < ns.len() implies 0 <= #[trigger] ns[i] < cnt by {
                    assert(ns[i] == incident(es, l as int)[i].0);
                }
                lemma_peel_neighbors_range(ns, d1, n1, cnt);
            },
        }
    }
}

proof fn lemma_peel_neighbors_none(ns: Seq<int>, deg: Seq<Option<usize>>, next: Seq<usize>, k: int)
    requires
        0 <= k <= ns.len(),
        peel_neighbors(ns.take(k), deg, next) is None,
    ensures
        peel_neighbors(ns, deg, next) is None,
    decreases ns.len() - k,
{
    if k < ns.len() {
        assert(ns.take(k + 1).drop_last() =~= ns.take(k));
        lemma_peel_neighbors_none(ns, deg, next, k + 1);
    } else {
        assert(ns.take(k) =~= ns);
    }
}

proof fn lemma_peel_leaves_none(es: Seq<(int, int, Pin)>, ls: Seq<usize>, deg: Seq<Option<usize>>, k: int)
    requires
        0 <= k <= ls.len(),
        peel_leaves(es, ls.take(k), deg) is None,
    ensures
        peel_leaves(es, ls, deg) is None,
    decreases ls.len() - k,
{
    if k < ls.len() {
        assert(ls.take(k + 1).drop_last() =~= ls.take(k));
        lemma_peel_leaves_none(es, ls, deg, k + 1);
    } else {
        assert(ls.take(k) =~= ls);
    }
}

fn exec_peel_leaves(t: &Graph<BCNode, Pin, Undirected, u32>, ls: &Vec<usize>, deg: &mut Vec<Option<usize>>) -> (r: Option<Vec<usize>>)
    requires
        edges_ok(tree_edges(*t), tree_nodes(*t).len()),
        old(deg)@.len() == tree_nodes(*t).len(),
        forall|i: int| 0 <= i < ls@.len() ==> #[trigger] ls@[i] < old(deg)@.len(),
    ensures
        final(deg)@.len() == old(deg)@.len(),
        match r {
            Some(n) => peel_leaves(tree_edges(*t), ls@, old(deg)@) == Some((final(deg)@, n@)),
            None => peel_leaves(tree_edges(*t), ls@, old(deg)@) is None,
        },
{
    let ghost es = tree_edges(*t);
    let ghost d0 = deg@;
    let mut next: Vec<usize> = Vec::new();
    let mut i: usize = 0;
    while i < ls.len()
        invariant
            es == tree_edges(*t),
            edges_ok(es, tree_nodes(*t).len()),
            d0.len() == tree_nodes(*t).len(),
            forall|k: int| 0 <= k < ls@.len() ==> #[trigger] ls@[k] < d0.len(),
            i <= ls.len(),
            d0 == old(deg)@,
            deg@.len() == d0.len(),
            peel_leaves(es, ls@.take(i as int), d0) == Some((deg@, next@)),
        decreases ls.len() - i,
    {
        let l = ls[i];
        proof {
            assert(ls@.take(i + 1).drop_last() =~= ls@.take(i as int));
            lemma_incident_in_range(es, tree_nodes(*t).len(), l as int);
        }
        let ns = tree_neighbors(t, l);
        proof {
            assert(ns@.map_values(|x: usize| x as int) =~= nbrs(es, l as int));
        }
        if !exec_peel_neighbors(&ns, deg, &mut next) {
            proof {
                lemma_peel_leaves_none(es, ls@, d0, i + 1);
            }
            return None;
        }
        deg.set(l, None);
        i += 1;
    }
    assert(ls@.take(ls.len() as int) =~= ls@);
    Some(next)
}

/// The centers of a block-cut tree: all its nodes when it has at most two; otherwise
/// the nodes left after removing the leaves round by round, until the removed
/// nodes and the current leaves account for all nodes. `None` where the rounds would
/// run out of leaves before that, or a degree would drop below zero.
pub fn find_centers(t: &Graph<BCNode, Pin, Undirected, u32>) -> (r: Option<Vec<usize>>)
    requires
        edges_ok(tree_edges(*t), tree_nodes(*t).len()),
    ensures
        match r {
            Some(c) => tree_centers(tree_edges(*t), tree_nodes(*t).len()) == Some(c@),
            None => tree_centers(tree_edges(*t), tree_nodes(*t).len()) is None,
        },
{
    let ghost es = tree_edges(*t);
    let cnt = tree_node_count(t);
    if cnt <= 2 {
        let mut all: Vec<usize> = Vec::new();
        let mut v: usize = 0;
        while v < cnt
            invariant
                v <= cnt,
                all@ == Seq::new(v as nat, |i: int| i as usize),
            decreases cnt - v,
        {
            all.push(v);
            v += 1;
            assert(all@ =~= Seq::new(v as nat, |i: int| i as usize));
        }
        return Some(all);
    }
    let ghost deg0 = Seq::new(cnt as nat, |v: int| Some(nbrs(es, v).len() as usize));
    let mut deg: Vec<Option<usize>> = Vec::new();
    let mut v: usize = 0;
    while v < cnt
        invariant
            es == tree_edges(*t),
            cnt == tree_nodes(*t).len(),
            v <= cnt,
            deg@ == deg0.take(v as int),
            deg0 == Seq::new(cnt as nat, |v: int| Some(nbrs(es, v).len() as usize)),
        decreases cnt - v,
    {
        let ns = tree_neighbors(t, v);
        deg.push(Some(ns.len()));
        v += 1;
        assert(deg@ =~= deg0.take(v as int));
    }
    assert(deg0.take(cnt as int) =~= deg0);
    let mut leaves: Vec<usize> = Vec::new();
    let mut v: usize = 0;
    while v < cnt
        invariant
            v <= cnt,
            deg@.len() == cnt,
            leaves@ == degree_one(deg@, v as int),
            forall|k: int| 0 <= k < leaves@.len() ==> #[trigger] leaves@[k] < v,
        decreases cnt - v,
    {
        if deg[v] == Some(1usize) {
            leaves.push(v);
        }
        v += 1;
    }
    let mut rem: usize = 0;
    while leaves.len() < cnt - rem
        invariant
            cnt > 2,
            deg0 == Seq::new(cnt as nat, |v: int| Some(nbrs(es, v).len() as usize)),
            es == tree_edges(*t),
            edges_ok(es, tree_nodes(*t).len()),
            cnt == tree_nodes(*t).len(),
            deg@.len() == cnt,
            rem <= cnt,
            forall|k: int| 0 <= k < leaves@.len() ==> #[trigger] leaves@[k] < cnt,
            peel(es, cnt as nat, deg0, degree_one(deg0, cnt as int), 0) == peel(es, cnt as nat, deg@, leaves@, rem as nat),
        decreases cnt - rem,
    {
        if leaves.len() == 0 {
            return None;
        }
        let r2 = rem + leaves.len();
        let ghost deg_before = deg@;
        let ghost leaves_before = leaves@;
        match exec_peel_leaves(t, &leaves, &mut deg) {
            None => {
                return None;
            },
            Some(nx) => {
                proof {
                    lemma_peel_leaves_range(es, leaves_before, deg_before, cnt as nat);
                }
                leaves = nx;
            },
        }
        rem = r2;
    }
    let mut out: Vec<usize> = Vec::new();
    let mut v: usize = 0;
    while v < cnt
        invariant
            v <= cnt,
            deg@.len() == cnt,
            out@ == present(deg@, v as int),
        decreases cnt - v,
    {
        if deg[v].is_some() {
            out.push(v);
        }
        v += 1;
    }
    Some(out)
}

} // verus!
