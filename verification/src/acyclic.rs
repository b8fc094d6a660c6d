//! Trees without a cycle: the subtree search never runs out of depth on them, so a
//! tree matches itself and its mirror image is found.

use vstd::prelude::*;

use crate::blocks::{edges_ok, lemma_incident_in_range};
use crate::figures::{incident, Pin};
use crate::matching::{
    config_scan, configs, depth_below, drop_parent, find_partner, lemma_self_rec, match_children, match_rec, TreeView,
};
use crate::mirror::{lemma_mirror_rec, mirrored};
use crate::traversal::distinct;

verus! {

/// `y` is a neighbour of `x`: some edge at `x` leads to `y`.
pub open spec fn neighbour(a: TreeView, x: usize, y: usize) -> bool {
    exists|k: int| 0 <= k < incident(a.edges, x as int).len() && #[trigger] incident(a.edges, x as int)[k].0 == y as int
}

/// `w` walks along edges without turning straight back: each next node is a
/// neighbour of the one before it and differs from the one before that.
pub open spec fn onward_walk(a: TreeView, w: Seq<usize>) -> bool {
    &&& forall|i: int, j: int| #![trigger w[i], w[j]] 0 <= i && j == i + 1 && j < w.len() ==> neighbour(a, w[i], w[j])
    &&& forall|i: int, j: int| #![trigger w[i], w[j]] 0 <= i && j == i + 2 && j < w.len() ==> w[j] != w[i]
}

/// The tree has no cycle: no walk that never turns straight back passes a node twice.
pub open spec fn acyclic(a: TreeView) -> bool {
    forall|w: Seq<usize>| #[trigger] onward_walk(a, w) ==> distinct(w)
}

/// Where a walk came from: the node before its last one, if any.
pub open spec fn walk_parent(w: Seq<usize>) -> Option<usize> {
    if w.len() >= 2 {
        Some(w[w.len() - 2])
    } else {
        None
    }
}

/// With depth to spare, the search answers, whatever the other tree.
pub proof fn lemma_depth_some(
    a: TreeView,
    u: usize,
    pu: Option<usize>,
    b: TreeView,
    v: usize,
    pv: Option<usize>,
    xf: int,
    yf: int,
    fuel: nat,
)
    requires
        depth_below(a, u, pu, fuel),
    ensures
        match_rec(a, u, pu, b, v, pv, xf, yf, fuel) is Some,
    decreases fuel, 0nat, 0int,
{
    let ca = drop_parent(incident(a.edges, u as int), pu);
    let cb = drop_parent(incident(b.edges, v as int), pv);
    assert forall|k: int| 0 <= k < ca.len() implies depth_below(a, #[trigger] ca[k].0 as usize, Some(u), (fuel - 1) as nat) by {
        assert(depth_below(a, drop_parent(incident(a.edges, u as int), pu)[k].0 as usize, Some(u), (fuel - 1) as nat));
    }
    lemma_children_some(a, u, ca, 0, b, v, cb, Seq::new(cb.len(), |i: int| false), xf, yf, (fuel - 1) as nat);
}

proof fn lemma_children_some(
    a: TreeView,
    u: usize,
    ca: Seq<(int, Pin)>,
    i: int,
    b: TreeView,
    v: usize,
    cb: Seq<(int, Pin)>,
    matched: Seq<bool>,
    xf: int,
    yf: int,
    fuel: nat,
)
    requires
        forall|k: int| 0 <= k < ca.len() ==> depth_below(a, #[trigger] ca[k].0 as usize, Some(u), fuel),
    ensures
        match_children(a, u, ca, i, b, v, cb, matched, xf, yf, fuel) is Some,
    decreases fuel, 2nat, ca.len() - i,
{
    if 0 <= i < ca.len() {
        lemma_partner_some(a, ca[i].0 as usize, ca[i].1, u, b, v, cb, 0, matched, xf, yf, fuel);
        if let Some(Some(j)) = find_partner(a, ca[i].0 as usize, ca[i].1, u, b, v, cb, 0, matched, xf, yf, fuel) {
            lemma_children_some(a, u, ca, i + 1, b, v, cb, matched.update(j, true), xf, yf, fuel);
        }
    }
}

proof fn lemma_partner_some(
    a: TreeView,
    child: usize,
    pin: Pin,
    u: usize,
    b: TreeView,
    v: usize,
    cb: Seq<(int, Pin)>,
    j: int,
    matched: Seq<bool>,
    xf: int,
    yf: int,
    fuel: nat,
)
    requires
        depth_below(a, child, Some(u), fuel),
    ensures
        find_partner(a, child, pin, u, b, v, cb, j, matched, xf, yf, fuel) is Some,
    decreases fuel, 1nat, cb.len() - j,
{
    if 0 <= j < cb.len() {
        lemma_depth_some(a, child, Some(u), b, cb[j].0 as usize, Some(v), xf, yf, fuel);
        lemma_partner_some(a, child, pin, u, b, v, cb, j + 1, matched, xf, yf, fuel);
    }
}

/// More depth than needed is still enough.
pub proof fn lemma_depth_more(a: TreeView, u: usize, pu: Option<usize>, fuel: nat)
    requires
        depth_below(a, u, pu, fuel),
    ensures
        depth_below(a, u, pu, fuel + 1),
    decreases fuel,
{
    let ca = drop_parent(incident(a.edges, u as int), pu);
    assert forall|i: int| 0 <= i < ca.len() implies depth_below(a, #[trigger] ca[i].0 as usize, Some(u), fuel) by {
        assert(depth_below(a, ca[i].0 as usize, Some(u), (fuel - 1) as nat));
        if fuel > 1 {
            lemma_depth_more(a, ca[i].0 as usize, Some(u), (fuel - 1) as nat);
        } else {
            assert(depth_below(a, ca[i].0 as usize, Some(u), 0) == false);
        }
    }
}

proof fn lemma_drop_parent_entry(inc: Seq<(int, Pin)>, parent: Option<usize>, i: int)
    requires
        0 <= i < drop_parent(inc, parent).len(),
    ensures
        exists|k: int| 0 <= k < inc.len() && inc[k] == drop_parent(inc, parent)[i],
        parent != Some(drop_parent(inc, parent)[i].0 as usize),
    decreases inc.len(),
{
    let rest = drop_parent(inc.drop_last(), parent);
    if i < rest.len() {
        lemma_drop_parent_entry(inc.drop_last(), parent, i);
        let k = choose|k: int| 0 <= k < inc.drop_last().len() && inc.drop_last()[k] == rest[i];
        assert(inc[k] == inc.drop_last()[k]);
    } else {
        assert(inc[inc.len() - 1] == inc.last());
    }
}

proof fn lemma_distinct_len(w: Seq<usize>, n: nat)
    requires
        distinct(w),
        forall|i: int| 0 <= i < w.len() ==> #[trigger] w[i] < n,
    ensures
        w.len() <= n,
{
    let s = w.map_values(|x: usize| x as int);
    assert forall|i: int, j: int| 0 <= i < s.len() && 0 <= j < s.len() && i != j implies s[i] != s[j] by {
        if i < j {
            assert(w[i] != w[j]);
        } else {
            assert(w[j] != w[i]);
        }
    }
    assert(s.no_duplicates());
    s.unique_seq_to_set();
    vstd::set_lib::lemma_int_range(0, n as int);
    assert forall|x: int| s.to_set().contains(x) implies vstd::set_lib::set_int_range(0, n as int).contains(x) by {
        let i = choose|i: int| 0 <= i < s.len() && s[i] == x;
        assert(w[i] < n);
    }
    vstd::set_lib::lemma_len_subset(s.to_set(), vstd::set_lib::set_int_range(0, n as int));
}

/// On a tree without a cycle, the search from the end of any onward walk has depth to
/// spare: the subtree ahead is shallower than the nodes the walk has not used.
proof fn lemma_walk_depth(a: TreeView, w: Seq<usize>)
    requires
        acyclic(a),
        edges_ok(a.edges, a.nodes.len()),
        a.nodes.len() <= usize::MAX,
        onward_walk(a, w),
        w.len() >= 1,
        forall|i: int| 0 <= i < w.len() ==> #[trigger] w[i] < a.nodes.len(),
    ensures
        w.len() <= a.nodes.len(),
        depth_below(a, w.last(), walk_parent(w), (a.nodes.len() + 1 - w.len()) as nat),
    decreases a.nodes.len() + 1 - w.len(),
{
    let n = a.nodes.len();
    lemma_distinct_len(w, n);
    let u = w.last();
    let pu = walk_parent(w);
    let fuel = (n + 1 - w.len()) as nat;
    let inc = incident(a.edges, u as int);
    let ca = drop_parent(inc, pu);
    lemma_incident_in_range(a.edges, n, u as int);
    assert forall|i: int| 0 <= i < ca.len() implies depth_below(a, #[trigger] ca[i].0 as usize, Some(u), (fuel - 1) as nat) by {
        lemma_drop_parent_entry(inc, pu, i);
        let k = choose|k: int| 0 <= k < inc.len() && inc[k] == ca[i];
        let c = ca[i].0 as usize;
        assert(0 <= inc[k].0 < n);
        assert(incident(a.edges, u as int)[k].0 == c as int);
        assert(neighbour(a, u, c));
        let w2 = w.push(c);
        assert forall|x: int, y: int| #![trigger w2[x], w2[y]] 0 <= x && y == x + 1 && y < w2.len() implies neighbour(a, w2[x], w2[y]) by {
            if y < w.len() {
                assert(w2[x] == w[x] && w2[y] == w[y]);
            } else {
                assert(w2[x] == w[w.len() - 1]);
            }
        }
        assert forall|x: int, y: int| #![trigger w2[x], w2[y]] 0 <= x && y == x + 2 && y < w2.len() implies w2[y] != w2[x] by {
            if y < w.len() {
                assert(w2[x] == w[x] && w2[y] == w[y]);
            } else {
                assert(w2[x] == w[w.len() - 2]);
            }
        }
        assert(onward_walk(a, w2));
        assert forall|x: int| 0 <= x < w2.len() implies #[trigger] w2[x] < n by {
            if x < w.len() {
                assert(w2[x] == w[x]);
            }
        }
        lemma_distinct_len(w2, n);
        lemma_walk_depth(a, w2);
        assert(w2.last() == c);
        assert(walk_parent(w2) == Some(u));
    }
}

/// A tree without a cycle matches itself: under the identity mirroring the search
/// from any node, entered from nothing or from one of its neighbours, answers that
/// the subtree matches.
pub proof fn lemma_tree_matches_itself_at(a: TreeView, u: usize, pu: Option<usize>)
    requires
        acyclic(a),
        edges_ok(a.edges, a.nodes.len()),
        a.nodes.len() <= usize::MAX,
        u < a.nodes.len(),
        pu matches Some(p) ==> p < a.nodes.len() && neighbour(a, p, u),
    ensures
        match_rec(a, u, pu, a, u, pu, 1, 1, a.nodes.len()) == Some(true),
{
    let n = a.nodes.len();
    match pu {
        None => {
            let w = seq![u];
            assert(onward_walk(a, w));
            lemma_walk_depth(a, w);
        },
        Some(p) => {
            let w = seq![p, u];
            assert forall|x: int, y: int| #![trigger w[x], w[y]] 0 <= x && y == x + 1 && y < w.len() implies neighbour(a, w[x], w[y]) by {
                assert(x == 0 && w[0] == p && w[1] == u);
            }
            assert(onward_walk(a, w));
            assert(w.last() == u && walk_parent(w) == Some(p));
            lemma_walk_depth(a, w);
            lemma_depth_more(a, u, pu, (n - 1) as nat);
        },
    }
    lemma_depth_some(a, u, pu, a, u, pu, 1, 1, n);
    lemma_self_rec(a, u, pu, n);
}

/// A mirror image is recognised: when `b` is a tree without a cycle, `a`, mirrored
/// by one of the four mirrorings, trying the mirrorings in turn from the same node
/// answers that they match.
pub proof fn lemma_mirror_recognised(a: TreeView, b: TreeView, u: usize, k: int)
    requires
        0 <= k < 4,
        mirrored(a, b, configs()[k].0, configs()[k].1),
        acyclic(a),
        edges_ok(a.edges, a.nodes.len()),
        a.nodes.len() <= usize::MAX,
        u < a.nodes.len(),
    ensures
        config_scan(a, u, None, b, u, None, 0) == Some(true),
{
    let w = seq![u];
    assert(onward_walk(a, w));
    lemma_walk_depth(a, w);
    lemma_scan_true(a, b, u, k, 0);
}

proof fn lemma_scan_true(a: TreeView, b: TreeView, u: usize, k: int, j: int)
    requires
        0 <= j <= k < 4,
        mirrored(a, b, configs()[k].0, configs()[k].1),
        edges_ok(a.edges, a.nodes.len()),
        u < a.nodes.len(),
        depth_below(a, u, None, a.nodes.len()),
    ensures
        config_scan(a, u, None, b, u, None, j) == Some(true),
    decreases k - j,
{
    lemma_depth_some(a, u, None, b, u, None, configs()[j].0, configs()[j].1, a.nodes.len());
    if j == k {
        lemma_mirror_rec(a, b, u, None, configs()[k].0, configs()[k].1, a.nodes.len());
    } else {
        lemma_scan_true(a, b, u, k, j + 1);
    }
}

/// No child taken yet.
pub open spec fn none_taken(n: nat) -> Seq<bool> {
    Seq::new(n, |k: int| false)
}

/// The children of `u` (entered from `pu`) are paired one for one with children of
/// `v` (from `pv`): `pair[i]` is the partner of the `i`-th, no two share one, each
/// partner is one the search had not paired yet, its stick is the mirrored stick, and
/// its subtree matches.
pub open spec fn children_paired(
    a: TreeView,
    u: usize,
    ca: Seq<(int, Pin)>,
    b: TreeView,
    v: usize,
    cb: Seq<(int, Pin)>,
    taken: Seq<bool>,
    pair: Seq<int>,
    xf: int,
    yf: int,
    fuel: nat,
) -> bool {
    &&& pair.len() == ca.len()
    &&& forall|i: int| 0 <= i < ca.len() ==> 0 <= #[trigger] pair[i] < cb.len() && !taken[pair[i]]
        && crate::matching::pin_matches(ca[i].1, cb[pair[i]].1, xf, yf)
        && match_rec(a, ca[i].0 as usize, Some(u), b, cb[pair[i]].0 as usize, Some(v), xf, yf, fuel) == Some(true)
    &&& forall|i: int, j: int| 0 <= i < j < ca.len() ==> pair[i] != pair[j]
}

proof fn lemma_partner_found(
    a: TreeView,
    child: usize,
    pin: Pin,
    u: usize,
    b: TreeView,
    v: usize,
    cb: Seq<(int, Pin)>,
    j: int,
    matched: Seq<bool>,
    xf: int,
    yf: int,
    fuel: nat,
)
    ensures
        find_partner(a, child, pin, u, b, v, cb, j, matched, xf, yf, fuel) matches Some(Some(k)) ==> j <= k < cb.len()
            && !matched[k] && crate::matching::pin_matches(pin, cb[k].1, xf, yf)
            && match_rec(a, child, Some(u), b, cb[k].0 as usize, Some(v), xf, yf, fuel) == Some(true),
    decreases cb.len() - j,
{
    if 0 <= j < cb.len() {
        lemma_partner_found(a, child, pin, u, b, v, cb, j + 1, matched, xf, yf, fuel);
    }
}

proof fn lemma_children_paired(
    a: TreeView,
    u: usize,
    ca: Seq<(int, Pin)>,
    i: int,
    b: TreeView,
    v: usize,
    cb: Seq<(int, Pin)>,
    matched: Seq<bool>,
    xf: int,
    yf: int,
    fuel: nat,
)
    requires
        0 <= i <= ca.len(),
        matched.len() == cb.len(),
    ensures
        match_children(a, u, ca, i, b, v, cb, matched, xf, yf, fuel) == Some(true) ==> exists|pair: Seq<int>|
            #[trigger] children_paired(a, u, ca.skip(i), b, v, cb, matched, pair, xf, yf, fuel),
    decreases ca.len() - i,
{
    if i == ca.len() {
        let pair = Seq::<int>::empty();
        assert(children_paired(a, u, ca.skip(i), b, v, cb, matched, pair, xf, yf, fuel));
    } else {
        let child = ca[i].0 as usize;
        lemma_partner_found(a, child, ca[i].1, u, b, v, cb, 0, matched, xf, yf, fuel);
        if let Some(Some(k)) = find_partner(a, child, ca[i].1, u, b, v, cb, 0, matched, xf, yf, fuel) {
            let m2 = matched.update(k, true);
            lemma_children_paired(a, u, ca, i + 1, b, v, cb, m2, xf, yf, fuel);
            if match_children(a, u, ca, i, b, v, cb, matched, xf, yf, fuel) == Some(true) {
                let rest = choose|pair: Seq<int>| #[trigger] children_paired(a, u, ca.skip(i + 1), b, v, cb, m2, pair, xf, yf, fuel);
                let pair = seq![k] + rest;
                let cs = ca.skip(i);
                assert forall|q: int| 0 <= q < cs.len() implies 0 <= #[trigger] pair[q] < cb.len() && !matched[pair[q]]
                    && crate::matching::pin_matches(cs[q].1, cb[pair[q]].1, xf, yf)
                    && match_rec(a, cs[q].0 as usize, Some(u), b, cb[pair[q]].0 as usize, Some(v), xf, yf, fuel) == Some(true) by {
                    if q > 0 {
                        assert(pair[q] == rest[q - 1]);
                        assert(cs[q] == ca.skip(i + 1)[q - 1]);
                        assert(!m2[rest[q - 1]]);
                    } else {
                        assert(pair[0] == k && cs[0] == ca[i]);
                    }
                }
                assert forall|q: int, r: int| 0 <= q < r < cs.len() implies pair[q] != pair[r] by {
                    assert(pair[r] == rest[r - 1]);
                    if q > 0 {
                        assert(pair[q] == rest[q - 1]);
                    } else {
                        assert(!m2[rest[r - 1]]);
                    }
                }
                assert(pair.len() == cs.len());
                assert(children_paired(a, u, cs, b, v, cb, matched, pair, xf, yf, fuel));
            }
        }
    }
}

/// When the search answers that the subtree at `u` (entered from `pu`) matches the
/// subtree at `v` (entered from `pv`), the nodes match, they have equally many
/// children, and the children are paired one for one, each with a child whose stick
/// is the mirrored stick and whose subtree matches its own.
pub proof fn lemma_match_pairs_children(
    a: TreeView,
    u: usize,
    pu: Option<usize>,
    b: TreeView,
    v: usize,
    pv: Option<usize>,
    xf: int,
    yf: int,
    fuel: nat,
)
    ensures
        match_rec(a, u, pu, b, v, pv, xf, yf, fuel) == Some(true) ==> {
            let ca = drop_parent(incident(a.edges, u as int), pu);
            let cb = drop_parent(incident(b.edges, v as int), pv);
            &&& crate::matching::node_match(a.nodes[u as int], b.nodes[v as int], xf, yf)
            &&& ca.len() == cb.len()
            &&& exists|pair: Seq<int>|
                #[trigger] children_paired(a, u, ca, b, v, cb, none_taken(cb.len()), pair, xf, yf, (fuel - 1) as nat)
        },
{
    if fuel > 0 {
        let ca = drop_parent(incident(a.edges, u as int), pu);
        let cb = drop_parent(incident(b.edges, v as int), pv);
        lemma_children_paired(a, u, ca, 0, b, v, cb, none_taken(cb.len()), xf, yf, (fuel - 1) as nat);
        assert(none_taken(cb.len()) == Seq::new(cb.len(), |i: int| false));
        assert(ca.skip(0) =~= ca);
    }
}

} // verus!
