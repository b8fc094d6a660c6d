//! Whether two block-cut trees, rooted at given nodes, are the same up to mirroring
//! the figure horizontally and/or vertically.

use vstd::prelude::*;

use petgraph::graph::Graph;
use petgraph::Undirected;

use crate::blocks::{edges_ok, lemma_incident_in_range};
use crate::centers::{find_centers, lemma_centers_in_range, lemma_centers_nonempty, tree_centers};
use crate::figures::{incident, tree_edges, tree_incident, tree_node, tree_node_count, tree_nodes, Axis, BCNode, Pin};

verus! {

/// Number of occurrences of `x` in `s`.
pub open spec fn count_in(s: Seq<(int, int)>, x: (int, int)) -> nat
    decreases s.len(),
{
    if s.len() == 0 {
        0
    } else {
        count_in(s.drop_last(), x) + if s.last() == x { 1nat } else { 0nat }
    }
}

/// The two sequences hold the same vectors, counted with multiplicity.
pub open spec fn same_multiset(a: Seq<(int, int)>, b: Seq<(int, int)>) -> bool {
    forall|x: (int, int)| #[trigger] count_in(a, x) == count_in(b, x)
}

/// A block's vectors after mirroring by the factors `xf` and `yf`.
pub open spec fn scaled(e: Seq<(i32, i32)>, xf: int, yf: int) -> Seq<(int, int)> {
    e.map_values(|p: (i32, i32)| (p.0 * xf, p.1 * yf))
}

/// A block's vectors as integers.
pub open spec fn as_int_pairs(e: Seq<(i32, i32)>) -> Seq<(int, int)> {
    e.map_values(|p: (i32, i32)| (p.0 as int, p.1 as int))
}

/// What the matching reads of a tree node: `None` for an articulation point, the
/// stick vectors for a block.
pub open spec fn node_shape(n: BCNode) -> Option<Seq<(i32, i32)>> {
    match n {
        BCNode::ArticulationPoint(_) => None,
        BCNode::Block { edges } => Some(edges@),
    }
}

/// Two tree nodes match under the mirroring: two articulation points, or two
/// blocks of equally many sticks whose mirrored vectors are the same multiset.
pub open spec fn node_match(na: Option<Seq<(i32, i32)>>, nb: Option<Seq<(i32, i32)>>, xf: int, yf: int) -> bool {
    match (na, nb) {
        (None, None) => true,
        (Some(e1), Some(e2)) => e1.len() == e2.len() && same_multiset(scaled(e1, xf, yf), as_int_pairs(e2)),
        _ => false,
    }
}

/// The edges at a node other than those back to `parent`, in order.
pub open spec fn drop_parent(inc: Seq<(int, Pin)>, parent: Option<usize>) -> Seq<(int, Pin)>
    decreases inc.len(),
{
    if inc.len() == 0 {
        Seq::empty()
    } else {
        let rest = drop_parent(inc.drop_last(), parent);
        if parent == Some(inc.last().0 as usize) {
            rest
        } else {
            rest.push(inc.last())
        }
    }
}

/// Stick `q` is stick `p` mirrored by the factors.
pub open spec fn pin_matches(p: Pin, q: Pin, xf: int, yf: int) -> bool {
    q.axis == p.axis && q.sign as int == p.sign as int * (if p.axis == Axis::Horizontal { xf } else { yf })
}

/// A tree: the shapes of its nodes and its edges.
pub struct TreeView {
    pub nodes: Seq<Option<Seq<(i32, i32)>>>,
    pub edges: Seq<(int, int, Pin)>,
}

/// Subtree of `a` at `u` (entered from `pu`) matches subtree of `b` at `v` (entered
/// from `pv`): the nodes match, they have equally many children, and each child of
/// `u` in turn is paired with the first unpaired child of `v` along an equal
/// mirrored stick whose subtree matches. `None` when the recursion goes deeper than
/// `fuel`, which a tree of fewer nodes never does.
pub open spec fn match_rec(a: TreeView, u: usize, pu: Option<usize>, b: TreeView, v: usize, pv: Option<usize>, xf: int, yf: int, fuel: nat) -> Option<bool>
    decreases fuel, 0nat, 0int, 0int,
{
    if fuel == 0 {
        None
    } else if !node_match(a.nodes[u as int], b.nodes[v as int], xf, yf) {
        Some(false)
    } else {
        let ca = drop_parent(incident(a.edges, u as int), pu);
        let cb = drop_parent(incident(b.edges, v as int), pv);
        if ca.len() != cb.len() {
            Some(false)
        } else {
            match_children(a, u, ca, 0, b, v, cb, Seq::new(cb.len(), |i: int| false), xf, yf, (fuel - 1) as nat)
        }
    }
}

/// Pairs the children `ca[i..]` of `u` in turn; `matched` marks the children of `v`
/// already paired.
pub open spec fn match_children(
    a: TreeView,
    u: usize,
    ca: Seq<(int, Pin)>,
    i: int,
    b: TreeView,
    v: usize,
    cb: Seq<(int, Pin)>,
    matched: Seq<bool>,
    xf: int,
    yf: int,
    fuel: nat,
) -> Option<bool>
    decreases fuel, 2nat, ca.len() - i, 0int,
{
    if i < 0 || i >= ca.len() {
        Some(true)
    } else {
        match find_partner(a, ca[i].0 as usize, ca[i].1, u, b, v, cb, 0, matched, xf, yf, fuel) {
            None => None,
            Some(None) => Some(false),
            Some(Some(j)) => match_children(a, u, ca, i + 1, b, v, cb, matched.update(j, true), xf, yf, fuel),
        }
    }
}

/// The first unpaired child of `v` from position `j` on whose stick is `pin`
/// mirrored and whose subtree matches that of `child`.
pub open spec fn find_partner(
    a: TreeView,
    child: usize,
    pin: Pin,
    u: usize,
    b: TreeView,
    v: usize,
    cb: Seq<(int, Pin)>,
    j: int,
    matched: Seq<bool>,
    xf: int,
    yf: int,
    fuel: nat,
) -> Option<Option<int>>
    decreases fuel, 1nat, 0int, cb.len() - j,
{
    if j < 0 || j >= cb.len() {
        Some(None)
    } else if !matched[j] && pin_matches(pin, cb[j].1, xf, yf) {
        match match_rec(a, child, Some(u), b, cb[j].0 as usize, Some(v), xf, yf, fuel) {
            None => None,
            Some(true) => Some(Some(j)),
            Some(false) => find_partner(a, child, pin, u, b, v, cb, j + 1, matched, xf, yf, fuel),
        }
    } else {
        find_partner(a, child, pin, u, b, v, cb, j + 1, matched, xf, yf, fuel)
    }
}

/// A block-cut tree as the matching reads it.
pub open spec fn tree_view(g: Graph<BCNode, Pin, Undirected, u32>) -> TreeView {
    TreeView { nodes: tree_nodes(g).map_values(|n: BCNode| node_shape(n)), edges: tree_edges(g) }
}

/// Pairs of `i64` as integer pairs.
pub open spec fn wide_pairs(s: Seq<(i64, i64)>) -> Seq<(int, int)> {
    s.map_values(|p: (i64, i64)| (p.0 as int, p.1 as int))
}

proof fn lemma_count_pos(s: Seq<(int, int)>, x: (int, int))
    requires
        count_in(s, x) > 0,
    ensures
        exists|i: int| 0 <= i < s.len() && s[i] == x,
    decreases s.len(),
{
    if s.last() != x {
        lemma_count_pos(s.drop_last(), x);
        let i = choose|i: int| 0 <= i < s.drop_last().len() && s.drop_last()[i] == x;
        assert(s[i] == x);
    } else {
        assert(s[s.len() - 1] == x);
    }
}

fn count_wide(s: &Vec<(i64, i64)>, x: (i64, i64)) -> (c: usize)
    ensures
        c == count_in(wide_pairs(s@), (x.0 as int, x.1 as int)),
{
    let ghost w = wide_pairs(s@);
    let mut c: usize = 0;
    let mut i: usize = 0;
    while i < s.len()
        invariant
            w == wide_pairs(s@),
            i <= s.len(),
            c <= i,
            c == count_in(w.take(i as int), (x.0 as int, x.1 as int)),
        decreases s.len() - i,
    {
        proof {
            assert(w.take(i + 1).drop_last() =~= w.take(i as int));
        }
        if s[i].0 == x.0 && s[i].1 == x.1 {
            c += 1;
        }
        i += 1;
    }
    assert(w.take(s.len() as int) =~= w);
    c
}

fn same_multiset_exec(a: &Vec<(i64, i64)>, b: &Vec<(i64, i64)>) -> (r: bool)
    ensures
        r == same_multiset(wide_pairs(a@), wide_pairs(b@)),
{
    let ghost wa = wide_pairs(a@);
    let ghost wb = wide_pairs(b@);
    let mut i: usize = 0;
    while i < a.len()
        invariant
            wa == wide_pairs(a@),
            wb == wide_pairs(b@),
            i <= a.len(),
            forall|k: int| 0 <= k < i ==> count_in(wa, #[trigger] wa[k]) == count_in(wb, wa[k]),
        decreases a.len() - i,
    {
        let x = a[i];
        if count_wide(a, x) != count_wide(b, x) {
            assert(wa[i as int] == (x.0 as int, x.1 as int));
            return false;
        }
        i += 1;
    }
    let mut j: usize = 0;
    while j < b.len()
        invariant
            wa == wide_pairs(a@),
            wb == wide_pairs(b@),
            j <= b.len(),
            forall|k: int| 0 <= k < a@.len() ==> count_in(wa, #[trigger] wa[k]) == count_in(wb, wa[k]),
            forall|k: int| 0 <= k < j ==> count_in(wa, #[trigger] wb[k]) == count_in(wb, wb[k]),
        decreases b.len() - j,
    {
        let x = b[j];
        if count_wide(a, x) != count_wide(b, x) {
            assert(wb[j as int] == (x.0 as int, x.1 as int));
            return false;
        }
        j += 1;
    }
    proof {
        assert forall|x: (int, int)| #[trigger] count_in(wa, x) == count_in(wb, x) by {
            if count_in(wa, x) > 0 {
                lemma_count_pos(wa, x);
                let k = choose|k: int| 0 <= k < wa.len() && wa[k] == x;
            } else if count_in(wb, x) > 0 {
                lemma_count_pos(wb, x);
                let k = choose|k: int| 0 <= k < wb.len() && wb[k] == x;
            }
        }
    }
    true
}

fn node_match_exec(na: &BCNode, nb: &BCNode, xf: i8, yf: i8) -> (r: bool)
    ensures
        r == node_match(node_shape(*na), node_shape(*nb), xf as int, yf as int),
{
    match (na, nb) {
        (BCNode::ArticulationPoint(_), BCNode::ArticulationPoint(_)) => true,
        (BCNode::Block { edges: e1 }, BCNode::Block { edges: e2 }) => {
            if e1.len() != e2.len() {
                return false;
            }
            let mut te1: Vec<(i64, i64)> = Vec::new();
            let mut e2c: Vec<(i64, i64)> = Vec::new();
            let xw: i64 = xf as i64;
            let yw: i64 = yf as i64;
            let mut k: usize = 0;
            while k < e1.len()
                invariant
                    k <= e1.len(),
                    xw == xf as int,
                    yw == yf as int,
                    te1@.len() == k,
                    forall|i: int| 0 <= i < k ==> (#[trigger] te1@[i]).0 == e1@[i].0 * xf && te1@[i].1 == e1@[i].1 * yf,
                decreases e1.len() - k,
            {
                let (dx, dy) = e1[k];
                let a: i64 = dx as i64;
                let b: i64 = dy as i64;
                assert(-0x8000_0000_0000 <= a * xw <= 0x8000_0000_0000) by (nonlinear_arith)
                    requires
                        -0x8000_0000 <= a <= 0x8000_0000,
                        -0x80 <= xw <= 0x80,
                ;
                assert(-0x8000_0000_0000 <= b * yw <= 0x8000_0000_0000) by (nonlinear_arith)
                    requires
                        -0x8000_0000 <= b <= 0x8000_0000,
                        -0x80 <= yw <= 0x80,
                ;
                te1.push((a * xw, b * yw));
                k += 1;
            }
            let mut q: usize = 0;
            while q < e2.len()
                invariant
                    q <= e2.len(),
                    e2c@.len() == q,
                    forall|i: int| 0 <= i < q ==> (#[trigger] e2c@[i]).0 == e2@[i].0 && e2c@[i].1 == e2@[i].1,
                decreases e2.len() - q,
            {
                let (dx, dy) = e2[q];
                e2c.push((dx as i64, dy as i64));
                q += 1;
            }
            assert(wide_pairs(te1@) =~= scaled(e1@, xf as int, yf as int));
            assert(wide_pairs(e2c@) =~= as_int_pairs(e2@));
            same_multiset_exec(&te1, &e2c)
        },
        _ => false,
    }
}

fn children_exec(t: &Graph<BCNode, Pin, Undirected, u32>, u: usize, parent: Option<usize>) -> (c: Vec<(usize, Pin)>)
    requires
        u < tree_nodes(*t).len(),
        edges_ok(tree_edges(*t), tree_nodes(*t).len()),
    ensures
        c@.map_values(|p: (usize, Pin)| (p.0 as int, p.1)) == drop_parent(incident(tree_edges(*t), u as int), parent),
        forall|k: int| 0 <= k < c@.len() ==> #[trigger] c@[k].0 < tree_nodes(*t).len(),
{
    let inc = tree_incident(t, u);
    let ghost iv = incident(tree_edges(*t), u as int);
    proof {
        lemma_incident_in_range(tree_edges(*t), tree_nodes(*t).len(), u as int);
    }
    let mut c: Vec<(usize, Pin)> = Vec::new();
    let mut k: usize = 0;
    while k < inc.len()
        invariant
            iv == incident(tree_edges(*t), u as int),
            inc@.len() == iv.len(),
            forall|i: int| 0 <= i < inc@.len() ==> (#[trigger] inc@[i]).0 as int == iv[i].0 && inc@[i].1 == iv[i].1,
            forall|i: int| 0 <= i < iv.len() ==> 0 <= #[trigger] iv[i].0 < tree_nodes(*t).len(),
            k <= inc.len(),
            c@.map_values(|p: (usize, Pin)| (p.0 as int, p.1)) == drop_parent(iv.take(k as int), parent),
            forall|i: int| 0 <= i < c@.len() ==> #[trigger] c@[i].0 < tree_nodes(*t).len(),
        decreases inc.len() - k,
    {
        let (w, pin) = inc[k];
        proof {
            assert(iv.take(k + 1).drop_last() =~= iv.take(k as int));
            assert(iv.take(k + 1).last() == iv[k as int]);
            assert(iv[k as int] == (w as int, pin));
        }
        let is_parent = match parent {
            Some(p) => p == w,
            None => false,
        };
        if !is_parent {
            c.push((w, pin));
            assert(c@.map_values(|p: (usize, Pin)| (p.0 as int, p.1)) =~= drop_parent(iv.take(k + 1), parent));
        }
        k += 1;
    }
    assert(iv.take(inc.len() as int) =~= iv);
    c
}

fn pin_matches_exec(p: Pin, q: Pin, xf: i8, yf: i8) -> (r: bool)
    ensures
        r == pin_matches(p, q, xf as int, yf as int),
{
    let f: i16 = if p.axis == Axis::Horizontal { xf as i16 } else { yf as i16 };
    let sg: i16 = p.sign as i16;
    assert(-0x4000 <= sg * f <= 0x4000) by (nonlinear_arith)
        requires
            -0x80 <= sg <= 0x80,
            -0x80 <= f <= 0x80,
    ;
    let want: i16 = sg * f;
    q.axis == p.axis && q.sign as i16 == want
}

/// Both trees' edges join nodes of their own tree.
pub open spec fn trees_ok(ta: Graph<BCNode, Pin, Undirected, u32>, tb: Graph<BCNode, Pin, Undirected, u32>) -> bool {
    &&& edges_ok(tree_edges(ta), tree_nodes(ta).len())
    &&& edges_ok(tree_edges(tb), tree_nodes(tb).len())
}

/// `match_rec` with the recursion bounded by `fuel`.
fn match_within(
    ta: &Graph<BCNode, Pin, Undirected, u32>,
    u: usize,
    pu: Option<usize>,
    tb: &Graph<BCNode, Pin, Undirected, u32>,
    v: usize,
    pv: Option<usize>,
    xf: i8,
    yf: i8,
    fuel: u64,
) -> (r: Option<bool>)
    requires
        u < tree_nodes(*ta).len(),
        v < tree_nodes(*tb).len(),
        trees_ok(*ta, *tb),
    ensures
        r == match_rec(tree_view(*ta), u, pu, tree_view(*tb), v, pv, xf as int, yf as int, fuel as nat),
    decreases fuel,
{
    let ghost a = tree_view(*ta);
    let ghost b = tree_view(*tb);
    if fuel == 0 {
        return None;
    }
    let na = tree_node(ta, u);
    let nb = tree_node(tb, v);
    if !node_match_exec(na, nb, xf, yf) {
        return Some(false);
    }
    let ca = children_exec(ta, u, pu);
    let cb = children_exec(tb, v, pv);
    let ghost cav = ca@.map_values(|p: (usize, Pin)| (p.0 as int, p.1));
    let ghost cbv = cb@.map_values(|p: (usize, Pin)| (p.0 as int, p.1));
    if ca.len() != cb.len() {
        return Some(false);
    }
    let ghost f1 = (fuel - 1) as nat;
    let mut matched: Vec<bool> = Vec::new();
    let mut k: usize = 0;
    while k < cb.len()
        invariant
            k <= cb.len(),
            matched@ == Seq::new(k as nat, |i: int| false),
        decreases cb.len() - k,
    {
        matched.push(false);
        k += 1;
        assert(matched@ =~= Seq::new(k as nat, |i: int| false));
    }
    let ghost whole = match_rec(a, u, pu, b, v, pv, xf as int, yf as int, fuel as nat);
    assert(whole == match_children(a, u, cav, 0, b, v, cbv, matched@, xf as int, yf as int, f1));
    let mut i: usize = 0;
    while i < ca.len()
        invariant
            a == tree_view(*ta),
            b == tree_view(*tb),
            trees_ok(*ta, *tb),
            u < tree_nodes(*ta).len(),
            v < tree_nodes(*tb).len(),
            cav == ca@.map_values(|p: (usize, Pin)| (p.0 as int, p.1)),
            cbv == cb@.map_values(|p: (usize, Pin)| (p.0 as int, p.1)),
            forall|q: int| 0 <= q < ca@.len() ==> #[trigger] ca@[q].0 < tree_nodes(*ta).len(),
            forall|q: int| 0 <= q < cb@.len() ==> #[trigger] cb@[q].0 < tree_nodes(*tb).len(),
            fuel > 0,
            f1 == fuel - 1,
            i <= ca.len(),
            matched@.len() == cb@.len(),
            whole == match_rec(a, u, pu, b, v, pv, xf as int, yf as int, fuel as nat),
            whole == match_children(a, u, cav, i as int, b, v, cbv, matched@, xf as int, yf as int, f1),
        decreases ca.len() - i,
    {
        let (child, pin) = ca[i];
        assert(cav[i as int] == (child as int, pin));
        let ghost partner = find_partner(a, child, pin, u, b, v, cbv, 0, matched@, xf as int, yf as int, f1);
        let mut found: Option<usize> = None;
        let mut j: usize = 0;
        while j < cb.len() && found.is_none()
            invariant
                a == tree_view(*ta),
                b == tree_view(*tb),
                trees_ok(*ta, *tb),
                v < tree_nodes(*tb).len(),
                u < tree_nodes(*ta).len(),
                child < tree_nodes(*ta).len(),
                cbv == cb@.map_values(|p: (usize, Pin)| (p.0 as int, p.1)),
                forall|q: int| 0 <= q < cb@.len() ==> #[trigger] cb@[q].0 < tree_nodes(*tb).len(),
                fuel > 0,
                f1 == fuel - 1,
                j <= cb.len(),
                matched@.len() == cb@.len(),
                found.is_none() ==> partner == find_partner(a, child, pin, u, b, v, cbv, j as int, matched@, xf as int, yf as int, f1),
                found matches Some(jj) ==> jj < cb@.len() && partner == Some(Some(jj as int)),
                partner == find_partner(a, child, pin, u, b, v, cbv, 0, matched@, xf as int, yf as int, f1),
                whole == match_children(a, u, cav, i as int, b, v, cbv, matched@, xf as int, yf as int, f1),
                whole == match_rec(a, u, pu, b, v, pv, xf as int, yf as int, fuel as nat),
                0 <= i < cav.len(),
                cav[i as int] == (child as int, pin),
            decreases cb.len() - j,
        {
            let (w, q) = cb[j];
            assert(cbv[j as int] == (w as int, q));
            if !matched[j] && pin_matches_exec(pin, q, xf, yf) {
                match match_within(ta, child, Some(u), tb, w, Some(v), xf, yf, fuel - 1) {
                    None => {
                        assert(find_partner(a, child, pin, u, b, v, cbv, j as int, matched@, xf as int, yf as int, f1) is None);
                        assert(match_children(a, u, cav, i as int, b, v, cbv, matched@, xf as int, yf as int, f1) is None);
                        return None;
                    },
                    Some(true) => {
                        found = Some(j);
                    },
                    Some(false) => {},
                }
            }
            j += 1;
        }
        match found {
            None => {
                return Some(false);
            },
            Some(jj) => {
                matched.set(jj, true);
            },
        }
        i += 1;
    }
    Some(true)
}

/// Whether the subtree of `t_a` at `u`, entered from `pu`, matches the subtree of
/// `t_b` at `v`, entered from `pv`, with horizontal sticks mirrored by `xf` and
/// vertical ones by `yf`. `None` when the recursion would go deeper than `t_a` has
/// nodes, which happens only where the graphs have cycles (there the search never
/// ends).
pub fn match_recursive(
    u: usize,
    pu: Option<usize>,
    t_a: &Graph<BCNode, Pin, Undirected, u32>,
    v: usize,
    pv: Option<usize>,
    t_b: &Graph<BCNode, Pin, Undirected, u32>,
    xf: i8,
    yf: i8,
) -> (r: Option<bool>)
    requires
        u < tree_nodes(*t_a).len(),
        v < tree_nodes(*t_b).len(),
        trees_ok(*t_a, *t_b),
    ensures
        r == match_rec(tree_view(*t_a), u, pu, tree_view(*t_b), v, pv, xf as int, yf as int, tree_nodes(*t_a).len()),
{
    let n = tree_node_count(t_a);
    match_within(t_a, u, pu, t_b, v, pv, xf, yf, n as u64)
}

/// The four mirrorings, in the order they are tried.
pub open spec fn configs() -> Seq<(int, int)> {
    seq![(1int, 1int), (1int, -1int), (-1int, 1int), (-1int, -1int)]
}

/// The mirrorings from the `k`-th on, tried in turn: the first answer that is not
/// `Some(false)` is the answer.
pub open spec fn config_scan(a: TreeView, u: usize, pu: Option<usize>, b: TreeView, v: usize, pv: Option<usize>, k: int) -> Option<bool>
    decreases 4 - k,
{
    if k < 0 || k >= 4 {
        Some(false)
    } else {
        match match_rec(a, u, pu, b, v, pv, configs()[k].0, configs()[k].1, a.nodes.len()) {
            Some(false) => config_scan(a, u, pu, b, v, pv, k + 1),
            r => r,
        }
    }
}

/// Whether some mirroring makes the subtrees at `u` and `v` match; `None` where the
/// recursion runs away (see `match_recursive`).
pub fn check_transformable(
    u: usize,
    pu: Option<usize>,
    t_a: &Graph<BCNode, Pin, Undirected, u32>,
    v: usize,
    pv: Option<usize>,
    t_b: &Graph<BCNode, Pin, Undirected, u32>,
) -> (r: Option<bool>)
    requires
        u < tree_nodes(*t_a).len(),
        v < tree_nodes(*t_b).len(),
        trees_ok(*t_a, *t_b),
    ensures
        r == config_scan(tree_view(*t_a), u, pu, tree_view(*t_b), v, pv, 0),
{
    let ghost a = tree_view(*t_a);
    let ghost b = tree_view(*t_b);
    let cs: [(i8, i8); 4] = [(1, 1), (1, -1), (-1, 1), (-1, -1)];
    let mut k: usize = 0;
    while k < 4
        invariant
            k <= 4,
            a == tree_view(*t_a),
            b == tree_view(*t_b),
            u < tree_nodes(*t_a).len(),
            v < tree_nodes(*t_b).len(),
            trees_ok(*t_a, *t_b),
            cs@ == seq![(1i8, 1i8), (1i8, -1i8), (-1i8, 1i8), (-1i8, -1i8)],
            config_scan(a, u, pu, b, v, pv, 0) == config_scan(a, u, pu, b, v, pv, k as int),
        decreases 4 - k,
    {
        let (xf, yf) = cs[k];
        assert(xf as int == configs()[k as int].0 && yf as int == configs()[k as int].1);
        assert(a.nodes.len() == tree_nodes(*t_a).len());
        match match_recursive(u, pu, t_a, v, pv, t_b, xf, yf) {
            Some(false) => {},
            r => {
                return r;
            },
        }
        k += 1;
    }
    Some(false)
}

/// The roots of `cb` from position `j` on, tried against root `ra` of `a`: the first
/// answer that is not `Some(false)`.
pub open spec fn roots_b(a: TreeView, b: TreeView, ra: usize, cb: Seq<usize>, j: int) -> Option<bool>
    decreases cb.len() - j,
{
    if j < 0 || j >= cb.len() {
        Some(false)
    } else {
        match config_scan(a, ra, None, b, cb[j], None, 0) {
            Some(false) => roots_b(a, b, ra, cb, j + 1),
            r => r,
        }
    }
}

/// The roots of `ca` from position `i` on, each tried against every root of `cb`.
pub open spec fn roots(a: TreeView, b: TreeView, ca: Seq<usize>, cb: Seq<usize>, i: int) -> Option<bool>
    decreases ca.len() - i,
{
    if i < 0 || i >= ca.len() {
        Some(false)
    } else {
        match roots_b(a, b, ca[i], cb, 0) {
            Some(false) => roots(a, b, ca, cb, i + 1),
            r => r,
        }
    }
}

/// Two block-cut trees are the same figure up to mirroring when, for some center of
/// each taken as root, some mirroring makes the rooted trees match. `None` where the
/// centers cannot be found or the recursion runs away.
pub open spec fn compare_trees(a: TreeView, b: TreeView) -> Option<bool> {
    match (tree_centers(a.edges, a.nodes.len()), tree_centers(b.edges, b.nodes.len())) {
        (Some(ca), Some(cb)) => roots(a, b, ca, cb, 0),
        _ => None,
    }
}

/// Whether the figures of two block-cut trees can be turned into each other by
/// mirroring: every center of `t_a` is tried against every center of `t_b`.
pub fn trees_transformable(t_a: &Graph<BCNode, Pin, Undirected, u32>, t_b: &Graph<BCNode, Pin, Undirected, u32>) -> (r: Option<bool>)
    requires
        trees_ok(*t_a, *t_b),
    ensures
        r == compare_trees(tree_view(*t_a), tree_view(*t_b)),
{
    let ghost a = tree_view(*t_a);
    let ghost b = tree_view(*t_b);
    let ca = match find_centers(t_a) {
        Some(c) => c,
        None => {
            return None;
        },
    };
    let cb = match find_centers(t_b) {
        Some(c) => c,
        None => {
            return None;
        },
    };
    proof {
        lemma_centers_in_range(tree_edges(*t_a), tree_nodes(*t_a).len());
        lemma_centers_in_range(tree_edges(*t_b), tree_nodes(*t_b).len());
    }
    let mut i: usize = 0;
    while i < ca.len()
        invariant
            a == tree_view(*t_a),
            b == tree_view(*t_b),
            trees_ok(*t_a, *t_b),
            tree_centers(a.edges, a.nodes.len()) == Some(ca@),
            tree_centers(b.edges, b.nodes.len()) == Some(cb@),
            forall|q: int| 0 <= q < ca@.len() ==> #[trigger] ca@[q] < tree_nodes(*t_a).len(),
            forall|q: int| 0 <= q < cb@.len() ==> #[trigger] cb@[q] < tree_nodes(*t_b).len(),
            i <= ca.len(),
            compare_trees(a, b) == roots(a, b, ca@, cb@, i as int),
        decreases ca.len() - i,
    {
        let ra = ca[i];
        let mut j: usize = 0;
        while j < cb.len()
            invariant
                a == tree_view(*t_a),
                b == tree_view(*t_b),
                trees_ok(*t_a, *t_b),
                ra < tree_nodes(*t_a).len(),
                forall|q: int| 0 <= q < cb@.len() ==> #[trigger] cb@[q] < tree_nodes(*t_b).len(),
                j <= cb.len(),
                i < ca.len(),
                ra == ca@[i as int],
                compare_trees(a, b) == roots(a, b, ca@, cb@, i as int),
                roots_b(a, b, ra, cb@, 0) == roots_b(a, b, ra, cb@, j as int),
            decreases cb.len() - j,
        {
            let rb = cb[j];
            match check_transformable(ra, None, t_a, rb, None, t_b) {
                Some(false) => {},
                r => {
                    return r;
                },
            }
            j += 1;
        }
        i += 1;
    }
    Some(false)
}

proof fn lemma_node_matches_itself(n: Option<Seq<(i32, i32)>>)
    ensures
        node_match(n, n, 1, 1),
{
    if let Some(e) = n {
        assert(scaled(e, 1, 1) =~= as_int_pairs(e));
    }
}

proof fn lemma_skip_matched(
    a: TreeView,
    child: usize,
    pin: Pin,
    u: usize,
    cb: Seq<(int, Pin)>,
    j: int,
    i: int,
    fuel: nat,
)
    requires
        0 <= j <= i <= cb.len(),
    ensures
        find_partner(a, child, pin, u, a, u, cb, j, Seq::new(cb.len(), |k: int| k < i), 1, 1, fuel) == find_partner(
            a,
            child,
            pin,
            u,
            a,
            u,
            cb,
            i,
            Seq::new(cb.len(), |k: int| k < i),
            1,
            1,
            fuel,
        ),
    decreases i - j,
{
    if j < i {
        lemma_skip_matched(a, child, pin, u, cb, j + 1, i, fuel);
    }
}

/// Under the identity mirroring a subtree matches itself: the search never answers
/// that it does not (it may only run out of depth, on a graph with a cycle).
pub proof fn lemma_self_rec(a: TreeView, u: usize, pu: Option<usize>, fuel: nat)
    ensures
        match_rec(a, u, pu, a, u, pu, 1, 1, fuel) != Some(false),
    decreases fuel, 0nat, 0int,
{
    if fuel > 0 {
        lemma_node_matches_itself(a.nodes[u as int]);
        let ca = drop_parent(incident(a.edges, u as int), pu);
        assert(Seq::new(ca.len(), |i: int| false) =~= Seq::new(ca.len(), |k: int| k < 0));
        lemma_self_children(a, u, ca, 0, (fuel - 1) as nat);
    }
}

proof fn lemma_self_children(a: TreeView, u: usize, ca: Seq<(int, Pin)>, i: int, fuel: nat)
    requires
        0 <= i <= ca.len(),
    ensures
        match_children(a, u, ca, i, a, u, ca, Seq::new(ca.len(), |k: int| k < i), 1, 1, fuel) != Some(false),
    decreases fuel, 1nat, ca.len() - i,
{
    if i < ca.len() {
        let matched = Seq::new(ca.len(), |k: int| k < i);
        let child = ca[i].0 as usize;
        let pin = ca[i].1;
        lemma_skip_matched(a, child, pin, u, ca, 0, i, fuel);
        lemma_self_rec(a, child, Some(u), fuel);
        assert(pin_matches(pin, ca[i].1, 1, 1));
        if match_rec(a, child, Some(u), a, ca[i].0 as usize, Some(u), 1, 1, fuel) == Some(true) {
            assert(find_partner(a, child, pin, u, a, u, ca, i, matched, 1, 1, fuel) == Some(Some(i)));
            assert(matched.update(i, true) =~= Seq::new(ca.len(), |k: int| k < i + 1));
            lemma_self_children(a, u, ca, i + 1, fuel);
        }
    }
}

/// The subtree at `u`, entered from `pu`, reaches less than `fuel` levels deep: the
/// search has depth to spare there.
pub open spec fn depth_below(a: TreeView, u: usize, pu: Option<usize>, fuel: nat) -> bool
    decreases fuel,
{
    fuel > 0 && forall|i: int|
        0 <= i < drop_parent(incident(a.edges, u as int), pu).len() ==> depth_below(
            a,
            #[trigger] drop_parent(incident(a.edges, u as int), pu)[i].0 as usize,
            Some(u),
            (fuel - 1) as nat,
        )
}

/// Under the identity mirroring a subtree matches itself wherever the search has
/// depth to spare: then it answers that it matches.
pub proof fn lemma_self_match(a: TreeView, u: usize, pu: Option<usize>, fuel: nat)
    requires
        depth_below(a, u, pu, fuel),
    ensures
        match_rec(a, u, pu, a, u, pu, 1, 1, fuel) == Some(true),
    decreases fuel, 0nat, 0int,
{
    lemma_node_matches_itself(a.nodes[u as int]);
    let ca = drop_parent(incident(a.edges, u as int), pu);
    assert(Seq::new(ca.len(), |i: int| false) =~= Seq::new(ca.len(), |k: int| k < 0));
    assert forall|k: int| 0 <= k < ca.len() implies depth_below(a, #[trigger] ca[k].0 as usize, Some(u), (fuel - 1) as nat) by {
        assert(depth_below(a, drop_parent(incident(a.edges, u as int), pu)[k].0 as usize, Some(u), (fuel - 1) as nat));
    }
    lemma_self_children_match(a, u, ca, 0, (fuel - 1) as nat);
}

proof fn lemma_self_children_match(a: TreeView, u: usize, ca: Seq<(int, Pin)>, i: int, fuel: nat)
    requires
        0 <= i <= ca.len(),
        forall|k: int| 0 <= k < ca.len() ==> depth_below(a, #[trigger] ca[k].0 as usize, Some(u), fuel),
    ensures
        match_children(a, u, ca, i, a, u, ca, Seq::new(ca.len(), |k: int| k < i), 1, 1, fuel) == Some(true),
    decreases fuel, 1nat, ca.len() - i,
{
    if i < ca.len() {
        let matched = Seq::new(ca.len(), |k: int| k < i);
        let child = ca[i].0 as usize;
        let pin = ca[i].1;
        lemma_skip_matched(a, child, pin, u, ca, 0, i, fuel);
        assert(depth_below(a, ca[i].0 as usize, Some(u), fuel));
        lemma_self_match(a, child, Some(u), fuel);
        assert(pin_matches(pin, ca[i].1, 1, 1));
        assert(find_partner(a, child, pin, u, a, u, ca, i, matched, 1, 1, fuel) == Some(Some(i)));
        assert(matched.update(i, true) =~= Seq::new(ca.len(), |k: int| k < i + 1));
        lemma_self_children_match(a, u, ca, i + 1, fuel);
    }
}

/// A tree matches itself: comparing a tree that has nodes, and whose edges join its
/// nodes, with itself never answers that it does not.
pub proof fn lemma_tree_matches_itself(a: TreeView)
    requires
        edges_ok(a.edges, a.nodes.len()),
        a.nodes.len() > 0,
    ensures
        compare_trees(a, a) != Some(false),
{
    lemma_centers_nonempty(a.edges, a.nodes.len());
    if let Some(c) = tree_centers(a.edges, a.nodes.len()) {
        lemma_self_rec(a, c[0], None, a.nodes.len());
        assert(configs()[0] == (1int, 1int));
        assert(config_scan(a, c[0], None, a, c[0], None, 0) != Some(false));
        assert(roots_b(a, a, c[0], c, 0) != Some(false));
        assert(roots(a, a, c, c, 0) != Some(false));
    }
}

} // verus!
