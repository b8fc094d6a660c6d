//! A mirrored tree is recognised: when one block-cut tree is the image of another
//! under a mirroring, the search under that mirroring never answers that they do
//! not match.

use vstd::prelude::*;

use crate::blocks::{edges_ok, lemma_incident_in_range};
use crate::figures::{incident, incoming, outgoing, Pin};
use crate::matching::{
    config_scan, configs, drop_parent, find_partner, match_children, match_rec, node_match, pin_matches,
    scaled, as_int_pairs, TreeView,
};

verus! {

/// Node shape `n2` is `n1` mirrored by the factors: both articulation points, or
/// blocks whose vectors correspond one for one.
pub open spec fn shapes_mirrored(n1: Option<Seq<(i32, i32)>>, n2: Option<Seq<(i32, i32)>>, xf: int, yf: int) -> bool {
    match (n1, n2) {
        (None, None) => true,
        (Some(e1), Some(e2)) => e1.len() == e2.len() && forall|k: int|
            0 <= k < e1.len() ==> (#[trigger] e2[k]).0 == e1[k].0 * xf && e2[k].1 == e1[k].1 * yf,
        _ => false,
    }
}

/// Edge list `eb` is `ea` with every stick mirrored by the factors.
pub open spec fn edges_mirrored(ea: Seq<(int, int, Pin)>, eb: Seq<(int, int, Pin)>, xf: int, yf: int) -> bool {
    &&& ea.len() == eb.len()
    &&& forall|e: int|
        0 <= e < ea.len() ==> (#[trigger] eb[e]).0 == ea[e].0 && eb[e].1 == ea[e].1 && pin_matches(ea[e].2, eb[e].2, xf, yf)
}

/// Tree `b` is tree `a` mirrored by the factors: the same nodes and edges, in the
/// same order, with every block vector and stick mirrored.
pub open spec fn mirrored(a: TreeView, b: TreeView, xf: int, yf: int) -> bool {
    &&& a.nodes.len() == b.nodes.len()
    &&& forall|i: int| 0 <= i < a.nodes.len() ==> #[trigger] shapes_mirrored(a.nodes[i], b.nodes[i], xf, yf)
    &&& edges_mirrored(a.edges, b.edges, xf, yf)
}

/// Two lists of (neighbour, stick) correspond under the mirroring.
pub open spec fn lists_mirrored(ca: Seq<(int, Pin)>, cb: Seq<(int, Pin)>, xf: int, yf: int) -> bool {
    &&& ca.len() == cb.len()
    &&& forall|i: int| 0 <= i < ca.len() ==> (#[trigger] cb[i]).0 == ca[i].0 && pin_matches(ca[i].1, cb[i].1, xf, yf)
}

proof fn lemma_lists_concat(a1: Seq<(int, Pin)>, a2: Seq<(int, Pin)>, b1: Seq<(int, Pin)>, b2: Seq<(int, Pin)>, xf: int, yf: int)
    requires
        lists_mirrored(a1, b1, xf, yf),
        lists_mirrored(a2, b2, xf, yf),
    ensures
        lists_mirrored(a1 + a2, b1 + b2, xf, yf),
{
    assert forall|i: int| 0 <= i < (a1 + a2).len() implies (#[trigger] (b1 + b2)[i]).0 == (a1 + a2)[i].0 && pin_matches(
        (a1 + a2)[i].1,
        (b1 + b2)[i].1,
        xf,
        yf,
    ) by {
        if i < a1.len() {
            assert((b1 + b2)[i] == b1[i] && (a1 + a2)[i] == a1[i]);
        } else {
            assert((b1 + b2)[i] == b2[i - a1.len()] && (a1 + a2)[i] == a2[i - a1.len()]);
        }
    }
}

proof fn lemma_incident_mirrored(ea: Seq<(int, int, Pin)>, eb: Seq<(int, int, Pin)>, u: int, xf: int, yf: int)
    requires
        edges_mirrored(ea, eb, xf, yf),
    ensures
        lists_mirrored(outgoing(ea, u), outgoing(eb, u), xf, yf),
        lists_mirrored(incoming(ea, u), incoming(eb, u), xf, yf),
        lists_mirrored(incident(ea, u), incident(eb, u), xf, yf),
    decreases ea.len(),
{
    if ea.len() > 0 {
        let da = ea.drop_last();
        let db = eb.drop_last();
        assert forall|e: int| 0 <= e < da.len() implies (#[trigger] db[e]).0 == da[e].0 && db[e].1 == da[e].1 && pin_matches(
            da[e].2,
            db[e].2,
            xf,
            yf,
        ) by {
            assert(db[e] == eb[e] && da[e] == ea[e]);
        }
        lemma_incident_mirrored(da, db, u, xf, yf);
        let x = ea.last();
        let y = eb.last();
        assert(y == eb[eb.len() - 1] && x == ea[ea.len() - 1]);
        if x.0 == u {
            assert(lists_mirrored(seq![(x.1, x.2)], seq![(y.1, y.2)], xf, yf));
            lemma_lists_concat(seq![(x.1, x.2)], outgoing(da, u), seq![(y.1, y.2)], outgoing(db, u), xf, yf);
        }
        if x.1 == u && x.0 != u {
            assert(lists_mirrored(seq![(x.0, x.2)], seq![(y.0, y.2)], xf, yf));
            lemma_lists_concat(seq![(x.0, x.2)], incoming(da, u), seq![(y.0, y.2)], incoming(db, u), xf, yf);
        }
    }
    lemma_lists_concat(outgoing(ea, u), incoming(ea, u), outgoing(eb, u), incoming(eb, u), xf, yf);
}

proof fn lemma_drop_parent_mirrored(ia: Seq<(int, Pin)>, ib: Seq<(int, Pin)>, parent: Option<usize>, n: int, xf: int, yf: int)
    requires
        lists_mirrored(ia, ib, xf, yf),
        forall|i: int| 0 <= i < ia.len() ==> 0 <= #[trigger] ia[i].0 < n,
    ensures
        lists_mirrored(drop_parent(ia, parent), drop_parent(ib, parent), xf, yf),
        forall|i: int| 0 <= i < drop_parent(ia, parent).len() ==> 0 <= #[trigger] drop_parent(ia, parent)[i].0 < n,
    decreases ia.len(),
{
    if ia.len() > 0 {
        let da = ia.drop_last();
        let db = ib.drop_last();
        assert forall|i: int| 0 <= i < da.len() implies (#[trigger] db[i]).0 == da[i].0 && pin_matches(da[i].1, db[i].1, xf, yf) by {
            assert(db[i] == ib[i] && da[i] == ia[i]);
        }
        lemma_drop_parent_mirrored(da, db, parent, n, xf, yf);
        let x = ia.last();
        let y = ib.last();
        assert(y == ib[ib.len() - 1] && x == ia[ia.len() - 1]);
        let ra = drop_parent(da, parent);
        let rb = drop_parent(db, parent);
        if parent != Some(x.0 as usize) {
            assert(lists_mirrored(seq![x], seq![y], xf, yf));
            lemma_lists_concat(ra, seq![x], rb, seq![y], xf, yf);
            assert(ra.push(x) =~= ra + seq![x]);
            assert(rb.push(y) =~= rb + seq![y]);
            assert forall|i: int| 0 <= i < ra.push(x).len() implies 0 <= #[trigger] ra.push(x)[i].0 < n by {
                if i < ra.len() {
                    assert(ra.push(x)[i] == ra[i]);
                }
            }
        }
    }
}

proof fn lemma_skip_mirrored(
    a: TreeView,
    b: TreeView,
    child: usize,
    pin: Pin,
    u: usize,
    cb: Seq<(int, Pin)>,
    j: int,
    i: int,
    xf: int,
    yf: int,
    fuel: nat,
)
    requires
        0 <= j <= i <= cb.len(),
    ensures
        find_partner(a, child, pin, u, b, u, cb, j, Seq::new(cb.len(), |k: int| k < i), xf, yf, fuel) == find_partner(
            a,
            child,
            pin,
            u,
            b,
            u,
            cb,
            i,
            Seq::new(cb.len(), |k: int| k < i),
            xf,
            yf,
            fuel,
        ),
    decreases i - j,
{
    if j < i {
        lemma_skip_mirrored(a, b, child, pin, u, cb, j + 1, i, xf, yf, fuel);
    }
}

/// The mirror image of a subtree is recognised: when `b` is `a` mirrored by the
/// factors, the search under those factors from the same node and parent never
/// answers that they do not match (it may only run out of depth, on a graph with a
/// cycle).
pub proof fn lemma_mirror_rec(a: TreeView, b: TreeView, u: usize, pu: Option<usize>, xf: int, yf: int, fuel: nat)
    requires
        mirrored(a, b, xf, yf),
        edges_ok(a.edges, a.nodes.len()),
        u < a.nodes.len(),
    ensures
        match_rec(a, u, pu, b, u, pu, xf, yf, fuel) != Some(false),
    decreases fuel, 0nat, 0int,
{
    if fuel > 0 {
        assert(shapes_mirrored(a.nodes[u as int], b.nodes[u as int], xf, yf));
        if let (Some(e1), Some(e2)) = (a.nodes[u as int], b.nodes[u as int]) {
            assert(scaled(e1, xf, yf) =~= as_int_pairs(e2));
        }
        assert(node_match(a.nodes[u as int], b.nodes[u as int], xf, yf));
        lemma_incident_mirrored(a.edges, b.edges, u as int, xf, yf);
        lemma_incident_in_range(a.edges, a.nodes.len(), u as int);
        let ia = incident(a.edges, u as int);
        lemma_drop_parent_mirrored(ia, incident(b.edges, u as int), pu, a.nodes.len() as int, xf, yf);
        let ca = drop_parent(ia, pu);
        let cb = drop_parent(incident(b.edges, u as int), pu);
        assert(Seq::new(cb.len(), |i: int| false) =~= Seq::new(cb.len(), |k: int| k < 0));
        lemma_mirror_children(a, b, u, ca, cb, 0, xf, yf, (fuel - 1) as nat);
    }
}

proof fn lemma_mirror_children(
    a: TreeView,
    b: TreeView,
    u: usize,
    ca: Seq<(int, Pin)>,
    cb: Seq<(int, Pin)>,
    i: int,
    xf: int,
    yf: int,
    fuel: nat,
)
    requires
        mirrored(a, b, xf, yf),
        edges_ok(a.edges, a.nodes.len()),
        lists_mirrored(ca, cb, xf, yf),
        forall|q: int| 0 <= q < ca.len() ==> 0 <= #[trigger] ca[q].0 < a.nodes.len(),
        0 <= i <= ca.len(),
    ensures
        match_children(a, u, ca, i, b, u, cb, Seq::new(cb.len(), |k: int| k < i), xf, yf, fuel) != Some(false),
    decreases fuel, 1nat, ca.len() - i,
{
    if i < ca.len() {
        let matched = Seq::new(cb.len(), |k: int| k < i);
        let child = ca[i].0 as usize;
        let pin = ca[i].1;
        assert(cb[i].0 == ca[i].0);
        assert(0 <= ca[i].0 < a.nodes.len());
        lemma_skip_mirrored(a, b, child, pin, u, cb, 0, i, xf, yf, fuel);
        lemma_mirror_rec(a, b, child, Some(u), xf, yf, fuel);
        assert(pin_matches(pin, cb[i].1, xf, yf));
        if match_rec(a, child, Some(u), b, cb[i].0 as usize, Some(u), xf, yf, fuel) == Some(true) {
            assert(find_partner(a, child, pin, u, b, u, cb, i, matched, xf, yf, fuel) == Some(Some(i)));
            assert(matched.update(i, true) =~= Seq::new(cb.len(), |k: int| k < i + 1));
            lemma_mirror_children(a, b, u, ca, cb, i + 1, xf, yf, fuel);
        }
    }
}

/// A mirror image is found: when `b` is `a` mirrored by one of the four mirrorings,
/// trying the mirrorings in turn from the same root never answers that the trees do
/// not match.
pub proof fn lemma_mirror_found(a: TreeView, b: TreeView, u: usize, k: int)
    requires
        0 <= k < 4,
        mirrored(a, b, configs()[k].0, configs()[k].1),
        edges_ok(a.edges, a.nodes.len()),
        u < a.nodes.len(),
    ensures
        config_scan(a, u, None, b, u, None, 0) != Some(false),
{
    lemma_mirror_scan(a, b, u, k, 0);
}

proof fn lemma_mirror_scan(a: TreeView, b: TreeView, u: usize, k: int, j: int)
    requires
        0 <= j <= k < 4,
        mirrored(a, b, configs()[k].0, configs()[k].1),
        edges_ok(a.edges, a.nodes.len()),
        u < a.nodes.len(),
    ensures
        config_scan(a, u, None, b, u, None, j) != Some(false),
    decreases k - j,
{
    if j < k {
        lemma_mirror_scan(a, b, u, k, j + 1);
    } else {
        lemma_mirror_rec(a, b, u, None, configs()[k].0, configs()[k].1, a.nodes.len());
    }
}

} // verus!
