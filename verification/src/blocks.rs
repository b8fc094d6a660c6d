//! Blocks and articulation points of a figure graph, found by one depth-first search
//! that keeps discovery times, low points and a stack of edges.

use vstd::prelude::*;

use petgraph::graph::Graph;
use petgraph::Undirected;

use crate::figures::{figure_edges, figure_incident, figure_node_count, figure_size, incident, Pin};

verus! {

/// Where the search stands: discovery time (0 while undiscovered) and low point of
/// each node, the clock, the stack of edges, the blocks found and the articulation
/// points found, in the order found.
pub struct BcView {
    pub disc: Seq<u32>,
    pub low: Seq<u32>,
    pub time: u32,
    pub stack: Seq<(usize, usize, Pin)>,
    pub blocks: Seq<Seq<(usize, usize, Pin)>>,
    pub aps: Seq<usize>,
}

/// The search state as it is kept.
pub struct BcRun {
    pub disc: Vec<u32>,
    pub low: Vec<u32>,
    pub time: u32,
    pub stack: Vec<(usize, usize, Pin)>,
    pub blocks: Vec<Vec<(usize, usize, Pin)>>,
    pub aps: Vec<usize>,
}

impl BcRun {
    /// The state as sequences.
    pub open spec fn view(&self) -> BcView {
        BcView {
            disc: self.disc@,
            low: self.low@,
            time: self.time,
            stack: self.stack@,
            blocks: Seq::new(self.blocks@.len(), |i: int| self.blocks@[i]@),
            aps: self.aps@,
        }
    }
}

/// `aps` with `u` added unless it is there already.
pub open spec fn ap_insert(aps: Seq<usize>, u: usize) -> Seq<usize> {
    if aps.contains(u) {
        aps
    } else {
        aps.push(u)
    }
}

/// Pops edges off `stack` up to and including the edge between `u` and `v`: the
/// popped edges, last pushed first, and what is left.
pub open spec fn pop_block(stack: Seq<(usize, usize, Pin)>, u: usize, v: usize) -> (Seq<(usize, usize, Pin)>, Seq<(usize, usize, Pin)>)
    decreases stack.len(),
{
    if stack.len() == 0 {
        (Seq::empty(), Seq::empty())
    } else {
        let e = stack.last();
        if (e.0 == u && e.1 == v) || (e.0 == v && e.1 == u) {
            (seq![e], stack.drop_last())
        } else {
            let r = pop_block(stack.drop_last(), u, v);
            (seq![e] + r.0, r.1)
        }
    }
}

/// Number of undiscovered nodes.
pub open spec fn count_zero(s: Seq<u32>) -> nat
    decreases s.len(),
{
    if s.len() == 0 {
        0
    } else {
        count_zero(s.drop_last()) + if s.last() == 0 { 1nat } else { 0nat }
    }
}

/// Visiting node `u` from parent `p`: it gets the next discovery time, then its
/// edges are handled in `petgraph` order; a root with more than one child is an
/// articulation point. `fuel` bounds the depth only.
pub open spec fn bc_visit(es: Seq<(int, int, Pin)>, u: usize, p: Option<usize>, s: BcView, fuel: nat) -> BcView
    decreases fuel, 0nat, 0int,
{
    if fuel == 0 {
        s
    } else {
        let t = (s.time + 1) as u32;
        let s1 = BcView { disc: s.disc.update(u as int, t), low: s.low.update(u as int, t), time: t, ..s };
        let r = bc_edges(es, u, p, incident(es, u as int), 0, s1, 0, (fuel - 1) as nat);
        if p is None && r.1 > 1 {
            BcView { aps: ap_insert(r.0.aps, u), ..r.0 }
        } else {
            r.0
        }
    }
}

/// Handling the edges `inc[i..]` at `u`: the edge back to the parent is skipped;
/// an edge to a discovered node lowers the low point of `u` and is pushed when it
/// leads to an earlier node; an edge to a new node is pushed and that node visited;
/// then, if nothing below it reaches above `u`, `u` separates (unless it is the
/// root) and the edges up to this one form a block. Returns the state and the number
/// of children.
pub open spec fn bc_edges(
    es: Seq<(int, int, Pin)>,
    u: usize,
    p: Option<usize>,
    inc: Seq<(int, Pin)>,
    i: int,
    s: BcView,
    children: nat,
    fuel: nat,
) -> (BcView, nat)
    decreases fuel, 1nat, inc.len() - i,
{
    if i < 0 || i >= inc.len() {
        (s, children)
    } else {
        let v = inc[i].0 as usize;
        let pin = inc[i].1;
        if p == Some(v) {
            bc_edges(es, u, p, inc, i + 1, s, children, fuel)
        } else if s.disc[v as int] != 0 {
            let dv = s.disc[v as int];
            let lu = if s.low[u as int] <= dv { s.low[u as int] } else { dv };
            let s2 = BcView {
                low: s.low.update(u as int, lu),
                stack: if dv < s.disc[u as int] { s.stack.push((u, v, pin)) } else { s.stack },
                ..s
            };
            bc_edges(es, u, p, inc, i + 1, s2, children, fuel)
        } else {
            let s2 = BcView { stack: s.stack.push((u, v, pin)), ..s };
            let s3 = bc_visit(es, v, Some(u), s2, fuel);
            let lv = s3.low[v as int];
            let lu = if s3.low[u as int] <= lv { s3.low[u as int] } else { lv };
            let s4 = BcView { low: s3.low.update(u as int, lu), ..s3 };
            let s5 = if lv >= s4.disc[u as int] {
                let aps = if p is Some { ap_insert(s4.aps, u) } else { s4.aps };
                let pb = pop_block(s4.stack, u, v);
                BcView { aps: aps, stack: pb.1, blocks: s4.blocks.push(pb.0), ..s4 }
            } else {
                s4
            };
            bc_edges(es, u, p, inc, i + 1, s5, children + 1, fuel)
        }
    }
}

/// The search state fits a graph of `n` nodes, and the clock counts the discovered nodes.
pub open spec fn run_ok(v: BcView, n: nat) -> bool {
    &&& v.disc.len() == n
    &&& v.low.len() == n
    &&& v.time + count_zero(v.disc) == n
    &&& n < u32::MAX
}

/// Every edge joins two of the `n` nodes.
pub open spec fn edges_ok(es: Seq<(int, int, Pin)>, n: nat) -> bool {
    forall|e: int| 0 <= e < es.len() ==> 0 <= #[trigger] es[e].0 < n && 0 <= es[e].1 < n
}

/// When every edge joins two of the `n` nodes, so does every edge at a node.
pub proof fn lemma_incident_in_range(es: Seq<(int, int, Pin)>, n: nat, u: int)
    requires
        edges_ok(es, n),
    ensures
        forall|i: int| 0 <= i < incident(es, u).len() ==> 0 <= #[trigger] incident(es, u)[i].0 < n,
{
    lemma_outgoing_in_range(es, n, u);
    lemma_incoming_in_range(es, n, u);
    assert forall|i: int| 0 <= i < incident(es, u).len() implies 0 <= #[trigger] incident(es, u)[i].0 < n by {
        let o = crate::figures::outgoing(es, u);
        if i < o.len() {
            assert(incident(es, u)[i] == o[i]);
        } else {
            assert(incident(es, u)[i] == crate::figures::incoming(es, u)[i - o.len()]);
        }
    }
}

proof fn lemma_outgoing_in_range(es: Seq<(int, int, Pin)>, n: nat, u: int)
    requires
        edges_ok(es, n),
    ensures
        forall|i: int| 0 <= i < crate::figures::outgoing(es, u).len() ==> 0 <= #[trigger] crate::figures::outgoing(es, u)[i].0 < n,
    decreases es.len(),
{
    if es.len() > 0 {
        let d = es.drop_last();
        assert(edges_ok(d, n)) by {
            assert forall|e: int| 0 <= e < d.len() implies 0 <= #[trigger] d[e].0 < n && 0 <= d[e].1 < n by {
                assert(d[e] == es[e]);
            }
        }
        lemma_outgoing_in_range(d, n, u);
        assert(0 <= es[es.len() - 1].0 < n);
        assert(0 <= es[es.len() - 1].1 < n);
        let o = crate::figures::outgoing(es, u);
        let r = crate::figures::outgoing(d, u);
        assert forall|i: int| 0 <= i < o.len() implies 0 <= #[trigger] o[i].0 < n by {
            let e = es.last();
            if e.0 == u {
                if i > 0 {
                    assert(o[i] == r[i - 1]);
                }
            } else {
                assert(o[i] == r[i]);
            }
        }
    }
}

proof fn lemma_incoming_in_range(es: Seq<(int, int, Pin)>, n: nat, u: int)
    requires
        edges_ok(es, n),
    ensures
        forall|i: int| 0 <= i < crate::figures::incoming(es, u).len() ==> 0 <= #[trigger] crate::figures::incoming(es, u)[i].0 < n,
    decreases es.len(),
{
    if es.len() > 0 {
        let d = es.drop_last();
        assert(edges_ok(d, n)) by {
            assert forall|e: int| 0 <= e < d.len() implies 0 <= #[trigger] d[e].0 < n && 0 <= d[e].1 < n by {
                assert(d[e] == es[e]);
            }
        }
        lemma_incoming_in_range(d, n, u);
        assert(0 <= es[es.len() - 1].0 < n);
        assert(0 <= es[es.len() - 1].1 < n);
        let o = crate::figures::incoming(es, u);
        let r = crate::figures::incoming(d, u);
        assert forall|i: int| 0 <= i < o.len() implies 0 <= #[trigger] o[i].0 < n by {
            let e = es.last();
            if e.1 == u && e.0 != u {
                if i > 0 {
                    assert(o[i] == r[i - 1]);
                }
            } else {
                assert(o[i] == r[i]);
            }
        }
    }
}

proof fn lemma_count_zero_update(s: Seq<u32>, i: int, t: u32)
    requires
        0 <= i < s.len(),
        t != 0,
    ensures
        count_zero(s.update(i, t)) == count_zero(s) - (if s[i] == 0 { 1int } else { 0int }),
    decreases s.len(),
{
    let up = s.update(i, t);
    if i == s.len() - 1 {
        assert(up.drop_last() =~= s.drop_last());
    } else {
        assert(up.drop_last() =~= s.drop_last().update(i, t));
        lemma_count_zero_update(s.drop_last(), i, t);
    }
}

proof fn lemma_count_zero_mono(a: Seq<u32>, b: Seq<u32>)
    requires
        a.len() == b.len(),
        forall|k: int| 0 <= k < a.len() && a[k] != 0 ==> b[k] != 0,
    ensures
        count_zero(b) <= count_zero(a),
    decreases a.len(),
{
    if a.len() > 0 {
        lemma_count_zero_mono(a.drop_last(), b.drop_last());
    }
}

fn insert_ap(aps: &mut Vec<usize>, u: usize)
    ensures
        final(aps)@ == ap_insert(old(aps)@, u),
{
    let mut k: usize = 0;
    while k < aps.len()
        invariant
            k <= aps.len(),
            forall|j: int| 0 <= j < k ==> aps@[j] != u,
        decreases aps.len() - k,
    {
        if aps[k] == u {
            assert(aps@.contains(u));
            return;
        }
        k += 1;
    }
    aps.push(u);
}

/// The depth-first search of `bc_visit`, from `u` with parent `p`.
fn dfs_bc(u: usize, p: Option<usize>, g: &Graph<(), Pin, Undirected, u32>, run: &mut BcRun, Ghost(fuel): Ghost<nat>)
    requires
        edges_ok(figure_edges(*g), figure_size(*g)),
        run_ok(old(run).view(), figure_size(*g)),
        u < figure_size(*g),
        old(run).disc@[u as int] == 0,
        count_zero(old(run).disc@) < fuel,
    ensures
        final(run).view() == bc_visit(figure_edges(*g), u, p, old(run).view(), fuel),
        run_ok(final(run).view(), figure_size(*g)),
        forall|w: int| 0 <= w < figure_size(*g) && old(run).disc@[w] != 0 ==> #[trigger] final(run).disc@[w] == old(run).disc@[w],
        final(run).disc@[u as int] != 0,
        count_zero(final(run).disc@) < count_zero(old(run).disc@),
    decreases fuel,
{
    let ghost es = figure_edges(*g);
    let ghost n = figure_size(*g);
    let ghost s0 = run.view();
    proof {
        lemma_count_zero_update(run.disc@, u as int, (run.time + 1) as u32);
    }
    run.time = run.time + 1;
    let t = run.time;
    run.disc[u] = t;
    run.low[u] = t;
    let ghost s1 = run.view();
    assert(count_zero(s1.disc) + 1 == count_zero(s0.disc));
    assert(s1 == BcView { disc: s0.disc.update(u as int, t), low: s0.low.update(u as int, t), time: t, ..s0 });
    let inc = figure_incident(g, u);
    proof {
        lemma_incident_in_range(es, n, u as int);
    }
    let ghost iv = incident(es, u as int);
    let mut children: usize = 0;
    let mut i: usize = 0;
    while i < inc.len()
        invariant
            es == figure_edges(*g),
            n == figure_size(*g),
            edges_ok(es, n),
            iv == incident(es, u as int),
            inc@.len() == iv.len(),
            forall|k: int| 0 <= k < inc@.len() ==> (#[trigger] inc@[k]).0 as int == iv[k].0 && inc@[k].1 == iv[k].1,
            forall|k: int| 0 <= k < iv.len() ==> 0 <= #[trigger] iv[k].0 < n,
            u < n,
            fuel > 0,
            i <= inc.len(),
            children <= i,
            run_ok(run.view(), n),
            run.disc@[u as int] == t,
            t != 0,
            forall|w: int| 0 <= w < n && s1.disc[w] != 0 ==> #[trigger] run.disc@[w] == s1.disc[w],
            count_zero(run.disc@) <= count_zero(s1.disc),
            count_zero(s1.disc) + 1 < fuel,
            bc_edges(es, u, p, iv, 0, s1, 0, (fuel - 1) as nat) == bc_edges(es, u, p, iv, i as int, run.view(), children as nat, (fuel - 1) as nat),
        decreases inc.len() - i,
    {
        let (v, pin) = inc[i];
        assert(v as int == iv[i as int].0);
        let is_parent = match p {
            Some(pp) => pp == v,
            None => false,
        };
        if is_parent {
        } else if run.disc[v] != 0 {
            let dv = run.disc[v];
            let lu = if run.low[u] <= dv { run.low[u] } else { dv };
            run.low[u] = lu;
            if dv < run.disc[u] {
                run.stack.push((u, v, pin));
            }
            proof {
                assert(run.view().blocks =~= s1.blocks.take(0).add(run.view().blocks));
            }
        } else {
            run.stack.push((u, v, pin));
            let ghost before_call = run.view();
            dfs_bc(v, Some(u), g, run, Ghost((fuel - 1) as nat));
            assert(run.disc@[u as int] == before_call.disc[u as int]);
            assert(run_ok(run.view(), n));
            let lv = run.low[v];
            let lu = if run.low[u] <= lv { run.low[u] } else { lv };
            run.low[u] = lu;
            if lv >= run.disc[u] {
                if p.is_some() {
                    insert_ap(&mut run.aps, u);
                }
                let mut curr: Vec<(usize, usize, Pin)> = Vec::new();
                let ghost st0 = run.stack@;
                let ghost keep = run.view();
                loop
                    invariant_except_break
                        pop_block(st0, u, v) == (curr@ + pop_block(run.stack@, u, v).0, pop_block(run.stack@, u, v).1),
                    invariant
                        run.disc@ == keep.disc,
                        run.low@ == keep.low,
                        run.time == keep.time,
                        run.aps@ == keep.aps,
                        run.view().blocks == keep.blocks,
                    ensures
                        pop_block(st0, u, v) == (curr@, run.stack@),
                    decreases run.stack@.len(),
                {
                    match run.stack.pop() {
                        None => {
                            assert(curr@ + Seq::<(usize, usize, Pin)>::empty() =~= curr@);
                            break;
                        },
                        Some(e) => {
                            let ghost before = curr@;
                            curr.push(e);
                            if (e.0 == u && e.1 == v) || (e.0 == v && e.1 == u) {
                                assert(curr@ =~= before + seq![e]);
                                assert(pop_block(st0, u, v) == (curr@, run.stack@));
                                break;
                            }
                            assert(before + (seq![e] + pop_block(run.stack@, u, v).0) =~= curr@ + pop_block(run.stack@, u, v).0);
                        },
                    }
                }
                let ghost bl_before = run.view().blocks;
                run.blocks.push(curr);
                proof {
                    assert(run.view().blocks =~= bl_before.push(curr@));
                }
            }
            children = children + 1;
            assert(run_ok(run.view(), n));
        }
        i += 1;
    }
    if p.is_none() && children > 1 {
        insert_ap(&mut run.aps, u);
    }
}

/// The state before the search of a graph of `n` nodes.
pub open spec fn bc_start(n: nat) -> BcView {
    BcView {
        disc: Seq::new(n, |i: int| 0u32),
        low: Seq::new(n, |i: int| 0u32),
        time: 0,
        stack: Seq::empty(),
        blocks: Seq::empty(),
        aps: Seq::empty(),
    }
}

/// The search of a figure graph from node 0 (none when the graph is empty).
pub open spec fn bc_search(es: Seq<(int, int, Pin)>, n: nat) -> BcView {
    if n == 0 {
        bc_start(n)
    } else {
        bc_visit(es, 0, None, bc_start(n), n + 1)
    }
}

proof fn lemma_count_zero_all(n: nat)
    ensures
        count_zero(Seq::new(n, |i: int| 0u32)) == n,
    decreases n,
{
    if n > 0 {
        assert(Seq::new(n, |i: int| 0u32).drop_last() =~= Seq::new((n - 1) as nat, |i: int| 0u32));
        lemma_count_zero_all((n - 1) as nat);
    }
}

/// The articulation points and the blocks (as lists of edges) of a figure graph.
pub struct BiconnectedResult {
    pub articulation_points: Vec<usize>,
    pub blocks: Vec<Vec<(usize, usize, Pin)>>,
}

impl BiconnectedResult {
    /// Searches the graph depth-first from node 0 and collects the blocks as their
    /// edges are popped off the edge stack, and the articulation points in the
    /// order found.
    pub fn from_graph(g: &Graph<(), Pin, Undirected, u32>) -> (r: BiconnectedResult)
        requires
            edges_ok(figure_edges(*g), figure_size(*g)),
            figure_size(*g) < u32::MAX,
        ensures
            r.articulation_points@ == bc_search(figure_edges(*g), figure_size(*g)).aps,
            Seq::new(r.blocks@.len(), |i: int| r.blocks@[i]@) == bc_search(figure_edges(*g), figure_size(*g)).blocks,
    {
        let n = figure_node_count(g);
        let mut run = BcRun {
            disc: Vec::new(),
            low: Vec::new(),
            time: 0,
            stack: Vec::new(),
            blocks: Vec::new(),
            aps: Vec::new(),
        };
        let mut k: usize = 0;
        while k < n
            invariant
                k <= n,
                run.disc@ == Seq::new(k as nat, |i: int| 0u32),
                run.low@ == Seq::new(k as nat, |i: int| 0u32),
                run.time == 0,
                run.stack@ == Seq::<(usize, usize, Pin)>::empty(),
                run.blocks@ == Seq::<Vec<(usize, usize, Pin)>>::empty(),
                run.aps@ == Seq::<usize>::empty(),
            decreases n - k,
        {
            run.disc.push(0);
            run.low.push(0);
            k += 1;
            assert(run.disc@ =~= Seq::new(k as nat, |i: int| 0u32));
            assert(run.low@ =~= Seq::new(k as nat, |i: int| 0u32));
        }
        assert(run.view().blocks =~= Seq::<Seq<(usize, usize, Pin)>>::empty());
        assert(run.view() == bc_start(n as nat));
        if n > 0 {
            proof {
                lemma_count_zero_all(n as nat);
            }
            dfs_bc(0, None, g, &mut run, Ghost((n + 1) as nat));
        }
        BiconnectedResult { articulation_points: run.aps, blocks: run.blocks }
    }
}

/// The stack `st` is `base` with edges pushed on top, each at a node that was
/// undiscovered in `d0` or at `u`, and none at `u` leading back to its parent `p`.
pub open spec fn pushed_on(base: Seq<(usize, usize, Pin)>, st: Seq<(usize, usize, Pin)>, d0: Seq<u32>, u: usize, p: Option<usize>) -> bool {
    &&& base.len() <= st.len()
    &&& st.take(base.len() as int) == base
    &&& forall|k: int|
        base.len() <= k < st.len() ==> (#[trigger] st[k]).0 < d0.len() && (d0[st[k].0 as int] == 0 || st[k].0 == u) && (st[k].0
            == u ==> p != Some(st[k].1))
}

/// Every block hangs from a node: the first end of its last edge, which is an
/// articulation point unless it is node 0; and every articulation point other than
/// node 0 is a node some block hangs from.
pub open spec fn heads_ok(blocks: Seq<Seq<(usize, usize, Pin)>>, aps: Seq<usize>) -> bool {
    &&& forall|b: int| 0 <= b < blocks.len() ==> (#[trigger] blocks[b]).len() > 0 && (blocks[b].last().0 == 0 || aps.contains(
        blocks[b].last().0,
    ))
    &&& forall|k: int| 0 <= k < aps.len() ==> #[trigger] aps[k] == 0 || exists|b: int| 0 <= b < blocks.len() && #[trigger] blocks[b].last().0 == aps[k]
}

/// Discovered nodes keep their discovery times.
pub open spec fn disc_kept(d0: Seq<u32>, d1: Seq<u32>) -> bool {
    d0.len() == d1.len() && forall|x: int| 0 <= x < d0.len() && d0[x] != 0 ==> #[trigger] d1[x] == d0[x]
}

proof fn lemma_pushed_trans(
    b0: Seq<(usize, usize, Pin)>,
    b1: Seq<(usize, usize, Pin)>,
    b2: Seq<(usize, usize, Pin)>,
    d0: Seq<u32>,
    d1: Seq<u32>,
    u: usize,
    p: Option<usize>,
)
    requires
        pushed_on(b0, b1, d0, u, p),
        pushed_on(b1, b2, d1, u, p),
        disc_kept(d0, d1),
    ensures
        pushed_on(b0, b2, d0, u, p),
{
    assert(b2.take(b1.len() as int) == b1);
    assert(b2.take(b0.len() as int) =~= b2.take(b1.len() as int).take(b0.len() as int));
    assert(b1.take(b0.len() as int) == b0);
    assert forall|k: int| b0.len() <= k < b2.len() implies (#[trigger] b2[k]).0 < d0.len() && (d0[b2[k].0 as int] == 0
        || b2[k].0 == u) && (b2[k].0 == u ==> p != Some(b2[k].1)) by {
        if k < b1.len() {
            assert(b2[k] == b2.take(b1.len() as int)[k]);
            assert(b1[k] == b2[k]);
        } else {
            if d0[b2[k].0 as int] != 0 {
                assert(d1[b2[k].0 as int] == d0[b2[k].0 as int]);
            }
        }
    }
}

proof fn lemma_pop_at(s: Seq<(usize, usize, Pin)>, x: Seq<(usize, usize, Pin)>, u: usize, v: usize, m: (usize, usize, Pin))
    requires
        m.0 == u && m.1 == v,
        forall|k: int| 0 <= k < x.len() ==> !(((#[trigger] x[k]).0 == u && x[k].1 == v) || (x[k].0 == v && x[k].1 == u)),
    ensures
        pop_block(s.push(m) + x, u, v).0.len() > 0,
        pop_block(s.push(m) + x, u, v).0.last() == m,
        pop_block(s.push(m) + x, u, v).1 == s,
    decreases x.len(),
{
    let st = s.push(m) + x;
    if x.len() == 0 {
        assert(st =~= s.push(m));
        assert(st.drop_last() =~= s);
    } else {
        assert(st.drop_last() =~= s.push(m) + x.drop_last());
        assert(st.last() == x[x.len() - 1]);
        assert forall|k: int| 0 <= k < x.drop_last().len() implies !(((#[trigger] x.drop_last()[k]).0 == u && x.drop_last()[k].1
            == v) || (x.drop_last()[k].0 == v && x.drop_last()[k].1 == u)) by {
            assert(x.drop_last()[k] == x[k]);
        }
        lemma_pop_at(s, x.drop_last(), u, v, m);
        let r = pop_block(s.push(m) + x.drop_last(), u, v);
        assert((seq![st.last()] + r.0).last() == r.0.last());
    }
}

proof fn lemma_visit_heads(es: Seq<(int, int, Pin)>, n: nat, u: usize, p: Option<usize>, s: BcView, fuel: nat)
    requires
        edges_ok(es, n),
        run_ok(s, n),
        u < n,
        s.disc[u as int] == 0,
        p is None ==> u == 0,
        p matches Some(q) ==> q < n && s.disc[q as int] != 0,
    ensures
        ({
            let r = bc_visit(es, u, p, s, fuel);
            &&& run_ok(r, n)
            &&& disc_kept(s.disc, r.disc)
            &&& heads_ok(s.blocks, s.aps) ==> heads_ok(r.blocks, r.aps)
            &&& pushed_on(s.stack, r.stack, s.disc, u, p)
        }),
    decreases fuel, 0nat, 0int,
{
    let r = bc_visit(es, u, p, s, fuel);
    if fuel == 0 {
        assert(s.stack.take(s.stack.len() as int) =~= s.stack);
    } else {
        let t = (s.time + 1) as u32;
        lemma_count_zero_update(s.disc, u as int, t);
        let s1 = BcView { disc: s.disc.update(u as int, t), low: s.low.update(u as int, t), time: t, ..s };
        lemma_incident_in_range(es, n, u as int);
        lemma_edges_heads(es, n, u, p, incident(es, u as int), 0, s1, 0, (fuel - 1) as nat);
        let r0 = bc_edges(es, u, p, incident(es, u as int), 0, s1, 0, (fuel - 1) as nat).0;
        assert forall|k: int| s.stack.len() <= k < r0.stack.len() implies (#[trigger] r0.stack[k]).0 < s.disc.len() && (
        s.disc[r0.stack[k].0 as int] == 0 || r0.stack[k].0 == u) && (r0.stack[k].0 == u ==> p != Some(r0.stack[k].1)) by {
            if r0.stack[k].0 != u {
                assert(s1.disc[r0.stack[k].0 as int] == 0);
            }
        }
        assert forall|x: int| 0 <= x < s.disc.len() && s.disc[x] != 0 implies #[trigger] r0.disc[x] == s.disc[x] by {
            assert(s1.disc[x] == s.disc[x]);
        }
        if heads_ok(s.blocks, s.aps) && p is None && bc_edges(es, u, p, incident(es, u as int), 0, s1, 0, (fuel - 1) as nat).1 > 1 {
            let aps = ap_insert(r0.aps, u);
            assert forall|b: int| 0 <= b < r0.blocks.len() implies (#[trigger] r0.blocks[b]).len() > 0 && (
            r0.blocks[b].last().0 == 0 || aps.contains(r0.blocks[b].last().0)) by {
                if r0.aps.contains(r0.blocks[b].last().0) {
                    let k = choose|k: int| 0 <= k < r0.aps.len() && r0.aps[k] == r0.blocks[b].last().0;
                    if !r0.aps.contains(u) {
                        assert(aps[k] == r0.aps[k]);
                    }
                }
            }
            assert forall|k: int| 0 <= k < aps.len() implies #[trigger] aps[k] == 0 || exists|b: int|
                0 <= b < r0.blocks.len() && #[trigger] r0.blocks[b].last().0 == aps[k] by {
                if k < r0.aps.len() {
                    assert(aps[k] == r0.aps[k]);
                }
            }
        }
    }
}

proof fn lemma_edges_heads(
    es: Seq<(int, int, Pin)>,
    n: nat,
    u: usize,
    p: Option<usize>,
    inc: Seq<(int, Pin)>,
    i: int,
    s: BcView,
    children: nat,
    fuel: nat,
)
    requires
        edges_ok(es, n),
        run_ok(s, n),
        u < n,
        s.disc[u as int] != 0,
        p is None ==> u == 0,
        p matches Some(q) ==> q < n && s.disc[q as int] != 0,
        forall|k: int| 0 <= k < inc.len() ==> 0 <= #[trigger] inc[k].0 < n,
    ensures
        ({
            let r = bc_edges(es, u, p, inc, i, s, children, fuel).0;
            &&& run_ok(r, n)
            &&& disc_kept(s.disc, r.disc)
            &&& heads_ok(s.blocks, s.aps) ==> heads_ok(r.blocks, r.aps)
            &&& pushed_on(s.stack, r.stack, s.disc, u, p)
        }),
    decreases fuel, 1nat, inc.len() - i,
{
    let r = bc_edges(es, u, p, inc, i, s, children, fuel).0;
    if i < 0 || i >= inc.len() {
        assert(s.stack.take(s.stack.len() as int) =~= s.stack);
    } else {
        let v = inc[i].0 as usize;
        let pin = inc[i].1;
        if p == Some(v) {
            lemma_edges_heads(es, n, u, p, inc, i + 1, s, children, fuel);
        } else if s.disc[v as int] != 0 {
            let dv = s.disc[v as int];
            let lu = if s.low[u as int] <= dv { s.low[u as int] } else { dv };
            let s2 = BcView {
                low: s.low.update(u as int, lu),
                stack: if dv < s.disc[u as int] { s.stack.push((u, v, pin)) } else { s.stack },
                ..s
            };
            assert(s2.stack.take(s.stack.len() as int) =~= s.stack);
            assert(pushed_on(s.stack, s2.stack, s.disc, u, p));
            lemma_edges_heads(es, n, u, p, inc, i + 1, s2, children, fuel);
            lemma_pushed_trans(s.stack, s2.stack, r.stack, s.disc, s2.disc, u, p);
        } else {
            let s2 = BcView { stack: s.stack.push((u, v, pin)), ..s };
            lemma_visit_heads(es, n, v, Some(u), s2, fuel);
            let s3 = bc_visit(es, v, Some(u), s2, fuel);
            let lv = s3.low[v as int];
            let lu = if s3.low[u as int] <= lv { s3.low[u as int] } else { lv };
            let s4 = BcView { low: s3.low.update(u as int, lu), ..s3 };
            let x3 = s3.stack.skip(s2.stack.len() as int);
            assert(s3.stack =~= s2.stack + x3) by {
                assert(s3.stack.take(s2.stack.len() as int) == s2.stack);
            }
            assert forall|k: int| 0 <= k < x3.len() implies !(((#[trigger] x3[k]).0 == u && x3[k].1 == v) || (x3[k].0 == v
                && x3[k].1 == u)) by {
                assert(x3[k] == s3.stack[s2.stack.len() + k]);
            }
            if lv >= s4.disc[u as int] {
                lemma_pop_at(s.stack, x3, u, v, (u, v, pin));
                let aps = if p is Some { ap_insert(s4.aps, u) } else { s4.aps };
                let pb = pop_block(s4.stack, u, v);
                let s5 = BcView { aps: aps, stack: pb.1, blocks: s4.blocks.push(pb.0), ..s4 };
                if heads_ok(s.blocks, s.aps) {
                    assert forall|b: int| 0 <= b < s5.blocks.len() implies (#[trigger] s5.blocks[b]).len() > 0 && (
                    s5.blocks[b].last().0 == 0 || s5.aps.contains(s5.blocks[b].last().0)) by {
                        if b < s4.blocks.len() {
                            assert(s5.blocks[b] == s4.blocks[b]);
                            if s4.aps.contains(s4.blocks[b].last().0) && p is Some {
                                let k = choose|k: int| 0 <= k < s4.aps.len() && s4.aps[k] == s4.blocks[b].last().0;
                                if !s4.aps.contains(u) {
                                    assert(aps[k] == s4.aps[k]);
                                }
                            }
                        } else {
                            assert(s5.blocks[b] == pb.0);
                            if p is Some {
                                if !s4.aps.contains(u) {
                                    assert(aps[s4.aps.len() as int] == u);
                                }
                            }
                        }
                    }
                    assert forall|k: int| 0 <= k < s5.aps.len() implies #[trigger] s5.aps[k] == 0 || exists|b: int|
                        0 <= b < s5.blocks.len() && #[trigger] s5.blocks[b].last().0 == s5.aps[k] by {
                        if k < s4.aps.len() {
                            assert(s5.aps[k] == s4.aps[k]);
                            if s4.aps[k] != 0 {
                                let b = choose|b: int| 0 <= b < s4.blocks.len() && #[trigger] s4.blocks[b].last().0 == s4.aps[k];
                                assert(s5.blocks[b] == s4.blocks[b]);
                            }
                        } else {
                            assert(s5.blocks[s4.blocks.len() as int] == pb.0);
                        }
                    }
                    assert(heads_ok(s5.blocks, s5.aps));
                }
                assert(s5.stack.take(s.stack.len() as int) =~= s.stack);
                assert(pushed_on(s.stack, s5.stack, s.disc, u, p));
                lemma_edges_heads(es, n, u, p, inc, i + 1, s5, children + 1, fuel);
                lemma_pushed_trans(s.stack, s5.stack, r.stack, s.disc, s5.disc, u, p);
            } else {
                assert forall|k: int| s.stack.len() <= k < s4.stack.len() implies (#[trigger] s4.stack[k]).0 < s.disc.len() && (
                s.disc[s4.stack[k].0 as int] == 0 || s4.stack[k].0 == u) && (s4.stack[k].0 == u ==> p != Some(s4.stack[k].1)) by {
                    if k == s.stack.len() {
                        assert(s4.stack[k] == (u, v, pin));
                    } else {
                        assert(s4.stack[k] == x3[k - s.stack.len() - 1]);
                    }
                }
                assert(s4.stack.take(s.stack.len() as int) =~= s.stack);
                lemma_edges_heads(es, n, u, p, inc, i + 1, s4, children + 1, fuel);
                lemma_pushed_trans(s.stack, s4.stack, r.stack, s.disc, s4.disc, u, p);
            }
        }
    }
}

/// Every block the search finds hangs from the node at which it was completed —
/// the first end of its last edge — and that node is an articulation point unless
/// it is node 0, where the search starts; every articulation point other than node
/// 0 is a node some block hangs from.
pub proof fn lemma_block_heads(es: Seq<(int, int, Pin)>, n: nat)
    requires
        edges_ok(es, n),
        n < u32::MAX,
    ensures
        heads_ok(bc_search(es, n).blocks, bc_search(es, n).aps),
{
    if n > 0 {
        lemma_count_zero_all(n);
        lemma_visit_heads(es, n, 0, None, bc_start(n), n + 1);
    }
}

/// The number of blocks that hang from node `x` (whose last edge starts at `x`).
pub open spec fn heads_at(blocks: Seq<Seq<(usize, usize, Pin)>>, x: usize) -> nat
    decreases blocks.len(),
{
    if blocks.len() == 0 {
        0
    } else {
        heads_at(blocks.drop_last(), x) + if blocks.last().len() > 0 && blocks.last().last().0 == x {
            1nat
        } else {
            0nat
        }
    }
}

/// Every discovered node has a low point of at least 1.
pub open spec fn lows_ok(s: BcView, n: nat) -> bool {
    forall|x: int| 0 <= x < n && s.disc[x] != 0 ==> #[trigger] s.low[x] >= 1
}

proof fn lemma_visit_root(es: Seq<(int, int, Pin)>, n: nat, u: usize, q: usize, s: BcView, fuel: nat)
    requires
        edges_ok(es, n),
        run_ok(s, n),
        u < n,
        q < n,
        s.disc[u as int] == 0,
        s.disc[q as int] != 0,
        s.disc[0] != 0,
        lows_ok(s, n),
        count_zero(s.disc) < fuel,
    ensures
        ({
            let r = bc_visit(es, u, Some(q), s, fuel);
            &&& lows_ok(r, n)
            &&& r.disc[u as int] != 0
            &&& heads_at(r.blocks, 0) == heads_at(s.blocks, 0)
            &&& r.aps.contains(0) == s.aps.contains(0)
            &&& count_zero(r.disc) < count_zero(s.disc)
        }),
    decreases fuel, 0nat, 0int,
{
    let t = (s.time + 1) as u32;
    lemma_count_zero_update(s.disc, u as int, t);
    let s1 = BcView { disc: s.disc.update(u as int, t), low: s.low.update(u as int, t), time: t, ..s };
    lemma_incident_in_range(es, n, u as int);
    let inc = incident(es, u as int);
    lemma_edges_heads(es, n, u, Some(q), inc, 0, s1, 0, (fuel - 1) as nat);
    lemma_edges_root(es, n, u, Some(q), inc, 0, s1, 0, (fuel - 1) as nat);
    let r0 = bc_edges(es, u, Some(q), inc, 0, s1, 0, (fuel - 1) as nat).0;
    lemma_count_zero_mono(s1.disc, r0.disc);
    assert(r0.disc[u as int] == s1.disc[u as int]);
}

proof fn lemma_edges_root(
    es: Seq<(int, int, Pin)>,
    n: nat,
    u: usize,
    p: Option<usize>,
    inc: Seq<(int, Pin)>,
    i: int,
    s: BcView,
    children: nat,
    fuel: nat,
)
    requires
        edges_ok(es, n),
        run_ok(s, n),
        u < n,
        s.disc[u as int] != 0,
        p is None ==> u == 0 && s.disc[0] == 1,
        p matches Some(q) ==> q < n && s.disc[q as int] != 0 && s.disc[0] != 0,
        lows_ok(s, n),
        forall|k: int| 0 <= k < inc.len() ==> 0 <= #[trigger] inc[k].0 < n,
        count_zero(s.disc) < fuel,
        p is Some ==> u != 0,
    ensures
        ({
            let e = bc_edges(es, u, p, inc, i, s, children, fuel);
            &&& lows_ok(e.0, n)
            &&& e.0.aps.contains(0) == s.aps.contains(0)
            &&& u != 0 ==> heads_at(e.0.blocks, 0) == heads_at(s.blocks, 0)
            &&& p is None ==> e.1 >= children && heads_at(e.0.blocks, 0) == heads_at(s.blocks, 0) + (e.1 - children)
        }),
    decreases fuel, 1nat, inc.len() - i,
{
    if 0 <= i < inc.len() {
        let v = inc[i].0 as usize;
        let pin = inc[i].1;
        if p == Some(v) {
            lemma_edges_root(es, n, u, p, inc, i + 1, s, children, fuel);
        } else if s.disc[v as int] != 0 {
            lemma_edges_heads(es, n, u, p, inc, i, s, children, fuel);
            let dv = s.disc[v as int];
            let lu = if s.low[u as int] <= dv { s.low[u as int] } else { dv };
            let s2 = BcView {
                low: s.low.update(u as int, lu),
                stack: if dv < s.disc[u as int] { s.stack.push((u, v, pin)) } else { s.stack },
                ..s
            };
            lemma_edges_root(es, n, u, p, inc, i + 1, s2, children, fuel);
        } else {
            let s2 = BcView { stack: s.stack.push((u, v, pin)), ..s };
            lemma_visit_heads(es, n, v, Some(u), s2, fuel);
            lemma_visit_root(es, n, v, u, s2, fuel);
            let s3 = bc_visit(es, v, Some(u), s2, fuel);
            lemma_count_zero_mono(s2.disc, s3.disc);
            let lv = s3.low[v as int];
            let lu = if s3.low[u as int] <= lv { s3.low[u as int] } else { lv };
            let s4 = BcView { low: s3.low.update(u as int, lu), ..s3 };
            assert(s4.disc[u as int] == s.disc[u as int]);
            let x3 = s3.stack.skip(s2.stack.len() as int);
            assert(s3.stack =~= s2.stack + x3) by {
                assert(s3.stack.take(s2.stack.len() as int) == s2.stack);
            }
            assert forall|k: int| 0 <= k < x3.len() implies !(((#[trigger] x3[k]).0 == u && x3[k].1 == v) || (x3[k].0 == v
                && x3[k].1 == u)) by {
                assert(x3[k] == s3.stack[s2.stack.len() + k]);
            }
            if lv >= s4.disc[u as int] {
                lemma_pop_at(s.stack, x3, u, v, (u, v, pin));
                let aps = if p is Some { ap_insert(s4.aps, u) } else { s4.aps };
                let pb = pop_block(s4.stack, u, v);
                let s5 = BcView { aps: aps, stack: pb.1, blocks: s4.blocks.push(pb.0), ..s4 };
                assert(s5.blocks.drop_last() =~= s4.blocks);
                assert(s5.aps.contains(0) == s4.aps.contains(0)) by {
                    if p is Some && !s4.aps.contains(u) {
                        if s5.aps.contains(0) {
                            let k = choose|k: int| 0 <= k < s5.aps.len() && s5.aps[k] == 0;
                            if k < s4.aps.len() {
                                assert(s4.aps[k] == s5.aps[k]);
                            }
                        }
                        if s4.aps.contains(0) {
                            let k = choose|k: int| 0 <= k < s4.aps.len() && s4.aps[k] == 0;
                            assert(s5.aps[k] == 0);
                        }
                    }
                }
                lemma_edges_heads(es, n, u, p, inc, i, s, children, fuel);
                lemma_edges_root(es, n, u, p, inc, i + 1, s5, children + 1, fuel);
            } else {
                assert(p is Some);
                lemma_edges_root(es, n, u, p, inc, i + 1, s4, children + 1, fuel);
            }
        }
    }
}

/// The search's start, node 0, is an articulation point exactly when at least two
/// blocks hang from it.
pub proof fn lemma_start_point(es: Seq<(int, int, Pin)>, n: nat)
    requires
        edges_ok(es, n),
        0 < n < u32::MAX,
    ensures
        bc_search(es, n).aps.contains(0) <==> heads_at(bc_search(es, n).blocks, 0) >= 2,
{
    let s = bc_start(n);
    lemma_count_zero_all(n);
    let t = (s.time + 1) as u32;
    lemma_count_zero_update(s.disc, 0, t);
    let s1 = BcView { disc: s.disc.update(0, t), low: s.low.update(0, t), time: t, ..s };
    lemma_incident_in_range(es, n, 0);
    let inc = incident(es, 0);
    lemma_edges_root(es, n, 0, None, inc, 0, s1, 0, n);
    let e = bc_edges(es, 0, None, inc, 0, s1, 0, n);
    assert(heads_at(s1.blocks, 0) == 0);
    if e.1 > 1 {
        assert(ap_insert(e.0.aps, 0).contains(0)) by {
            if !e.0.aps.contains(0) {
                assert(e.0.aps.push(0)[e.0.aps.len() as int] == 0);
            }
        }
    }
}

} // verus!
