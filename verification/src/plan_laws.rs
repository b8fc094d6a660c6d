//! Laws of the delivery plan: under a later time limit every arrival it records
//! comes no later, so a possible delivery stays possible and its total does not
//! grow; the main route of a possible plan is exactly as long as its total; and
//! every detour of a possible plan reaches the goal.

use vstd::prelude::*;

use crate::delivery::{groups_of, LocationType, ProblemData};
use crate::plan::{
    a_of, back_chain, backup_fold, backward, best_backup, best_final, best_next, best_prev, detour_ok, forward,
    forward_fold, ids_distinct, plan_output, plan_route, prevs_of, reaches_start, secure_fold, table_dist,
    table_matches, max_duration, reach_time, DistanceTable, INF,
};
use crate::streets::{index_in, lemma_index_in, street_edges, StreetMap};
use crate::graphs::reachable;
use crate::text::decimal;

verus! {

/// Every factory that has an arrival in `a1` has one in `a2` too, no later.
pub open spec fn arrivals_no_later(a2: Map<u32, int>, a1: Map<u32, int>) -> bool {
    forall|u: u32| #[trigger] a1.contains_key(u) ==> a2.contains_key(u) && a2[u] <= a1[u]
}

/// The total time of the cheapest secured way to the goal that the plan finds: the
/// number on line 4 of a possible plan.
pub open spec fn final_cost(data: ProblemData, t: DistanceTable) -> int {
    let groups = groups_of(data);
    let last = data.count_steps as int;
    let r = backward(t, groups, last, 1).2;
    best_final(t, groups[last], forward(t, groups, data.max_time as int, r, last).0).0
}

/// The one line of the answer when no delivery keeps within the time limit.
pub open spec fn impossible_answer() -> Seq<Seq<char>> {
    seq![seq!['U', 'N', 'M', 'O', 'E', 'G', 'L', 'I', 'C', 'H']]
}

proof fn lemma_best_prev_no_later(
    t: DistanceTable,
    m1: int,
    m2: int,
    v: u32,
    prevs: Seq<LocationType>,
    a1: Map<u32, int>,
    a2: Map<u32, int>,
    rv: int,
)
    requires
        m1 <= m2,
        arrivals_no_later(a2, a1),
    ensures
        best_prev(t, m2, v, prevs, a2, rv).0 <= best_prev(t, m1, v, prevs, a1, rv).0,
    decreases prevs.len(),
{
    if prevs.len() > 0 {
        lemma_best_prev_no_later(t, m1, m2, v, prevs.drop_last(), a1, a2, rv);
        let ul = prevs.last();
        if let LocationType::Num(u) = ul {
            if a1.contains_key(u) {
                assert(a2.contains_key(u));
            }
        }
        assert(a_of(a1, ul) is Some ==> a_of(a2, ul) is Some && a_of(a2, ul).unwrap() <= a_of(a1, ul).unwrap());
    }
}

proof fn lemma_fold_keys(
    t: DistanceTable,
    groups: Seq<Seq<u32>>,
    mt: int,
    r: Map<u32, int>,
    k: int,
    ws: Seq<u32>,
    a: Map<u32, int>,
    p: Map<u32, LocationType>,
    u: u32,
)
    requires
        forward_fold(t, groups, mt, r, k, ws, a, p).0.contains_key(u),
    ensures
        a.contains_key(u) || ws.contains(u),
    decreases ws.len(),
{
    if ws.len() > 0 {
        let prev = forward_fold(t, groups, mt, r, k, ws.drop_last(), a, p);
        if u != ws.last() {
            lemma_fold_keys(t, groups, mt, r, k, ws.drop_last(), a, p, u);
            if ws.drop_last().contains(u) {
                let i = choose|i: int| 0 <= i < ws.drop_last().len() && ws.drop_last()[i] == u;
                assert(ws[i] == u);
            }
        } else {
            assert(ws[ws.len() - 1] == u);
        }
    }
}

proof fn lemma_forward_keys(t: DistanceTable, groups: Seq<Seq<u32>>, mt: int, r: Map<u32, int>, k: int, u: u32)
    requires
        k < groups.len(),
        forward(t, groups, mt, r, k).0.contains_key(u),
    ensures
        exists|j: int, i: int| 1 <= j <= k && 0 <= i < groups[j].len() && #[trigger] groups[j][i] == u,
    decreases k,
{
    if k > 0 {
        let st = forward(t, groups, mt, r, k - 1);
        lemma_fold_keys(t, groups, mt, r, k, groups[k], st.0, st.1, u);
        if st.0.contains_key(u) {
            lemma_forward_keys(t, groups, mt, r, k - 1, u);
        } else {
            let i = choose|i: int| 0 <= i < groups[k].len() && groups[k][i] == u;
            assert(groups[k][i] == u);
        }
    }
}

proof fn lemma_fold_no_later(
    t: DistanceTable,
    groups: Seq<Seq<u32>>,
    m1: int,
    m2: int,
    r: Map<u32, int>,
    k: int,
    ws: Seq<u32>,
    a1: Map<u32, int>,
    p1: Map<u32, LocationType>,
    a2: Map<u32, int>,
    p2: Map<u32, LocationType>,
)
    requires
        m1 <= m2,
        arrivals_no_later(a2, a1),
        forall|i: int| 0 <= i < ws.len() ==> !a1.contains_key(#[trigger] ws[i]),
        forall|i: int, j: int| 0 <= i < j < ws.len() ==> ws[i] != ws[j],
    ensures
        arrivals_no_later(
            forward_fold(t, groups, m2, r, k, ws, a2, p2).0,
            forward_fold(t, groups, m1, r, k, ws, a1, p1).0,
        ),
    decreases ws.len(),
{
    if ws.len() > 0 {
        let w0 = ws.drop_last();
        assert forall|i: int| 0 <= i < w0.len() implies !a1.contains_key(#[trigger] w0[i]) by {
            assert(w0[i] == ws[i]);
        }
        lemma_fold_no_later(t, groups, m1, m2, r, k, w0, a1, p1, a2, p2);
        let prev1 = forward_fold(t, groups, m1, r, k, w0, a1, p1);
        let prev2 = forward_fold(t, groups, m2, r, k, w0, a2, p2);
        let v = ws.last();
        if prev1.0.contains_key(v) {
            lemma_fold_keys(t, groups, m1, r, k, w0, a1, p1, v);
            assert(!a1.contains_key(ws[ws.len() - 1]));
            let i = choose|i: int| 0 <= i < w0.len() && w0[i] == v;
            assert(ws[i] == ws[ws.len() - 1]);
        }
        let prevs = prevs_of(groups, k);
        lemma_best_prev_no_later(t, m1, m2, v, prevs, prev1.0, prev2.0, r[v]);
    }
}

/// With distinct factory numbers, the factories of step `k` have no arrival before
/// the step, and none of them is listed twice.
proof fn lemma_step_fresh(t: DistanceTable, groups: Seq<Seq<u32>>, mt: int, r: Map<u32, int>, k: int)
    requires
        ids_distinct(groups),
        1 <= k < groups.len(),
    ensures
        forall|i: int| 0 <= i < groups[k].len() ==> !forward(t, groups, mt, r, k - 1).0.contains_key(#[trigger] groups[k][i]),
        forall|i: int, j: int| 0 <= i < j < groups[k].len() ==> groups[k][i] != groups[k][j],
{
    let st = forward(t, groups, mt, r, k - 1);
    let ws = groups[k];
    assert forall|i: int| 0 <= i < ws.len() implies !st.0.contains_key(#[trigger] ws[i]) by {
        if st.0.contains_key(ws[i]) {
            lemma_forward_keys(t, groups, mt, r, k - 1, ws[i]);
            let (j, i2) = choose|j: int, i2: int| 1 <= j <= k - 1 && 0 <= i2 < groups[j].len() && #[trigger] groups[j][i2] == ws[i];
            assert(groups[j][i2] == groups[k][i]);
        }
    }
    assert forall|i: int, j: int| 0 <= i < j < ws.len() implies ws[i] != ws[j] by {
        if ws[i] == ws[j] {
            assert(groups[k][i] == groups[k][j]);
        }
    }
}

proof fn lemma_forward_no_later(t: DistanceTable, groups: Seq<Seq<u32>>, m1: int, m2: int, r: Map<u32, int>, k: int)
    requires
        m1 <= m2,
        ids_distinct(groups),
        k < groups.len(),
    ensures
        arrivals_no_later(forward(t, groups, m2, r, k).0, forward(t, groups, m1, r, k).0),
    decreases k,
{
    if k > 0 {
        lemma_forward_no_later(t, groups, m1, m2, r, k - 1);
        let st1 = forward(t, groups, m1, r, k - 1);
        let st2 = forward(t, groups, m2, r, k - 1);
        lemma_step_fresh(t, groups, m1, r, k);
        lemma_fold_no_later(t, groups, m1, m2, r, k, groups[k], st1.0, st1.1, st2.0, st2.1);
    }
}

proof fn lemma_best_final_no_later(t: DistanceTable, ws: Seq<u32>, a1: Map<u32, int>, a2: Map<u32, int>)
    requires
        arrivals_no_later(a2, a1),
    ensures
        best_final(t, ws, a2).0 <= best_final(t, ws, a1).0,
    decreases ws.len(),
{
    if ws.len() > 0 {
        lemma_best_final_no_later(t, ws.drop_last(), a1, a2);
        let lv = ws.last();
        if a1.contains_key(lv) {
            assert(a2.contains_key(lv));
        }
    }
}

/// What the answer says of the total: it is the impossible answer exactly when the
/// total exceeds the time limit, and otherwise its fourth line is the total.
pub proof fn lemma_answer_total(data: ProblemData, m: StreetMap, t: DistanceTable)
    ensures
        final_cost(data, t) > data.max_time ==> plan_output(data, m, t) == Some(impossible_answer()),
        final_cost(data, t) <= data.max_time ==> match plan_output(data, m, t) {
            Some(ls) => ls.len() >= 5 && ls[0] == seq!['M', 'O', 'E', 'G', 'L', 'I', 'C', 'H']
                && ls[3] == decimal(final_cost(data, t) as nat),
            None => true,
        },
{
    match plan_output(data, m, t) {
        Some(ls) => {
            if final_cost(data, t) <= data.max_time {
                assert(ls.len() >= 5);
            }
        },
        None => {},
    }
}

/// A later time limit, all else equal, keeps a possible delivery possible, and the
/// total time of the plan (line 4 of the answer) does not grow: where the earlier
/// limit gives a plan, an answer under the later one is a plan too, and its line 4
/// is the smaller total (`solve_delivery` answers every such task whose limit is
/// below `INF`). Stated for tasks in which no factory number is listed twice: with
/// one listed in two steps, the pass can read the arrival of the earlier step, and
/// the total can grow.
pub proof fn lemma_more_time(d1: ProblemData, d2: ProblemData, m: StreetMap, t: DistanceTable)
    requires
        groups_of(d1) == groups_of(d2),
        d1.count_steps == d2.count_steps,
        groups_of(d1).len() == d1.count_steps + 1,
        d1.max_time <= d2.max_time,
        ids_distinct(groups_of(d1)),
    ensures
        final_cost(d2, t) <= final_cost(d1, t),
        plan_output(d1, m, t) != Some(impossible_answer()) ==> plan_output(d2, m, t) != Some(impossible_answer()),
        forall|ls1: Seq<Seq<char>>, ls2: Seq<Seq<char>>|
            plan_output(d1, m, t) == Some(ls1) && ls1 != impossible_answer() && #[trigger] plan_output(d2, m, t) == Some(ls2)
                ==> ls2.len() >= 5 && ls2[0] == seq!['M', 'O', 'E', 'G', 'L', 'I', 'C', 'H']
                && ls1[3] == decimal(final_cost(d1, t) as nat) && ls2[3] == decimal(final_cost(d2, t) as nat),
{
    let groups = groups_of(d1);
    let last = d1.count_steps as int;
    let r = backward(t, groups, last, 1).2;
    lemma_forward_no_later(t, groups, d1.max_time as int, d2.max_time as int, r, last);
    lemma_best_final_no_later(
        t,
        groups[last],
        forward(t, groups, d1.max_time as int, r, last).0,
        forward(t, groups, d2.max_time as int, r, last).0,
    );
    lemma_answer_total(d1, m, t);
    lemma_answer_total(d2, m, t);
}

/// The length of a route: the distances, as the plan reads them, between
/// consecutive places.
pub open spec fn route_length(t: DistanceTable, route: Seq<LocationType>) -> int
    decreases route.len(),
{
    if route.len() < 2 {
        0
    } else {
        route_length(t, route.drop_last()) + table_dist(t, route[route.len() - 2], route.last())
    }
}

/// Each recorded arrival is the arrival at its predecessor (0 at the start) plus
/// the distance from there.
pub open spec fn arrivals_add_up(t: DistanceTable, a: Map<u32, int>, p: Map<u32, LocationType>) -> bool {
    forall|v: u32| #[trigger] a.contains_key(v) ==> p.contains_key(v) && match p[v] {
        LocationType::Start => a[v] == table_dist(t, LocationType::Start, LocationType::Num(v)),
        LocationType::Num(u) => a.contains_key(u) && a[v] == a[u] + table_dist(t, LocationType::Num(u), LocationType::Num(v)),
        LocationType::Goal => false,
    }
}

proof fn lemma_best_prev_from(t: DistanceTable, mt: int, v: u32, prevs: Seq<LocationType>, a: Map<u32, int>, rv: int)
    ensures
        ({
            let b = best_prev(t, mt, v, prevs, a, rv);
            b.0 < INF ==> a_of(a, b.1) is Some && b.0 == a_of(a, b.1).unwrap() + table_dist(t, b.1, LocationType::Num(v))
                && b.0 + rv <= mt && prevs.contains(b.1)
        }),
    decreases prevs.len(),
{
    if prevs.len() > 0 {
        lemma_best_prev_from(t, mt, v, prevs.drop_last(), a, rv);
        let b = best_prev(t, mt, v, prevs.drop_last(), a, rv);
        if b.0 < INF {
            let i = choose|i: int| 0 <= i < prevs.drop_last().len() && prevs.drop_last()[i] == b.1;
            assert(prevs[i] == b.1);
        }
        assert(prevs[prevs.len() - 1] == prevs.last());
    }
}

proof fn lemma_fold_adds_up(
    t: DistanceTable,
    groups: Seq<Seq<u32>>,
    mt: int,
    r: Map<u32, int>,
    k: int,
    ws: Seq<u32>,
    a: Map<u32, int>,
    p: Map<u32, LocationType>,
)
    requires
        arrivals_add_up(t, a, p),
        forall|i: int| 0 <= i < ws.len() ==> !a.contains_key(#[trigger] ws[i]),
        forall|i: int, j: int| 0 <= i < j < ws.len() ==> ws[i] != ws[j],
    ensures
        ({
            let f = forward_fold(t, groups, mt, r, k, ws, a, p);
            arrivals_add_up(t, f.0, f.1)
        }),
    decreases ws.len(),
{
    if ws.len() > 0 {
        let w0 = ws.drop_last();
        assert forall|i: int| 0 <= i < w0.len() implies !a.contains_key(#[trigger] w0[i]) by {
            assert(w0[i] == ws[i]);
        }
        lemma_fold_adds_up(t, groups, mt, r, k, w0, a, p);
        let prev = forward_fold(t, groups, mt, r, k, w0, a, p);
        let v = ws.last();
        if prev.0.contains_key(v) {
            lemma_fold_keys(t, groups, mt, r, k, w0, a, p, v);
            assert(!a.contains_key(ws[ws.len() - 1]));
            let i = choose|i: int| 0 <= i < w0.len() && w0[i] == v;
            assert(ws[i] == ws[ws.len() - 1]);
        }
        let b = best_prev(t, mt, v, prevs_of(groups, k), prev.0, r[v]);
        lemma_best_prev_from(t, mt, v, prevs_of(groups, k), prev.0, r[v]);
        if b.0 < INF {
            let a2 = prev.0.insert(v, b.0);
            let p2 = prev.1.insert(v, b.1);
            assert forall|w: u32| #[trigger] a2.contains_key(w) implies p2.contains_key(w) && match p2[w] {
                LocationType::Start => a2[w] == table_dist(t, LocationType::Start, LocationType::Num(w)),
                LocationType::Num(u) => a2.contains_key(u) && a2[w] == a2[u] + table_dist(t, LocationType::Num(u), LocationType::Num(w)),
                LocationType::Goal => false,
            } by {
                if w != v {
                    assert(prev.0.contains_key(w));
                    if let LocationType::Num(u) = prev.1[w] {
                        assert(prev.0.contains_key(u));
                    }
                }
            }
        }
    }
}

proof fn lemma_forward_adds_up(t: DistanceTable, groups: Seq<Seq<u32>>, mt: int, r: Map<u32, int>, k: int)
    requires
        ids_distinct(groups),
        k < groups.len(),
    ensures
        arrivals_add_up(t, forward(t, groups, mt, r, k).0, forward(t, groups, mt, r, k).1),
    decreases k,
{
    if k > 0 {
        lemma_forward_adds_up(t, groups, mt, r, k - 1);
        let st = forward(t, groups, mt, r, k - 1);
        lemma_step_fresh(t, groups, mt, r, k);
        lemma_fold_adds_up(t, groups, mt, r, k, groups[k], st.0, st.1);
    }
}

proof fn lemma_best_final_from(t: DistanceTable, ws: Seq<u32>, a: Map<u32, int>)
    ensures
        ({
            let f = best_final(t, ws, a);
            f.0 < INF ==> (f.1 matches LocationType::Num(v) && a.contains_key(v)
                && f.0 == a[v] + table_dist(t, f.1, LocationType::Goal))
        }),
    decreases ws.len(),
{
    if ws.len() > 0 {
        lemma_best_final_from(t, ws.drop_last(), a);
    }
}

proof fn lemma_chain_length(t: DistanceTable, a: Map<u32, int>, p: Map<u32, LocationType>, v: u32, fuel: nat)
    requires
        arrivals_add_up(t, a, p),
        a.contains_key(v),
        reaches_start(p, LocationType::Num(v), fuel),
    ensures
        ({
            let path = seq![LocationType::Start] + back_chain(p, LocationType::Num(v), fuel).reverse();
            &&& path.len() >= 2
            &&& path.last() == LocationType::Num(v)
            &&& route_length(t, path) == a[v]
        }),
    decreases fuel,
{
    let rest = back_chain(p, p[v], (fuel - 1) as nat);
    let prefix = seq![LocationType::Start] + rest.reverse();
    let path = seq![LocationType::Start] + back_chain(p, LocationType::Num(v), fuel).reverse();
    assert(back_chain(p, LocationType::Num(v), fuel) == seq![LocationType::Num(v)] + rest);
    assert((seq![LocationType::Num(v)] + rest).reverse() =~= rest.reverse().push(LocationType::Num(v)));
    assert(path =~= prefix.push(LocationType::Num(v)));
    assert(path.drop_last() =~= prefix);
    assert(path[path.len() - 2] == prefix.last());
    assert(path.last() == LocationType::Num(v));
    assert(a.contains_key(v));
    match p[v] {
        LocationType::Num(u) => {
            lemma_chain_length(t, a, p, u, (fuel - 1) as nat);
            assert(route_length(t, path) == route_length(t, prefix) + table_dist(t, LocationType::Num(u), LocationType::Num(v)));
        },
        _ => {
            assert(rest =~= Seq::<LocationType>::empty());
            assert(prefix =~= seq![LocationType::Start]);
            assert(route_length(t, prefix) == 0);
            assert(route_length(t, path) == table_dist(t, LocationType::Start, LocationType::Num(v)));
        },
    }
}

/// With no factory number listed twice, the main route of a possible plan whose
/// total is below `INF` is exactly as long as that total (line 4 of the answer):
/// the distances from the start to the first factory, between consecutive
/// factories, and from the last factory to the goal add up to it.
pub proof fn lemma_route_length(data: ProblemData, t: DistanceTable)
    requires
        ids_distinct(groups_of(data)),
        groups_of(data).len() == data.count_steps + 1,
        final_cost(data, t) < INF,
    ensures
        plan_route(data, t).len() > 0 ==> route_length(t, plan_route(data, t)) == final_cost(data, t),
{
    let groups = groups_of(data);
    let last = data.count_steps as int;
    let r = backward(t, groups, last, 1).2;
    let fw = forward(t, groups, data.max_time as int, r, last);
    let fin = best_final(t, groups[last], fw.0);
    lemma_forward_adds_up(t, groups, data.max_time as int, r, last);
    lemma_best_final_from(t, groups[last], fw.0);
    let route = plan_route(data, t);
    if route.len() > 0 {
        if let LocationType::Num(v) = fin.1 {
            let fuel = crate::plan::route_fuel(data);
            lemma_chain_length(t, fw.0, fw.1, v, fuel);
            let path = seq![LocationType::Start] + back_chain(fw.1, fin.1, fuel).reverse();
            assert(route =~= path.push(LocationType::Goal));
            assert(route.drop_last() =~= path);
        }
    }
}

/// The arrival times along a chain of factories: at the first, the distance from
/// the start; at each next, the arrival before plus the distance between.
pub open spec fn chain_arrival(t: DistanceTable, c: Seq<u32>, i: int) -> int
    decreases i,
{
    if i <= 0 {
        table_dist(t, LocationType::Start, LocationType::Num(c[0]))
    } else {
        chain_arrival(t, c, i - 1) + table_dist(t, LocationType::Num(c[i - 1]), LocationType::Num(c[i]))
    }
}

/// A secured chain: a factory of each step `1, 2, ...` in order, each reached
/// (below `INF`) at a time that, with its fallback cost `r`, keeps within `mt`.
pub open spec fn secure_chain(t: DistanceTable, groups: Seq<Seq<u32>>, r: Map<u32, int>, mt: int, c: Seq<u32>) -> bool {
    forall|i: int|
        0 <= i < c.len() ==> groups[i + 1].contains(#[trigger] c[i]) && chain_arrival(t, c, i) < INF
            && chain_arrival(t, c, i) + r[c[i]] <= mt
}

proof fn lemma_best_prev_min(t: DistanceTable, mt: int, v: u32, prevs: Seq<LocationType>, a: Map<u32, int>, rv: int, i: int)
    requires
        0 <= i < prevs.len(),
        a_of(a, prevs[i]) is Some,
        a_of(a, prevs[i]).unwrap() + table_dist(t, prevs[i], LocationType::Num(v)) + rv <= mt,
        a_of(a, prevs[i]).unwrap() + table_dist(t, prevs[i], LocationType::Num(v)) < INF,
    ensures
        best_prev(t, mt, v, prevs, a, rv).0 <= a_of(a, prevs[i]).unwrap() + table_dist(t, prevs[i], LocationType::Num(v)),
    decreases prevs.len(),
{
    if i < prevs.len() - 1 {
        assert(prevs.drop_last()[i] == prevs[i]);
        lemma_best_prev_min(t, mt, v, prevs.drop_last(), a, rv, i);
    }
}

proof fn lemma_best_final_min(t: DistanceTable, ws: Seq<u32>, a: Map<u32, int>, i: int)
    requires
        0 <= i < ws.len(),
        a.contains_key(ws[i]),
    ensures
        best_final(t, ws, a).0 <= a[ws[i]] + table_dist(t, LocationType::Num(ws[i]), LocationType::Goal),
    decreases ws.len(),
{
    if i < ws.len() - 1 {
        assert(ws.drop_last()[i] == ws[i]);
        lemma_best_final_min(t, ws.drop_last(), a, i);
    }
}

/// The fold leaves the arrival of a factory it does not process as it was.
proof fn lemma_fold_keeps(
    t: DistanceTable,
    groups: Seq<Seq<u32>>,
    mt: int,
    r: Map<u32, int>,
    k: int,
    ws: Seq<u32>,
    a: Map<u32, int>,
    p: Map<u32, LocationType>,
    x: u32,
)
    requires
        !ws.contains(x),
    ensures
        forward_fold(t, groups, mt, r, k, ws, a, p).0.contains_key(x) == a.contains_key(x),
        a.contains_key(x) ==> forward_fold(t, groups, mt, r, k, ws, a, p).0[x] == a[x],
    decreases ws.len(),
{
    if ws.len() > 0 {
        assert(ws[ws.len() - 1] != x);
        assert forall|i: int| 0 <= i < ws.drop_last().len() implies ws.drop_last()[i] != x by {
            assert(ws.drop_last()[i] == ws[i]);
        }
        lemma_fold_keeps(t, groups, mt, r, k, ws.drop_last(), a, p, x);
    }
}

/// What the fold records for the factory at position `i`: decided when it is
/// processed, with the arrivals recorded up to then.
proof fn lemma_fold_at(
    t: DistanceTable,
    groups: Seq<Seq<u32>>,
    mt: int,
    r: Map<u32, int>,
    k: int,
    ws: Seq<u32>,
    a: Map<u32, int>,
    p: Map<u32, LocationType>,
    i: int,
)
    requires
        0 <= i < ws.len(),
        forall|x: int, y: int| 0 <= x < y < ws.len() ==> ws[x] != ws[y],
    ensures
        ({
            let pre = forward_fold(t, groups, mt, r, k, ws.take(i), a, p);
            let b = best_prev(t, mt, ws[i], prevs_of(groups, k), pre.0, r[ws[i]]);
            b.0 < INF ==> forward_fold(t, groups, mt, r, k, ws, a, p).0.contains_key(ws[i])
                && forward_fold(t, groups, mt, r, k, ws, a, p).0[ws[i]] == b.0
        }),
    decreases ws.len(),
{
    if i == ws.len() - 1 {
        assert(ws.drop_last() =~= ws.take(i));
    } else {
        let w0 = ws.drop_last();
        assert(w0.take(i) =~= ws.take(i));
        assert(w0[i] == ws[i]);
        lemma_fold_at(t, groups, mt, r, k, w0, a, p, i);
        assert(ws[ws.len() - 1] != ws[i]);
    }
}

proof fn lemma_forward_keeps(t: DistanceTable, groups: Seq<Seq<u32>>, mt: int, r: Map<u32, int>, j: int, k: int, x: u32)
    requires
        ids_distinct(groups),
        1 <= j <= k < groups.len(),
        groups[j].contains(x),
        forward(t, groups, mt, r, j).0.contains_key(x),
    ensures
        forward(t, groups, mt, r, k).0.contains_key(x),
        forward(t, groups, mt, r, k).0[x] == forward(t, groups, mt, r, j).0[x],
    decreases k - j,
{
    if k > j {
        lemma_forward_keeps(t, groups, mt, r, j, k - 1, x);
        let st = forward(t, groups, mt, r, k - 1);
        if groups[k].contains(x) {
            let i1 = choose|i1: int| 0 <= i1 < groups[j].len() && groups[j][i1] == x;
            let i2 = choose|i2: int| 0 <= i2 < groups[k].len() && groups[k][i2] == x;
            assert(groups[j][i1] == groups[k][i2]);
        }
        lemma_fold_keeps(t, groups, mt, r, k, groups[k], st.0, st.1, x);
    }
}

/// Every factory that ends a secured chain of `c.len()` steps has an arrival from
/// the forward pass, no later than the chain's.
proof fn lemma_forward_optimal(t: DistanceTable, groups: Seq<Seq<u32>>, mt: int, r: Map<u32, int>, c: Seq<u32>)
    requires
        ids_distinct(groups),
        1 <= c.len() < groups.len(),
        secure_chain(t, groups, r, mt, c),
    ensures
        forward(t, groups, mt, r, c.len() as int).0.contains_key(c.last()),
        forward(t, groups, mt, r, c.len() as int).0[c.last()] <= chain_arrival(t, c, c.len() - 1),
    decreases c.len(),
{
    let n = c.len() as int;
    let v = c[n - 1];
    let ws = groups[n];
    let st = forward(t, groups, mt, r, n - 1);
    assert(groups[n].contains(c[n - 1]));
    let iv = choose|iv: int| 0 <= iv < ws.len() && ws[iv] == v;
    lemma_step_fresh(t, groups, mt, r, n);
    let pre = forward_fold(t, groups, mt, r, n, ws.take(iv), st.0, st.1);
    let prevs = prevs_of(groups, n);
    if n == 1 {
        assert(prevs[0] == LocationType::Start);
        lemma_best_prev_min(t, mt, v, prevs, pre.0, r[v], 0);
    } else {
        let c0 = c.drop_last();
        assert forall|i: int| 0 <= i < c0.len() implies groups[i + 1].contains(#[trigger] c0[i])
            && chain_arrival(t, c0, i) < INF && chain_arrival(t, c0, i) + r[c0[i]] <= mt by {
            assert(c0[i] == c[i]);
            lemma_chain_prefix(t, c, c0, i);
        }
        lemma_forward_optimal(t, groups, mt, r, c0);
        let u = c[n - 2];
        assert(c0.last() == u);
        lemma_chain_prefix(t, c, c0, n - 2);
        assert(groups[n - 1].contains(c[n - 2]));
        let gp = groups[n - 1];
        let iu = choose|iu: int| 0 <= iu < gp.len() && gp[iu] == u;
        if ws.take(iv).contains(u) {
            let i3 = choose|i3: int| 0 <= i3 < ws.take(iv).len() && ws.take(iv)[i3] == u;
            assert(groups[n][i3] == groups[n - 1][iu]);
            assert(false);
        }
        lemma_fold_keeps(t, groups, mt, r, n, ws.take(iv), st.0, st.1, u);
        assert(prevs[iu] == LocationType::Num(u));
        lemma_best_prev_min(t, mt, v, prevs, pre.0, r[v], iu);
    }
    lemma_fold_at(t, groups, mt, r, n, ws, st.0, st.1, iv);
}

proof fn lemma_chain_prefix(t: DistanceTable, c: Seq<u32>, c0: Seq<u32>, i: int)
    requires
        c.len() >= 1,
        c0 == c.drop_last(),
        0 <= i < c0.len(),
    ensures
        chain_arrival(t, c0, i) == chain_arrival(t, c, i),
    decreases i,
{
    assert(c0[i] == c[i]);
    assert(c0[0] == c[0]);
    if i > 0 {
        assert(c0[i - 1] == c[i - 1]);
        lemma_chain_prefix(t, c, c0, i - 1);
    }
}

/// No secured chain of factories, one for each step, reaches the goal sooner than
/// the plan's total (line 4 of the answer); so when the answer is the impossible
/// one, no secured chain reaches the goal within the time limit. Stated for tasks
/// in which no factory number is listed twice.
pub proof fn lemma_total_is_least(data: ProblemData, m: StreetMap, t: DistanceTable, c: Seq<u32>)
    requires
        ids_distinct(groups_of(data)),
        groups_of(data).len() == data.count_steps + 1,
        c.len() == data.count_steps,
        c.len() >= 1,
        secure_chain(
            t,
            groups_of(data),
            backward(t, groups_of(data), data.count_steps as int, 1).2,
            data.max_time as int,
            c,
        ),
    ensures
        final_cost(data, t) <= chain_arrival(t, c, c.len() - 1) + table_dist(
            t,
            LocationType::Num(c.last()),
            LocationType::Goal,
        ),
        chain_arrival(t, c, c.len() - 1) + table_dist(t, LocationType::Num(c.last()), LocationType::Goal)
            <= data.max_time ==> plan_output(data, m, t) != Some(impossible_answer()),
{
    let groups = groups_of(data);
    let last = data.count_steps as int;
    let r = backward(t, groups, last, 1).2;
    let mt = data.max_time as int;
    lemma_forward_optimal(t, groups, mt, r, c);
    let fw = forward(t, groups, mt, r, last);
    assert(groups[last].contains(c[last - 1]));
    let i = choose|i: int| 0 <= i < groups[last].len() && groups[last][i] == c.last();
    lemma_best_final_min(t, groups[last], fw.0, i);
    lemma_answer_total(data, m, t);
}

/// Each recorded arrival is below `INF` and keeps within `mt` with the fallback
/// cost; it adds up from the predecessor, which is the start for a factory of step
/// 1 and a factory of the step before otherwise.
pub open spec fn arrivals_secured(
    t: DistanceTable,
    groups: Seq<Seq<u32>>,
    r: Map<u32, int>,
    mt: int,
    a: Map<u32, int>,
    p: Map<u32, LocationType>,
) -> bool {
    forall|v: u32| #[trigger] a.contains_key(v) ==> a[v] < INF && a[v] + r[v] <= mt && p.contains_key(v) && match p[v] {
        LocationType::Start => a[v] == table_dist(t, LocationType::Start, LocationType::Num(v)) && groups[1].contains(v),
        LocationType::Num(u) => a.contains_key(u) && a[v] == a[u] + table_dist(t, LocationType::Num(u), LocationType::Num(v))
            && exists|j: int| 2 <= j < groups.len() && #[trigger] groups[j].contains(v) && groups[j - 1].contains(u),
        LocationType::Goal => false,
    }
}

proof fn lemma_fold_secured(
    t: DistanceTable,
    groups: Seq<Seq<u32>>,
    mt: int,
    r: Map<u32, int>,
    k: int,
    ws: Seq<u32>,
    a: Map<u32, int>,
    p: Map<u32, LocationType>,
)
    requires
        1 <= k < groups.len(),
        arrivals_secured(t, groups, r, mt, a, p),
        forall|i: int| 0 <= i < ws.len() ==> !a.contains_key(#[trigger] ws[i]),
        forall|i: int| 0 <= i < ws.len() ==> groups[k].contains(#[trigger] ws[i]),
        forall|i: int, j: int| 0 <= i < j < ws.len() ==> ws[i] != ws[j],
    ensures
        ({
            let f = forward_fold(t, groups, mt, r, k, ws, a, p);
            arrivals_secured(t, groups, r, mt, f.0, f.1)
        }),
    decreases ws.len(),
{
    if ws.len() > 0 {
        let w0 = ws.drop_last();
        assert forall|i: int| 0 <= i < w0.len() implies !a.contains_key(#[trigger] w0[i]) && groups[k].contains(w0[i]) by {
            assert(w0[i] == ws[i]);
        }
        lemma_fold_secured(t, groups, mt, r, k, w0, a, p);
        let prev = forward_fold(t, groups, mt, r, k, w0, a, p);
        let v = ws.last();
        assert(groups[k].contains(ws[ws.len() - 1]));
        if prev.0.contains_key(v) {
            lemma_fold_keys(t, groups, mt, r, k, w0, a, p, v);
            assert(!a.contains_key(ws[ws.len() - 1]));
            let i = choose|i: int| 0 <= i < w0.len() && w0[i] == v;
            assert(ws[i] == ws[ws.len() - 1]);
        }
        let prevs = prevs_of(groups, k);
        let b = best_prev(t, mt, v, prevs, prev.0, r[v]);
        lemma_best_prev_from(t, mt, v, prevs, prev.0, r[v]);
        if b.0 < INF {
            let a2 = prev.0.insert(v, b.0);
            let p2 = prev.1.insert(v, b.1);
            if k == 1 {
                assert(prevs =~= seq![LocationType::Start]);
                assert(b.1 == LocationType::Start);
            } else {
                let i = choose|i: int| 0 <= i < prevs.len() && prevs[i] == b.1;
                assert(b.1 == LocationType::Num(groups[k - 1][i]));
                assert(groups[k - 1].contains(groups[k - 1][i]));
                assert(groups[k].contains(v));
            }
            assert forall|w: u32| #[trigger] a2.contains_key(w) implies a2[w] < INF && a2[w] + r[w] <= mt && p2.contains_key(w)
                && match p2[w] {
                LocationType::Start => a2[w] == table_dist(t, LocationType::Start, LocationType::Num(w)) && groups[1].contains(w),
                LocationType::Num(u) => a2.contains_key(u) && a2[w] == a2[u] + table_dist(t, LocationType::Num(u), LocationType::Num(w))
                    && exists|j: int| 2 <= j < groups.len() && #[trigger] groups[j].contains(w) && groups[j - 1].contains(u),
                LocationType::Goal => false,
            } by {
                if w != v {
                    assert(prev.0.contains_key(w));
                    if let LocationType::Num(u) = prev.1[w] {
                        assert(prev.0.contains_key(u));
                    }
                }
            }
        }
    }
}

pub(crate) proof fn lemma_forward_secured(t: DistanceTable, groups: Seq<Seq<u32>>, mt: int, r: Map<u32, int>, k: int)
    requires
        ids_distinct(groups),
        k < groups.len(),
    ensures
        arrivals_secured(t, groups, r, mt, forward(t, groups, mt, r, k).0, forward(t, groups, mt, r, k).1),
    decreases k,
{
    if k > 0 {
        lemma_forward_secured(t, groups, mt, r, k - 1);
        let st = forward(t, groups, mt, r, k - 1);
        lemma_step_fresh(t, groups, mt, r, k);
        assert forall|i: int| 0 <= i < groups[k].len() implies groups[k].contains(#[trigger] groups[k][i]) by {}
        lemma_fold_secured(t, groups, mt, r, k, groups[k], st.0, st.1);
    }
}

/// The factory numbers of places on a route.
pub open spec fn factory_ids(route: Seq<LocationType>) -> Seq<u32> {
    route.map_values(|l: LocationType| match l {
        LocationType::Num(u) => u,
        _ => 0u32,
    })
}

proof fn lemma_same_step(groups: Seq<Seq<u32>>, v: u32, j1: int, j2: int)
    requires
        ids_distinct(groups),
        1 <= j1 < groups.len(),
        1 <= j2 < groups.len(),
        groups[j1].contains(v),
        groups[j2].contains(v),
    ensures
        j1 == j2,
{
    let i1 = choose|i: int| 0 <= i < groups[j1].len() && groups[j1][i] == v;
    let i2 = choose|i: int| 0 <= i < groups[j2].len() && groups[j2][i] == v;
    assert(groups[j1][i1] == groups[j2][i2]);
}

proof fn lemma_chain_extend(t: DistanceTable, groups: Seq<Seq<u32>>, r: Map<u32, int>, mt: int, c0: Seq<u32>, v: u32)
    requires
        c0.len() >= 1,
        c0.len() + 1 < groups.len(),
        secure_chain(t, groups, r, mt, c0),
        groups[c0.len() + 1int].contains(v),
        chain_arrival(t, c0, c0.len() - 1) + table_dist(t, LocationType::Num(c0.last()), LocationType::Num(v)) < INF,
        chain_arrival(t, c0, c0.len() - 1) + table_dist(t, LocationType::Num(c0.last()), LocationType::Num(v)) + r[v] <= mt,
    ensures
        secure_chain(t, groups, r, mt, c0.push(v)),
        chain_arrival(t, c0.push(v), c0.len() as int) == chain_arrival(t, c0, c0.len() - 1) + table_dist(
            t,
            LocationType::Num(c0.last()),
            LocationType::Num(v),
        ),
{
    let c = c0.push(v);
    assert(c.drop_last() =~= c0);
    assert(c[c0.len() - 1] == c0.last());
    lemma_chain_prefix(t, c, c0, c0.len() - 1);
    assert forall|i: int| 0 <= i < c.len() implies groups[i + 1].contains(#[trigger] c[i]) && chain_arrival(t, c, i) < INF
        && chain_arrival(t, c, i) + r[c[i]] <= mt by {
        if i < c0.len() {
            assert(c[i] == c0[i]);
            lemma_chain_prefix(t, c, c0, i);
        }
    }
}

#[verifier::spinoff_prover]
proof fn lemma_chain_secured(
    t: DistanceTable,
    groups: Seq<Seq<u32>>,
    r: Map<u32, int>,
    mt: int,
    a: Map<u32, int>,
    p: Map<u32, LocationType>,
    v: u32,
    j: int,
    fuel: nat,
)
    requires
        ids_distinct(groups),
        1 <= j < groups.len(),
        arrivals_secured(t, groups, r, mt, a, p),
        a.contains_key(v),
        groups[j].contains(v),
        reaches_start(p, LocationType::Num(v), fuel),
    ensures
        ({
            let c = factory_ids(back_chain(p, LocationType::Num(v), fuel).reverse());
            &&& c.len() == j
            &&& c.last() == v
            &&& secure_chain(t, groups, r, mt, c)
            &&& chain_arrival(t, c, j - 1) == a[v]
        }),
    decreases fuel,
{
    let rest = back_chain(p, p[v], (fuel - 1) as nat);
    let c = factory_ids(back_chain(p, LocationType::Num(v), fuel).reverse());
    let c0 = factory_ids(rest.reverse());
    assert(back_chain(p, LocationType::Num(v), fuel) == seq![LocationType::Num(v)] + rest);
    assert((seq![LocationType::Num(v)] + rest).reverse() =~= rest.reverse().push(LocationType::Num(v)));
    assert(c =~= c0.push(v));
    assert(a[v] < INF && a[v] + r[v] <= mt && p.contains_key(v));
    match p[v] {
        LocationType::Start => {
            assert(rest =~= Seq::<LocationType>::empty());
            assert(c =~= seq![v]);
            lemma_same_step(groups, v, 1, j);
            assert(secure_chain(t, groups, r, mt, c));
        },
        LocationType::Num(u) => {
            let j2 = choose|j2: int| 2 <= j2 < groups.len() && #[trigger] groups[j2].contains(v) && groups[j2 - 1].contains(u);
            lemma_same_step(groups, v, j2, j);
            assert(a.contains_key(u));
            lemma_chain_secured(t, groups, r, mt, a, p, u, j - 1, (fuel - 1) as nat);
            lemma_chain_extend(t, groups, r, mt, c0, v);
        },
        LocationType::Goal => {},
    }
}

/// The main route of a possible plan runs through a secured chain: its factories,
/// one of each step in order, form a secured chain whose total is the plan's total
/// (line 4 of the answer). With `lemma_total_is_least`, that total is the least of
/// all secured chains. Stated for tasks in which no factory number is listed twice.
pub proof fn lemma_route_is_secured(data: ProblemData, t: DistanceTable)
    requires
        ids_distinct(groups_of(data)),
        groups_of(data).len() == data.count_steps + 1,
        data.count_steps >= 1,
        final_cost(data, t) < INF,
    ensures
        plan_route(data, t).len() > 0 ==> {
            let route = plan_route(data, t);
            let c = factory_ids(route.subrange(1, route.len() - 1));
            &&& c.len() == data.count_steps
            &&& secure_chain(
                t,
                groups_of(data),
                backward(t, groups_of(data), data.count_steps as int, 1).2,
                data.max_time as int,
                c,
            )
            &&& chain_arrival(t, c, c.len() - 1) + table_dist(t, LocationType::Num(c.last()), LocationType::Goal)
                == final_cost(data, t)
        },
{
    let groups = groups_of(data);
    let last = data.count_steps as int;
    let r = backward(t, groups, last, 1).2;
    let mt = data.max_time as int;
    let fw = forward(t, groups, mt, r, last);
    let fin = best_final(t, groups[last], fw.0);
    lemma_forward_secured(t, groups, mt, r, last);
    lemma_best_final_from(t, groups[last], fw.0);
    lemma_best_final_in(t, groups[last], fw.0);
    let route = plan_route(data, t);
    if route.len() > 0 {
        if let LocationType::Num(v) = fin.1 {
            let fuel = crate::plan::route_fuel(data);
            lemma_chain_secured(t, groups, r, mt, fw.0, fw.1, v, last, fuel);
            let bc = back_chain(fw.1, fin.1, fuel).reverse();
            assert(route.subrange(1, route.len() - 1) =~= bc);
        }
    }
}

proof fn lemma_best_final_in(t: DistanceTable, ws: Seq<u32>, a: Map<u32, int>)
    ensures
        ({
            let f = best_final(t, ws, a);
            f.1 matches LocationType::Num(v) ==> ws.contains(v)
        }),
    decreases ws.len(),
{
    if ws.len() > 0 {
        lemma_best_final_in(t, ws.drop_last(), a);
        let f = best_final(t, ws.drop_last(), a);
        if let LocationType::Num(v) = f.1 {
            let i = choose|i: int| 0 <= i < ws.drop_last().len() && ws.drop_last()[i] == v;
            assert(ws[i] == v);
        }
        assert(ws[ws.len() - 1] == ws.last());
    }
}

proof fn lemma_table_dist_nonneg(t: DistanceTable, from: LocationType, to: LocationType)
    requires
        t.wf(),
    ensures
        table_dist(t, from, to) >= 0,
{
}

/// A distance the table knows (below `INF`) is between two places of the network
/// that streets join.
proof fn lemma_known_distance(t: DistanceTable, m: StreetMap, from: LocationType, to: LocationType)
    requires
        table_matches(t, m),
        table_dist(t, from, to) < INF,
    ensures
        index_in(m.locs@, from) >= 0,
        index_in(m.locs@, to) >= 0,
        reachable(street_edges(m.graph), index_in(m.locs@, from), index_in(m.locs@, to)),
        table_dist(t, from, to) >= 0,
{
    let r = index_in(t.sources@, from);
    let k = index_in(t.locs@, to);
    lemma_index_in(t.sources@, from);
    lemma_index_in(t.locs@, to);
    assert(t.rows@[r]@[k] is Some);
    assert(t.sources@[r] == from);
}

proof fn lemma_best_next_from(t: DistanceTable, u: u32, ws: Seq<u32>, s: Map<u32, int>)
    ensures
        ({
            let b = best_next(t, u, ws, s);
            b.0 < INF ==> (b.1 matches LocationType::Num(w) && ws.contains(w)
                && b.0 == table_dist(t, LocationType::Num(u), LocationType::Num(w)) + s[w])
        }),
    decreases ws.len(),
{
    if ws.len() > 0 {
        lemma_best_next_from(t, u, ws.drop_last(), s);
        let b = best_next(t, u, ws.drop_last(), s);
        if let LocationType::Num(w) = b.1 {
            if b.0 < INF {
                let i = choose|i: int| 0 <= i < ws.drop_last().len() && ws.drop_last()[i] == w;
                assert(ws[i] == w);
            }
        }
        assert(ws[ws.len() - 1] == ws.last());
    }
}

proof fn lemma_best_next_same(t: DistanceTable, u: u32, ws: Seq<u32>, s1: Map<u32, int>, s2: Map<u32, int>)
    requires
        forall|i: int| 0 <= i < ws.len() ==> s1[#[trigger] ws[i]] == s2[ws[i]],
    ensures
        best_next(t, u, ws, s1) == best_next(t, u, ws, s2),
    decreases ws.len(),
{
    if ws.len() > 0 {
        assert forall|i: int| 0 <= i < ws.drop_last().len() implies s1[#[trigger] ws.drop_last()[i]] == s2[ws.drop_last()[i]] by {
            assert(ws.drop_last()[i] == ws[i]);
        }
        lemma_best_next_same(t, u, ws.drop_last(), s1, s2);
        assert(s1[ws[ws.len() - 1]] == s2[ws[ws.len() - 1]]);
    }
}

proof fn lemma_best_backup_from(t: DistanceTable, v: u32, us: Seq<u32>, s: Map<u32, int>)
    ensures
        ({
            let b = best_backup(t, v, us, s);
            b.0 < INF ==> us.contains(b.1) && b.1 != v && b.0 == table_dist(t, LocationType::Num(v), LocationType::Num(b.1))
                + s[b.1]
        }),
    decreases us.len(),
{
    if us.len() > 0 {
        lemma_best_backup_from(t, v, us.drop_last(), s);
        let b = best_backup(t, v, us.drop_last(), s);
        if b.0 < INF {
            let i = choose|i: int| 0 <= i < us.drop_last().len() && us.drop_last()[i] == b.1;
            assert(us[i] == b.1);
        }
        assert(us[us.len() - 1] == us.last());
    }
}

/// The secure fold leaves what it does not process as it was, and gives each factory
/// it processes its cost and next place from the costs it started with, when the
/// next step shares no factory with the processed ones.
proof fn lemma_secure_fold(
    t: DistanceTable,
    groups: Seq<Seq<u32>>,
    last: int,
    k: int,
    ws: Seq<u32>,
    s: Map<u32, int>,
    nb: Map<u32, LocationType>,
    x: u32,
)
    requires
        forall|i: int, j: int| 0 <= i < j < ws.len() ==> ws[i] != ws[j],
        k != last ==> forall|i: int| 0 <= i < groups[k + 1].len() ==> !ws.contains(#[trigger] groups[k + 1][i]),
    ensures
        ({
            let f = secure_fold(t, groups, last, k, ws, s, nb);
            &&& !ws.contains(x) ==> (f.0.contains_key(x) == s.contains_key(x) && f.0[x] == s[x]
                && f.1.contains_key(x) == nb.contains_key(x) && f.1[x] == nb[x])
            &&& ws.contains(x) ==> f.0.contains_key(x) && f.1.contains_key(x) && (if k == last {
                f.0[x] == table_dist(t, LocationType::Num(x), LocationType::Goal) && f.1[x] == LocationType::Goal
            } else {
                (f.0[x], f.1[x]) == best_next(t, x, groups[k + 1], s)
            })
        }),
    decreases ws.len(),
{
    if ws.len() > 0 {
        let w0 = ws.drop_last();
        assert forall|i: int, j: int| 0 <= i < j < w0.len() implies w0[i] != w0[j] by {
            assert(w0[i] == ws[i] && w0[j] == ws[j]);
        }
        if k != last {
            assert forall|i: int| 0 <= i < groups[k + 1].len() implies !w0.contains(#[trigger] groups[k + 1][i]) by {
                if w0.contains(groups[k + 1][i]) {
                    let q = choose|q: int| 0 <= q < w0.len() && w0[q] == groups[k + 1][i];
                    assert(ws[q] == w0[q]);
                }
            }
        }
        lemma_secure_fold(t, groups, last, k, w0, s, nb, x);
        let prev = secure_fold(t, groups, last, k, w0, s, nb);
        let u = ws.last();
        assert(ws[ws.len() - 1] == u);
        if k != last {
            assert forall|i: int| 0 <= i < groups[k + 1].len() implies prev.0[#[trigger] groups[k + 1][i]] == s[groups[k + 1][i]] by {
                lemma_secure_fold(t, groups, last, k, w0, s, nb, groups[k + 1][i]);
                if w0.contains(groups[k + 1][i]) {
                    let q = choose|q: int| 0 <= q < w0.len() && w0[q] == groups[k + 1][i];
                    assert(ws[q] == w0[q]);
                    assert(ws.contains(groups[k + 1][i]));
                }
            }
            lemma_best_next_same(t, u, groups[k + 1], prev.0, s);
        }
        if ws.contains(x) && x != u {
            let q = choose|q: int| 0 <= q < ws.len() && ws[q] == x;
            assert(w0[q] == x);
        }
        if w0.contains(x) {
            let q = choose|q: int| 0 <= q < w0.len() && w0[q] == x;
            assert(ws[q] == x);
            if x == u {
                assert(ws[q] == ws[ws.len() - 1]);
            }
        }
    }
}

proof fn lemma_backup_fold(
    t: DistanceTable,
    group: Seq<u32>,
    ws: Seq<u32>,
    s: Map<u32, int>,
    r: Map<u32, int>,
    bk: Map<u32, u32>,
    x: u32,
)
    ensures
        ({
            let f = backup_fold(t, group, ws, s, r, bk);
            &&& !ws.contains(x) ==> (f.0.contains_key(x) == r.contains_key(x) && f.0[x] == r[x]
                && f.1.contains_key(x) == bk.contains_key(x) && f.1[x] == bk[x])
            &&& ws.contains(x) ==> f.0.contains_key(x) && f.1.contains_key(x) && (f.0[x], f.1[x]) == best_backup(t, x, group, s)
        }),
    decreases ws.len(),
{
    if ws.len() > 0 {
        let w0 = ws.drop_last();
        lemma_backup_fold(t, group, w0, s, r, bk, x);
        assert(ws[ws.len() - 1] == ws.last());
        if ws.contains(x) && x != ws.last() {
            let q = choose|q: int| 0 <= q < ws.len() && ws[q] == x;
            assert(w0[q] == x);
        }
        if w0.contains(x) {
            let q = choose|q: int| 0 <= q < w0.len() && w0[q] == x;
            assert(ws[q] == x);
        }
    }
}

/// Step `j`'s factories get their values at step `j` of the backward pass, and the
/// earlier steps (processed later) keep them.
proof fn lemma_backward_at(t: DistanceTable, groups: Seq<Seq<u32>>, last: int, k: int, j: int, x: u32)
    requires
        ids_distinct(groups),
        1 <= k <= j <= last < groups.len(),
        groups[j].contains(x),
    ensures
        ({
            let bk = backward(t, groups, last, k);
            let bj = backward(t, groups, last, j);
            &&& bk.0.contains_key(x) && bk.0[x] == bj.0[x]
            &&& bk.1.contains_key(x) && bk.1[x] == bj.1[x]
            &&& bk.2.contains_key(x) && bk.2[x] == bj.2[x]
            &&& bk.3.contains_key(x) && bk.3[x] == bj.3[x]
            &&& (if j == last {
                bj.0[x] == table_dist(t, LocationType::Num(x), LocationType::Goal) && bj.1[x] == LocationType::Goal
            } else {
                (bj.0[x], bj.1[x]) == best_next(t, x, groups[j + 1], backward(t, groups, last, j + 1).0)
            })
            &&& (bj.2[x], bj.3[x]) == best_backup(t, x, groups[j], bj.0)
        }),
    decreases j - k,
{
    let st = backward(t, groups, last, k + 1);
    let sec = secure_fold(t, groups, last, k, groups[k], st.0, st.1);
    assert forall|i: int, q: int| 0 <= i < q < groups[k].len() implies groups[k][i] != groups[k][q] by {}
    if k < last {
        assert forall|i: int| 0 <= i < groups[k + 1].len() implies !groups[k].contains(#[trigger] groups[k + 1][i]) by {
            if groups[k].contains(groups[k + 1][i]) {
                let q = choose|q: int| 0 <= q < groups[k].len() && groups[k][q] == groups[k + 1][i];
                assert(groups[k][q] == groups[k + 1][i]);
            }
        }
    }
    lemma_secure_fold(t, groups, last, k, groups[k], st.0, st.1, x);
    lemma_backup_fold(t, groups[k], groups[k], sec.0, st.2, st.3, x);
    if k < j {
        lemma_backward_at(t, groups, last, k + 1, j, x);
        if groups[k].contains(x) {
            let q1 = choose|q: int| 0 <= q < groups[k].len() && groups[k][q] == x;
            let q2 = choose|q: int| 0 <= q < groups[j].len() && groups[j][q] == x;
            assert(groups[k][q1] == groups[j][q2]);
        }
    }
}

/// With distinct factory numbers, a factory of step `j` has a cost to the goal of at
/// least 0; and when it is below `INF`, the walk on along the next places reaches the
/// goal within the legs left.
proof fn lemma_next_chain(t: DistanceTable, m: StreetMap, groups: Seq<Seq<u32>>, last: int, j: int, x: u32, fuel: nat)
    requires
        ids_distinct(groups),
        table_matches(t, m),
        1 <= j <= last < groups.len(),
        groups[j].contains(x),
        fuel >= last - j + 1,
    ensures
        ({
            let b = backward(t, groups, last, 1);
            &&& b.0[x] >= 0
            &&& b.1.contains_key(x)
            &&& b.0[x] < INF ==> detour_ok(m, b.1, LocationType::Num(x), b.1[x], fuel)
        }),
    decreases last - j,
{
    let b = backward(t, groups, last, 1);
    lemma_backward_at(t, groups, last, 1, j, x);
    let bj = backward(t, groups, last, j);
    lemma_table_dist_nonneg(t, LocationType::Num(x), LocationType::Goal);
    if j == last {
        if b.0[x] < INF {
            lemma_known_distance(t, m, LocationType::Num(x), LocationType::Goal);
        }
    } else {
        let next = backward(t, groups, last, j + 1).0;
        lemma_best_next_from(t, x, groups[j + 1], next);
        if b.0[x] < INF {
            let w = choose|w: u32| bj.1[x] == LocationType::Num(w) && groups[j + 1].contains(w);
            assert(bj.1[x] == LocationType::Num(w));
            lemma_next_chain(t, m, groups, last, j + 1, w, (fuel - 1) as nat);
            lemma_backward_at(t, groups, last, 1, j + 1, w);
            lemma_table_dist_nonneg(t, LocationType::Num(x), LocationType::Num(w));
            lemma_known_distance(t, m, LocationType::Num(x), LocationType::Num(w));
        } else {
            assert(b.0[x] >= 0);
        }
    }
}

/// With distinct factory numbers, a factory of step `j` whose fallback cost is below
/// `INF` has a backup, and its detour through the backup reaches the goal within
/// `last + 2` legs.
pub proof fn lemma_backup_detour(t: DistanceTable, m: StreetMap, groups: Seq<Seq<u32>>, last: int, j: int, v: u32)
    requires
        ids_distinct(groups),
        table_matches(t, m),
        1 <= j <= last < groups.len(),
        groups[j].contains(v),
        backward(t, groups, last, 1).2[v] < INF,
    ensures
        backward(t, groups, last, 1).3.contains_key(v),
        detour_ok(
            m,
            backward(t, groups, last, 1).1,
            LocationType::Num(v),
            LocationType::Num(backward(t, groups, last, 1).3[v]),
            (last + 2) as nat,
        ),
{
    let b = backward(t, groups, last, 1);
    lemma_backward_at(t, groups, last, 1, j, v);
    let bj = backward(t, groups, last, j);
    lemma_best_backup_from(t, v, groups[j], bj.0);
    let u = b.3[v];
    assert(groups[j].contains(u));
    lemma_backward_at(t, groups, last, 1, j, u);
    lemma_next_chain(t, m, groups, last, j, u, (last + 1) as nat);
    lemma_table_dist_nonneg(t, LocationType::Num(v), LocationType::Num(u));
    lemma_known_distance(t, m, LocationType::Num(v), LocationType::Num(u));
}

/// The longest duration is at least `start` and at least the time through the
/// fallback of every factory of the route, and it is one of these.
pub proof fn lemma_max_duration(
    t: DistanceTable,
    route: Seq<LocationType>,
    whole: Seq<LocationType>,
    a: Map<u32, int>,
    r: Map<u32, int>,
    start: int,
)
    ensures
        max_duration(t, route, whole, a, r, start) >= start,
        forall|q: int| 0 <= q < route.len() ==> match #[trigger] route[q] {
            LocationType::Num(id) => max_duration(t, route, whole, a, r, start) >= reach_time(t, whole, a, id) + r[id],
            _ => true,
        },
        max_duration(t, route, whole, a, r, start) == start || exists|q: int| 0 <= q < route.len() && match #[trigger] route[q] {
            LocationType::Num(id) => max_duration(t, route, whole, a, r, start) == reach_time(t, whole, a, id) + r[id],
            _ => false,
        },
    decreases route.len(),
{
    if route.len() > 0 {
        let r0 = route.drop_last();
        lemma_max_duration(t, r0, whole, a, r, start);
        let m = max_duration(t, route, whole, a, r, start);
        let m0 = max_duration(t, r0, whole, a, r, start);
        assert forall|q: int| 0 <= q < route.len() implies match #[trigger] route[q] {
            LocationType::Num(id) => m >= reach_time(t, whole, a, id) + r[id],
            _ => true,
        } by {
            if q < r0.len() {
                assert(route[q] == r0[q]);
            }
        }
        if m != start {
            if m == m0 {
                let q = choose|q: int| 0 <= q < r0.len() && match #[trigger] r0[q] {
                    LocationType::Num(id) => m0 == reach_time(t, whole, a, id) + r[id],
                    _ => false,
                };
                assert(route[q] == r0[q]);
            } else {
                assert(route[route.len() - 1] == route.last());
            }
        }
    }
}

/// The line that shows a number.
pub open spec fn number_line(d: int) -> Seq<char> {
    decimal(d as nat)
}

/// Line 2 of a possible answer is the longest duration: at least the total (line
/// 4), at least the time through the fallback of every factory on the main route
/// (the times printed after the route), and one of these.
pub proof fn lemma_duration_line(data: ProblemData, m: StreetMap, t: DistanceTable)
    ensures
        match plan_output(data, m, t) {
            Some(ls) => ls.len() >= 5 ==> {
                let groups = groups_of(data);
                let last = data.count_steps as int;
                let r = backward(t, groups, last, 1).2;
                let a = forward(t, groups, data.max_time as int, r, last).0;
                let route = plan_route(data, t);
                exists|d: int|
                    {
                        &&& ls[1] == #[trigger] number_line(d)
                        &&& d >= final_cost(data, t)
                        &&& forall|q: int| 0 <= q < route.len() ==> match #[trigger] route[q] {
                            LocationType::Num(id) => d >= reach_time(t, route, a, id) + r[id],
                            _ => true,
                        }
                        &&& d == final_cost(data, t) || exists|q: int| 0 <= q < route.len() && match #[trigger] route[q] {
                            LocationType::Num(id) => d == reach_time(t, route, a, id) + r[id],
                            _ => false,
                        }
                    }
            },
            None => true,
        },
{
    let groups = groups_of(data);
    let last = data.count_steps as int;
    let bw = backward(t, groups, last, 1);
    let r = bw.2;
    let fw = forward(t, groups, data.max_time as int, r, last);
    let fin = best_final(t, groups[last], fw.0);
    if let Some(ls) = plan_output(data, m, t) {
        if ls.len() >= 5 && fin.0 <= data.max_time && crate::plan::reaches_start(fw.1, fin.1, crate::plan::route_fuel(data)) {
            let route = plan_route(data, t);
            lemma_max_duration(t, route, route, fw.0, r, fin.0);
            let d = max_duration(t, route, route, fw.0, r, fin.0);
            assert(ls[1] == number_line(d));
        }
    }
}

} // verus!
