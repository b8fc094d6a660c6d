//! The delivery plan: which factory to use at each production step so that the
//! goods reach the goal in time even when a factory fails, with the detours that
//! are then taken.

use vstd::prelude::*;

use std::collections::HashMap;

use crate::delivery::{groups_of, location_text, map_get, LocationType, ProblemData, RouteNode};
use crate::text::{decimal, push_char, push_decimal};
use crate::graphs::{edges_in_range, ints, is_shortest, reachable};
use crate::streets::{astar_street_route, build_street_map, index_in, lengths_fit, street_distances, street_edges, street_node, street_nodes, street_route, StreetMap};

verus! {

broadcast use vstd::std_specs::hash::group_hash_axioms;

/// Stands for "unreachable" and bounds every cost the plan compares.
pub const INF: i64 = 1_000_000;

/// Shortest distances from some places (`sources`) to every place (`locs`):
/// `rows[r][k]` is the distance from `sources[r]` to `locs[k]`, `None` when
/// unreachable.
pub struct DistanceTable {
    pub locs: Vec<LocationType>,
    pub sources: Vec<LocationType>,
    pub rows: Vec<Vec<Option<i32>>>,
}

impl DistanceTable {
    /// Every row covers every place and holds no negative distance.
    pub open spec fn wf(&self) -> bool {
        &&& self.rows@.len() == self.sources@.len()
        &&& forall|r: int| 0 <= r < self.rows@.len() ==> #[trigger] self.rows@[r]@.len() == self.locs@.len()
        &&& forall|r: int, k: int|
            0 <= r < self.rows@.len() && 0 <= k < self.locs@.len() && #[trigger] self.rows@[r]@[k] is Some
                ==> self.rows@[r]@[k]->0 >= 0
    }
}

/// The distance from `from` to `to` as the plan reads it: the entry of the first row
/// for `from` at the first column for `to`, or `INF` when there is none.
pub open spec fn table_dist(t: DistanceTable, from: LocationType, to: LocationType) -> int {
    let r = index_in(t.sources@, from);
    let k = index_in(t.locs@, to);
    if 0 <= r < t.rows@.len() && 0 <= k < t.rows@[r]@.len() && t.rows@[r]@[k] is Some {
        t.rows@[r]@[k]->0 as int
    } else {
        INF as int
    }
}

/// Reads the distance from `from` to `to`.
pub fn get_dist(t: &DistanceTable, from: LocationType, to: LocationType) -> (d: i64)
    requires
        t.wf(),
    ensures
        d == table_dist(*t, from, to),
        0 <= d <= i32::MAX,
{
    proof {
        crate::streets::lemma_index_in(t.sources@, from);
        crate::streets::lemma_index_in(t.locs@, to);
    }
    match crate::streets::find_place(&t.sources, from) {
        None => INF,
        Some(r) => match crate::streets::find_place(&t.locs, to) {
            None => INF,
            Some(k) => {
                assert(t.rows@[r as int]@.len() == t.locs@.len());
                match t.rows[r][k] {
                    Some(d) => d as i64,
                    None => INF,
                }
            },
        },
    }
}

/// Cheapest way on from factory `u` through one factory of `ws` (the next step):
/// distance to it plus its own cost `s`, starting from (`INF`, goal) and taking the
/// first strictly cheaper one.
pub open spec fn best_next(t: DistanceTable, u: u32, ws: Seq<u32>, s: Map<u32, int>) -> (int, LocationType)
    decreases ws.len(),
{
    if ws.len() == 0 {
        (INF as int, LocationType::Goal)
    } else {
        let prev = best_next(t, u, ws.drop_last(), s);
        let w = ws.last();
        let d = table_dist(t, LocationType::Num(u), LocationType::Num(w)) + s[w];
        if d < prev.0 {
            (d, LocationType::Num(w))
        } else {
            prev
        }
    }
}

/// The cost to the goal (`s`) and the next place (`nb`) of each factory of `ws`, in
/// order, for step `k` of `last` steps.
pub open spec fn secure_fold(
    t: DistanceTable,
    groups: Seq<Seq<u32>>,
    last: int,
    k: int,
    ws: Seq<u32>,
    s: Map<u32, int>,
    nb: Map<u32, LocationType>,
) -> (Map<u32, int>, Map<u32, LocationType>)
    decreases ws.len(),
{
    if ws.len() == 0 {
        (s, nb)
    } else {
        let prev = secure_fold(t, groups, last, k, ws.drop_last(), s, nb);
        let u = ws.last();
        if k == last {
            (
                prev.0.insert(u, table_dist(t, LocationType::Num(u), LocationType::Goal)),
                prev.1.insert(u, LocationType::Goal),
            )
        } else {
            let b = best_next(t, u, groups[k + 1], prev.0);
            (prev.0.insert(u, b.0), prev.1.insert(u, b.1))
        }
    }
}

/// Cheapest fallback of factory `v` through another factory of its own step:
/// distance to it plus its cost, starting from (`INF`, 0) and taking the first
/// strictly cheaper one.
pub open spec fn best_backup(t: DistanceTable, v: u32, us: Seq<u32>, s: Map<u32, int>) -> (int, u32)
    decreases us.len(),
{
    if us.len() == 0 {
        (INF as int, 0u32)
    } else {
        let prev = best_backup(t, v, us.drop_last(), s);
        let u = us.last();
        if u == v {
            prev
        } else {
            let d = table_dist(t, LocationType::Num(v), LocationType::Num(u)) + s[u];
            if d < prev.0 {
                (d, u)
            } else {
                prev
            }
        }
    }
}

/// The fallback cost (`r`) and fallback factory (`bk`) of each factory of `ws`.
pub open spec fn backup_fold(
    t: DistanceTable,
    group: Seq<u32>,
    ws: Seq<u32>,
    s: Map<u32, int>,
    r: Map<u32, int>,
    bk: Map<u32, u32>,
) -> (Map<u32, int>, Map<u32, u32>)
    decreases ws.len(),
{
    if ws.len() == 0 {
        (r, bk)
    } else {
        let prev = backup_fold(t, group, ws.drop_last(), s, r, bk);
        let v = ws.last();
        let b = best_backup(t, v, group, s);
        (prev.0.insert(v, b.0), prev.1.insert(v, b.1))
    }
}

/// The maps after the steps `k ..= last` have been processed, last step first:
/// cost to the goal, next place, fallback cost, fallback factory.
pub open spec fn backward(t: DistanceTable, groups: Seq<Seq<u32>>, last: int, k: int) -> (
    Map<u32, int>,
    Map<u32, LocationType>,
    Map<u32, int>,
    Map<u32, u32>,
)
    decreases last + 1 - k,
{
    if k > last || k < 1 {
        (Map::empty(), Map::empty(), Map::empty(), Map::empty())
    } else {
        let st = backward(t, groups, last, k + 1);
        let sec = secure_fold(t, groups, last, k, groups[k], st.0, st.1);
        let bak = backup_fold(t, groups[k], groups[k], sec.0, st.2, st.3);
        (sec.0, sec.1, bak.0, bak.1)
    }
}

/// Integer view of a map of costs.
pub open spec fn int_map(m: Map<u32, i64>) -> Map<u32, int> {
    m.map_values(|v: i64| v as int)
}

/// Costs the backward pass computes for each factory.
pub struct SecureValues {
    pub s_val: HashMap<u32, i64>,
    pub next_best: HashMap<u32, LocationType>,
    pub r_val: HashMap<u32, i64>,
    pub backup_node: HashMap<u32, u32>,
}

impl SecureValues {
    /// The maps as the backward pass describes them.
    pub open spec fn view(&self) -> (Map<u32, int>, Map<u32, LocationType>, Map<u32, int>, Map<u32, u32>) {
        (int_map(self.s_val@), self.next_best@, int_map(self.r_val@), self.backup_node@)
    }
}

/// Every value of the cost map lies in `0 ..= i32::MAX`.
pub open spec fn costs_bounded(m: Map<u32, i64>) -> bool {
    forall|k: u32| #[trigger] m.contains_key(k) ==> 0 <= m[k] <= i32::MAX
}

/// The cost map holds every factory of `ws`.
pub open spec fn holds_all(m: Map<u32, i64>, ws: Seq<u32>) -> bool {
    forall|i: int| 0 <= i < ws.len() ==> #[trigger] m.contains_key(ws[i])
}

fn exec_best_next(t: &DistanceTable, u: u32, ws: &Vec<u32>, s: &HashMap<u32, i64>) -> (r: (i64, LocationType))
    requires
        t.wf(),
        costs_bounded(s@),
        holds_all(s@, ws@),
    ensures
        (r.0 as int, r.1) == best_next(*t, u, ws@, int_map(s@)),
        0 <= r.0 <= INF,
{
    let mut mv: i64 = INF;
    let mut bw = LocationType::Goal;
    let mut i: usize = 0;
    while i < ws.len()
        invariant
            t.wf(),
            costs_bounded(s@),
            holds_all(s@, ws@),
            i <= ws.len(),
            (mv as int, bw) == best_next(*t, u, ws@.take(i as int), int_map(s@)),
            0 <= mv <= INF,
        decreases ws.len() - i,
    {
        let w = ws[i];
        assert(s@.contains_key(ws@[i as int]));
        let sw = map_get(s, w).unwrap();
        let d = get_dist(t, LocationType::Num(u), LocationType::Num(w)) + sw;
        proof {
            assert(ws@.take(i + 1).drop_last() =~= ws@.take(i as int));
            assert(int_map(s@)[w] == sw as int);
        }
        if d < mv {
            mv = d;
            bw = LocationType::Num(w);
        }
        i += 1;
    }
    assert(ws@.take(ws.len() as int) =~= ws@);
    (mv, bw)
}

fn exec_best_backup(t: &DistanceTable, v: u32, us: &Vec<u32>, s: &HashMap<u32, i64>) -> (r: (i64, u32))
    requires
        t.wf(),
        costs_bounded(s@),
        holds_all(s@, us@),
    ensures
        (r.0 as int, r.1) == best_backup(*t, v, us@, int_map(s@)),
        0 <= r.0 <= INF,
{
    let mut mr: i64 = INF;
    let mut bb: u32 = 0;
    let mut i: usize = 0;
    while i < us.len()
        invariant
            t.wf(),
            costs_bounded(s@),
            holds_all(s@, us@),
            i <= us.len(),
            (mr as int, bb) == best_backup(*t, v, us@.take(i as int), int_map(s@)),
            0 <= mr <= INF,
        decreases us.len() - i,
    {
        let u = us[i];
        proof {
            assert(us@.take(i + 1).drop_last() =~= us@.take(i as int));
        }
        if u != v {
            assert(s@.contains_key(us@[i as int]));
            let su = map_get(s, u).unwrap();
            let d = get_dist(t, LocationType::Num(v), LocationType::Num(u)) + su;
            assert(int_map(s@)[u] == su as int);
            if d < mr {
                mr = d;
                bb = u;
            }
        }
        i += 1;
    }
    assert(us@.take(us.len() as int) =~= us@);
    (mr, bb)
}

/// The backward pass over the steps, last step first: for each factory its cost to
/// the goal through one factory per later step (`s_val`) and the place it goes to
/// next (`next_best`), then its fallback cost through another factory of its own
/// step (`r_val`) and that factory (`backup_node`).
pub fn backward_pass(data: &ProblemData, t: &DistanceTable) -> (sv: SecureValues)
    requires
        t.wf(),
        data.grouped_factories@.len() == data.count_steps + 1,
    ensures
        sv.view() == backward(*t, groups_of(*data), data.count_steps as int, 1),
        costs_bounded(sv.s_val@),
        costs_bounded(sv.r_val@),
        forall|k: int, i: int|
            1 <= k <= data.count_steps && 0 <= i < groups_of(*data)[k].len() ==> sv.s_val@.contains_key(
                #[trigger] groups_of(*data)[k][i],
            ) && sv.r_val@.contains_key(groups_of(*data)[k][i]),
{
    let ghost groups = groups_of(*data);
    let last = data.count_steps;
    let mut s_val: HashMap<u32, i64> = HashMap::new();
    let mut next_best: HashMap<u32, LocationType> = HashMap::new();
    let mut r_val: HashMap<u32, i64> = HashMap::new();
    let mut backup_node: HashMap<u32, u32> = HashMap::new();
    let mut step: u32 = last;
    proof {
        assert(int_map(s_val@) =~= Map::empty());
        assert(int_map(r_val@) =~= Map::empty());
    }
    while step > 0
        invariant
            t.wf(),
            groups == groups_of(*data),
            last == data.count_steps,
            data.grouped_factories@.len() == last + 1,
            step <= last,
            (int_map(s_val@), next_best@, int_map(r_val@), backup_node@) == backward(*t, groups, last as int, step + 1),
            costs_bounded(s_val@),
            costs_bounded(r_val@),
            forall|k: int, i: int|
                step < k <= last && 0 <= i < groups[k].len() ==> s_val@.contains_key(#[trigger] groups[k][i])
                    && r_val@.contains_key(groups[k][i]),
        decreases step,
    {
        let group = &data.grouped_factories[step as usize];
        assert(group@ == groups[step as int]);
        let ghost s0 = int_map(s_val@);
        let ghost nb0 = next_best@;
        let ghost sv0 = s_val@;
        let ghost rv0 = r_val@;
        proof {
            if step < last {
                assert forall|j: int| 0 <= j < groups[step + 1].len() implies #[trigger] sv0.contains_key(groups[step + 1][j]) by {
                    assert(s_val@.contains_key(groups[step + 1][j]));
                }
            }
        }
        let mut i: usize = 0;
        while i < group.len()
            invariant
                t.wf(),
                groups == groups_of(*data),
                last == data.count_steps,
                data.grouped_factories@.len() == last + 1,
                1 <= step <= last,
                group@ == groups[step as int],
                i <= group.len(),
                (int_map(s_val@), next_best@) == secure_fold(*t, groups, last as int, step as int, group@.take(i as int), s0, nb0),
                costs_bounded(s_val@),
                forall|kk: u32| sv0.contains_key(kk) ==> #[trigger] s_val@.contains_key(kk),
                forall|j: int| 0 <= j < i ==> s_val@.contains_key(#[trigger] group@[j]),
                step < last ==> holds_all(sv0, groups[step + 1]),
            decreases group.len() - i,
        {
            let u = group[i];
            proof {
                assert(group@.take(i + 1).drop_last() =~= group@.take(i as int));
            }
            if step == last {
                let d = get_dist(t, LocationType::Num(u), LocationType::Goal);
                s_val.insert(u, d);
                next_best.insert(u, LocationType::Goal);
                proof {
                    assert(int_map(s_val@) =~= secure_fold(*t, groups, last as int, step as int, group@.take(i + 1), s0, nb0).0);
                }
            } else {
                let nxt = &data.grouped_factories[(step + 1) as usize];
                assert(nxt@ == groups[step + 1]);
                assert(holds_all(s_val@, nxt@)) by {
                    assert forall|j: int| 0 <= j < nxt@.len() implies #[trigger] s_val@.contains_key(nxt@[j]) by {
                        assert(sv0.contains_key(nxt@[j]));
                    }
                }
                let (mv, bw) = exec_best_next(t, u, nxt, &s_val);
                s_val.insert(u, mv);
                next_best.insert(u, bw);
                proof {
                    assert(int_map(s_val@) =~= secure_fold(*t, groups, last as int, step as int, group@.take(i + 1), s0, nb0).0);
                }
            }
            i += 1;
        }
        assert(group@.take(group.len() as int) =~= group@);
        let ghost s1 = int_map(s_val@);
        let ghost r0 = int_map(r_val@);
        let ghost bk0 = backup_node@;
        assert(holds_all(s_val@, group@));
        let mut j: usize = 0;
        while j < group.len()
            invariant
                t.wf(),
                group@ == groups[step as int],
                j <= group.len(),
                holds_all(s_val@, group@),
                costs_bounded(s_val@),
                costs_bounded(r_val@),
                int_map(s_val@) == s1,
                (int_map(r_val@), backup_node@) == backup_fold(*t, group@, group@.take(j as int), s1, r0, bk0),
                forall|kk: u32| rv0.contains_key(kk) ==> #[trigger] r_val@.contains_key(kk),
                forall|jj: int| 0 <= jj < j ==> r_val@.contains_key(#[trigger] group@[jj]),
            decreases group.len() - j,
        {
            let v = group[j];
            let (mr, bb) = exec_best_backup(t, v, group, &s_val);
            r_val.insert(v, mr);
            backup_node.insert(v, bb);
            proof {
                assert(group@.take(j + 1).drop_last() =~= group@.take(j as int));
                assert(int_map(r_val@) =~= backup_fold(*t, group@, group@.take(j + 1), s1, r0, bk0).0);
            }
            j += 1;
        }
        proof {
            assert(backward(*t, groups, last as int, step as int) == (s1, next_best@, int_map(r_val@), backup_node@));
            assert forall|k: int, ii: int|
                step - 1 < k <= last && 0 <= ii < groups[k].len() implies s_val@.contains_key(#[trigger] groups[k][ii])
                    && r_val@.contains_key(groups[k][ii]) by {
                if k == step {
                    assert(group@[ii] == groups[k][ii]);
                } else {
                    assert(sv0.contains_key(groups[k][ii]));
                    assert(rv0.contains_key(groups[k][ii]));
                }
            }
        }
        step -= 1;
    }
    SecureValues { s_val, next_best, r_val, backup_node }
}

/// The arrival cost recorded for a place: 0 for the start, the recorded value for
/// a factory, none otherwise.
pub open spec fn a_of(a: Map<u32, int>, l: LocationType) -> Option<int> {
    match l {
        LocationType::Start => Some(0),
        LocationType::Num(u) => if a.contains_key(u) {
            Some(a[u])
        } else {
            None
        },
        LocationType::Goal => None,
    }
}

/// The places a factory of step `k` can be reached from: the start for the first
/// step, the factories of step `k - 1` otherwise.
pub open spec fn prevs_of(groups: Seq<Seq<u32>>, k: int) -> Seq<LocationType> {
    if k == 1 {
        seq![LocationType::Start]
    } else {
        groups[k - 1].map_values(|u: u32| LocationType::Num(u))
    }
}

/// Cheapest arrival at factory `v` from one of `prevs` with an arrival cost, among
/// those from which arrival plus the fallback cost `rv` of `v` stays within
/// `max_time`: starting from (`INF`, start), the first strictly cheaper one.
pub open spec fn best_prev(t: DistanceTable, max_time: int, v: u32, prevs: Seq<LocationType>, a: Map<u32, int>, rv: int) -> (int, LocationType)
    decreases prevs.len(),
{
    if prevs.len() == 0 {
        (INF as int, LocationType::Start)
    } else {
        let prev = best_prev(t, max_time, v, prevs.drop_last(), a, rv);
        let ul = prevs.last();
        match a_of(a, ul) {
            Some(au) => {
                let d = table_dist(t, ul, LocationType::Num(v));
                if au + d + rv <= max_time && au + d < prev.0 {
                    (au + d, ul)
                } else {
                    prev
                }
            },
            None => prev,
        }
    }
}

/// Arrival costs (`a`) and predecessors (`p`) of the factories of `ws`, in order, for
/// step `k`; a factory gets them only when its best arrival is below `INF`.
pub open spec fn forward_fold(
    t: DistanceTable,
    groups: Seq<Seq<u32>>,
    max_time: int,
    r: Map<u32, int>,
    k: int,
    ws: Seq<u32>,
    a: Map<u32, int>,
    p: Map<u32, LocationType>,
) -> (Map<u32, int>, Map<u32, LocationType>)
    decreases ws.len(),
{
    if ws.len() == 0 {
        (a, p)
    } else {
        let prev = forward_fold(t, groups, max_time, r, k, ws.drop_last(), a, p);
        let v = ws.last();
        let b = best_prev(t, max_time, v, prevs_of(groups, k), prev.0, r[v]);
        if b.0 < INF {
            (prev.0.insert(v, b.0), prev.1.insert(v, b.1))
        } else {
            prev
        }
    }
}

/// Arrival costs and predecessors after the steps `1 ..= k`.
pub open spec fn forward(t: DistanceTable, groups: Seq<Seq<u32>>, max_time: int, r: Map<u32, int>, k: int) -> (
    Map<u32, int>,
    Map<u32, LocationType>,
)
    decreases k,
{
    if k <= 0 {
        (Map::empty(), Map::empty())
    } else {
        let st = forward(t, groups, max_time, r, k - 1);
        forward_fold(t, groups, max_time, r, k, groups[k], st.0, st.1)
    }
}

/// The cheapest way to the goal from a factory of `ws` with an arrival cost:
/// starting from (`INF`, start), the first strictly cheaper one.
pub open spec fn best_final(t: DistanceTable, ws: Seq<u32>, a: Map<u32, int>) -> (int, LocationType)
    decreases ws.len(),
{
    if ws.len() == 0 {
        (INF as int, LocationType::Start)
    } else {
        let prev = best_final(t, ws.drop_last(), a);
        let lv = ws.last();
        if a.contains_key(lv) {
            let d = table_dist(t, LocationType::Num(lv), LocationType::Goal);
            if a[lv] + d < prev.0 {
                (a[lv] + d, LocationType::Num(lv))
            } else {
                prev
            }
        } else {
            prev
        }
    }
}

/// Every arrival cost lies in `0 .. INF`.
pub open spec fn arrivals_bounded(m: Map<u32, i64>) -> bool {
    forall|k: u32| #[trigger] m.contains_key(k) ==> 0 <= m[k] < INF
}

fn a_lookup(a: &HashMap<u32, i64>, l: LocationType) -> (r: Option<i64>)
    ensures
        match r {
            Some(x) => a_of(int_map(a@), l) == Some(x as int),
            None => a_of(int_map(a@), l) is None,
        },
{
    match l {
        LocationType::Start => Some(0),
        LocationType::Num(u) => map_get(a, u),
        LocationType::Goal => None,
    }
}

fn exec_best_prev(
    t: &DistanceTable,
    max_time: u32,
    v: u32,
    prevs: &Vec<LocationType>,
    a: &HashMap<u32, i64>,
    rv: i64,
) -> (r: (i64, LocationType))
    requires
        t.wf(),
        arrivals_bounded(a@),
        0 <= rv <= i32::MAX,
    ensures
        (r.0 as int, r.1) == best_prev(*t, max_time as int, v, prevs@, int_map(a@), rv as int),
        0 <= r.0 <= INF,
{
    let mut ba: i64 = INF;
    let mut bp = LocationType::Start;
    let mut i: usize = 0;
    while i < prevs.len()
        invariant
            t.wf(),
            arrivals_bounded(a@),
            0 <= rv <= i32::MAX,
            i <= prevs.len(),
            (ba as int, bp) == best_prev(*t, max_time as int, v, prevs@.take(i as int), int_map(a@), rv as int),
            0 <= ba <= INF,
        decreases prevs.len() - i,
    {
        let ul = prevs[i];
        proof {
            assert(prevs@.take(i + 1).drop_last() =~= prevs@.take(i as int));
        }
        match a_lookup(a, ul) {
            Some(au) => {
                proof {
                    if let LocationType::Num(u) = ul {
                        assert(a@.contains_key(u));
                    }
                }
                let d = get_dist(t, ul, LocationType::Num(v));
                if au + d + rv <= max_time as i64 && au + d < ba {
                    ba = au + d;
                    bp = ul;
                }
            },
            None => {},
        }
        i += 1;
    }
    assert(prevs@.take(prevs.len() as int) =~= prevs@);
    (ba, bp)
}

/// The forward pass over the steps, first step first: for each factory the cheapest
/// arrival from a factory of the step before (or the start) such that the fallback
/// through its own step still keeps within the time limit, and where it came from.
pub fn forward_pass(data: &ProblemData, t: &DistanceTable, sv: &SecureValues) -> (res: (HashMap<u32, i64>, HashMap<u32, LocationType>))
    requires
        t.wf(),
        data.grouped_factories@.len() == data.count_steps + 1,
        costs_bounded(sv.r_val@),
        forall|k: int, i: int|
            1 <= k <= data.count_steps && 0 <= i < groups_of(*data)[k].len() ==> sv.r_val@.contains_key(
                #[trigger] groups_of(*data)[k][i],
            ),
    ensures
        (int_map(res.0@), res.1@) == forward(
            *t,
            groups_of(*data),
            data.max_time as int,
            int_map(sv.r_val@),
            data.count_steps as int,
        ),
        arrivals_bounded(res.0@),
{
    let ghost groups = groups_of(*data);
    let ghost rmap = int_map(sv.r_val@);
    let last = data.count_steps;
    let mut a_val: HashMap<u32, i64> = HashMap::new();
    let mut prev_secure: HashMap<u32, LocationType> = HashMap::new();
    proof {
        assert(int_map(a_val@) =~= Map::empty());
    }
    let mut step: u64 = 1;
    while step <= last as u64
        invariant
            t.wf(),
            groups == groups_of(*data),
            rmap == int_map(sv.r_val@),
            last == data.count_steps,
            data.grouped_factories@.len() == last + 1,
            1 <= step <= last + 1,
            costs_bounded(sv.r_val@),
            forall|k: int, i: int|
                1 <= k <= last && 0 <= i < groups[k].len() ==> sv.r_val@.contains_key(#[trigger] groups[k][i]),
            (int_map(a_val@), prev_secure@) == forward(*t, groups, data.max_time as int, rmap, step - 1),
            arrivals_bounded(a_val@),
        decreases last + 1 - step,
    {
        let group = &data.grouped_factories[step as usize];
        assert(group@ == groups[step as int]);
        let mut prevs: Vec<LocationType> = Vec::new();
        if step == 1 {
            prevs.push(LocationType::Start);
            assert(prevs@ =~= prevs_of(groups, 1));
        } else {
            let before = &data.grouped_factories[(step - 1) as usize];
            assert(before@ == groups[step - 1]);
            let mut q: usize = 0;
            while q < before.len()
                invariant
                    q <= before.len(),
                    prevs@ == before@.take(q as int).map_values(|u: u32| LocationType::Num(u)),
                decreases before.len() - q,
            {
                prevs.push(LocationType::Num(before[q]));
                q += 1;
                assert(prevs@ =~= before@.take(q as int).map_values(|u: u32| LocationType::Num(u)));
            }
            assert(before@.take(before.len() as int) =~= before@);
            assert(prevs@ =~= prevs_of(groups, step as int));
        }
        let ghost a0 = int_map(a_val@);
        let ghost p0 = prev_secure@;
        let mut i: usize = 0;
        while i < group.len()
            invariant
                t.wf(),
                group@ == groups[step as int],
                prevs@ == prevs_of(groups, step as int),
                rmap == int_map(sv.r_val@),
                costs_bounded(sv.r_val@),
                forall|ii: int| 0 <= ii < group@.len() ==> sv.r_val@.contains_key(#[trigger] group@[ii]),
                i <= group.len(),
                (int_map(a_val@), prev_secure@) == forward_fold(
                    *t,
                    groups,
                    data.max_time as int,
                    rmap,
                    step as int,
                    group@.take(i as int),
                    a0,
                    p0,
                ),
                arrivals_bounded(a_val@),
            decreases group.len() - i,
        {
            let v = group[i];
            assert(sv.r_val@.contains_key(group@[i as int]));
            let rv = map_get(&sv.r_val, v).unwrap();
            let (ba, bp) = exec_best_prev(t, data.max_time, v, &prevs, &a_val, rv);
            proof {
                assert(group@.take(i + 1).drop_last() =~= group@.take(i as int));
                assert(rmap[v] == rv as int);
            }
            let ghost a_before = a_val@;
            if ba < INF {
                a_val.insert(v, ba);
                prev_secure.insert(v, bp);
                proof {
                    assert(int_map(a_val@) =~= int_map(a_before).insert(v, ba as int));
                }
            }
            i += 1;
        }
        proof {
            assert(group@.take(group.len() as int) =~= group@);
        }
        step += 1;
    }
    (a_val, prev_secure)
}

/// A best arrival below `INF` comes from one of `prevs` that has an arrival cost, and
/// it keeps within the time limit together with the fallback cost.
pub proof fn lemma_best_prev_source(t: DistanceTable, max_time: int, v: u32, prevs: Seq<LocationType>, a: Map<u32, int>, rv: int)
    ensures
        ({
            let b = best_prev(t, max_time, v, prevs, a, rv);
            b.0 < INF ==> prevs.contains(b.1) && a_of(a, b.1) is Some && b.0 == a_of(a, b.1)->0 + table_dist(
                t,
                b.1,
                LocationType::Num(v),
            ) && b.0 + rv <= max_time
        }),
    decreases prevs.len(),
{
    if prevs.len() > 0 {
        lemma_best_prev_source(t, max_time, v, prevs.drop_last(), a, rv);
        let b = best_prev(t, max_time, v, prevs, a, rv);
        let pb = best_prev(t, max_time, v, prevs.drop_last(), a, rv);
        if b.0 < INF {
            if b == pb {
                let j = choose|j: int| 0 <= j < prevs.drop_last().len() && prevs.drop_last()[j] == pb.1;
                assert(prevs[j] == pb.1);
            } else {
                assert(prevs[prevs.len() - 1] == b.1);
            }
        }
    }
}

/// `l` may precede a factory of step `j`: the start for the first step, otherwise a
/// factory of step `j - 1` that has an arrival cost.
pub open spec fn prev_ok(groups: Seq<Seq<u32>>, a: Map<u32, int>, l: LocationType, j: int) -> bool {
    ||| (j == 1 && l == LocationType::Start)
    ||| (j >= 2 && exists|i: int|
        0 <= i < groups[j - 1].len() && l == LocationType::Num(#[trigger] groups[j - 1][i]) && a.contains_key(
            groups[j - 1][i],
        ))
}

/// The arrival maps cover the same factories, each of some step in `1 ..= k` and
/// recorded with a predecessor it may have.
pub open spec fn forward_ok(groups: Seq<Seq<u32>>, a: Map<u32, int>, p: Map<u32, LocationType>, k: int) -> bool {
    &&& a.dom() == p.dom()
    &&& forall|v: u32|
        #[trigger] a.contains_key(v) ==> exists|j: int, i: int|
            1 <= j <= k && 0 <= i < groups[j].len() && groups[j][i] == v && prev_ok(groups, a, p[v], j)
}

proof fn lemma_prev_ok_grow(groups: Seq<Seq<u32>>, a: Map<u32, int>, b: Map<u32, int>, l: LocationType, j: int)
    requires
        prev_ok(groups, a, l, j),
        forall|u: u32| a.contains_key(u) ==> #[trigger] b.contains_key(u),
    ensures
        prev_ok(groups, b, l, j),
{
    if j >= 2 {
        let i = choose|i: int|
            0 <= i < groups[j - 1].len() && l == LocationType::Num(#[trigger] groups[j - 1][i]) && a.contains_key(
                groups[j - 1][i],
            );
        assert(b.contains_key(groups[j - 1][i]));
    }
}

proof fn lemma_forward_fold_ok(
    t: DistanceTable,
    groups: Seq<Seq<u32>>,
    max_time: int,
    r: Map<u32, int>,
    k: int,
    n: int,
    a: Map<u32, int>,
    p: Map<u32, LocationType>,
)
    requires
        1 <= k < groups.len(),
        0 <= n <= groups[k].len(),
        forward_ok(groups, a, p, k),
    ensures
        forward_ok(
            groups,
            forward_fold(t, groups, max_time, r, k, groups[k].take(n), a, p).0,
            forward_fold(t, groups, max_time, r, k, groups[k].take(n), a, p).1,
            k,
        ),
        forall|u: u32| a.contains_key(u) ==> #[trigger] forward_fold(t, groups, max_time, r, k, groups[k].take(n), a, p).0.contains_key(u),
    decreases n,
{
    let ws = groups[k].take(n);
    if n > 0 {
        assert(ws.drop_last() =~= groups[k].take(n - 1));
        lemma_forward_fold_ok(t, groups, max_time, r, k, n - 1, a, p);
        let prev = forward_fold(t, groups, max_time, r, k, ws.drop_last(), a, p);
        let v = ws.last();
        let b = best_prev(t, max_time, v, prevs_of(groups, k), prev.0, r[v]);
        if b.0 < INF {
            lemma_best_prev_source(t, max_time, v, prevs_of(groups, k), prev.0, r[v]);
            let na = prev.0.insert(v, b.0);
            let np = prev.1.insert(v, b.1);
            assert(na.dom() =~= np.dom());
            assert(prev_ok(groups, na, b.1, k)) by {
                if k >= 2 {
                    let j = choose|j: int| 0 <= j < prevs_of(groups, k).len() && prevs_of(groups, k)[j] == b.1;
                    assert(b.1 == LocationType::Num(groups[k - 1][j]));
                    assert(prev.0.contains_key(groups[k - 1][j]));
                } else {
                    assert(prevs_of(groups, 1) == seq![LocationType::Start]);
                }
            }
            assert forall|u: u32| #[trigger] na.contains_key(u) implies exists|j: int, i: int|
                1 <= j <= k && 0 <= i < groups[j].len() && groups[j][i] == u && prev_ok(groups, na, np[u], j) by {
                if u == v {
                    assert(groups[k][n - 1] == v);
                    assert(prev_ok(groups, na, np[u], k));
                } else {
                    assert(prev.0.contains_key(u));
                    let (j, i) = choose|j: int, i: int|
                        1 <= j <= k && 0 <= i < groups[j].len() && groups[j][i] == u && prev_ok(groups, prev.0, prev.1[u], j);
                    lemma_prev_ok_grow(groups, prev.0, na, prev.1[u], j);
                    assert(np[u] == prev.1[u]);
                }
            }
        }
    } else {
        assert(ws =~= Seq::<u32>::empty());
    }
}

/// The arrival maps of the forward pass satisfy `forward_ok`.
pub proof fn lemma_forward_ok(t: DistanceTable, groups: Seq<Seq<u32>>, max_time: int, r: Map<u32, int>, k: int)
    requires
        0 <= k < groups.len(),
    ensures
        forward_ok(groups, forward(t, groups, max_time, r, k).0, forward(t, groups, max_time, r, k).1, k),
    decreases k,
{
    if k > 0 {
        lemma_forward_ok(t, groups, max_time, r, k - 1);
        let st = forward(t, groups, max_time, r, k - 1);
        assert forall|v: u32| #[trigger] st.0.contains_key(v) implies exists|j: int, i: int|
            1 <= j <= k && 0 <= i < groups[j].len() && groups[j][i] == v && prev_ok(groups, st.0, st.1[v], j) by {
            let (j, i) = choose|j: int, i: int|
                1 <= j <= k - 1 && 0 <= i < groups[j].len() && groups[j][i] == v && prev_ok(groups, st.0, st.1[v], j);
        }
        assert(groups[k].take(groups[k].len() as int) =~= groups[k]);
        lemma_forward_fold_ok(t, groups, max_time, r, k, groups[k].len() as int, st.0, st.1);
    } else {
        let st = forward(t, groups, max_time, r, k);
        assert(st.0.dom() =~= st.1.dom());
    }
}

/// The table holds, for each source, the shortest distances in the street map from
/// that source's place to every place.
pub open spec fn table_matches(t: DistanceTable, m: StreetMap) -> bool {
    &&& t.wf()
    &&& t.locs@ == m.locs@
    &&& forall|r: int| 0 <= r < t.sources@.len() ==> index_in(m.locs@, #[trigger] t.sources@[r]) >= 0
    &&& forall|r: int, k: int|
        0 <= r < t.sources@.len() && 0 <= k < t.locs@.len() ==> (#[trigger] t.rows@[r]@[k] is Some <==> reachable(
            street_edges(m.graph),
            index_in(m.locs@, t.sources@[r]),
            k,
        ))
    &&& forall|r: int, k: int|
        0 <= r < t.sources@.len() && 0 <= k < t.locs@.len() && #[trigger] t.rows@[r]@[k] is Some ==> is_shortest(
            street_edges(m.graph),
            index_in(m.locs@, t.sources@[r]),
            k,
            t.rows@[r]@[k]->0 as int,
        )
}

/// Shortest distances from each of `sources` to every place of the map, one
/// Dijkstra search per source.
pub fn all_distances(m: &StreetMap, sources: &Vec<LocationType>) -> (t: DistanceTable)
    requires
        m.wf(),
        lengths_fit(street_edges(m.graph), m.locs@.len() as int),
        forall|r: int| 0 <= r < sources@.len() ==> #[trigger] m.locs@.contains(sources@[r]),
    ensures
        table_matches(t, *m),
        t.sources@ == sources@,
{
    let mut rows: Vec<Vec<Option<i32>>> = Vec::new();
    let mut r: usize = 0;
    while r < sources.len()
        invariant
            m.wf(),
            lengths_fit(street_edges(m.graph), m.locs@.len() as int),
            forall|q: int| 0 <= q < sources@.len() ==> #[trigger] m.locs@.contains(sources@[q]),
            r <= sources.len(),
            rows@.len() == r,
            forall|q: int| 0 <= q < r ==> #[trigger] rows@[q]@.len() == m.locs@.len(),
            forall|q: int, k: int|
                0 <= q < r && 0 <= k < m.locs@.len() ==> (#[trigger] rows@[q]@[k] is Some <==> reachable(
                    street_edges(m.graph),
                    index_in(m.locs@, sources@[q]),
                    k,
                )),
            forall|q: int, k: int|
                0 <= q < r && 0 <= k < m.locs@.len() && #[trigger] rows@[q]@[k] is Some ==> is_shortest(
                    street_edges(m.graph),
                    index_in(m.locs@, sources@[q]),
                    k,
                    rows@[q]@[k]->0 as int,
                ),
        decreases sources.len() - r,
    {
        let src = sources[r];
        proof {
            crate::streets::lemma_index_in(m.locs@, src);
            assert(m.locs@.contains(sources@[r as int]));
        }
        let idx = crate::streets::find_place(&m.locs, src).unwrap();
        let row = street_distances(m, idx);
        rows.push(row);
        r += 1;
    }
    let t = DistanceTable { locs: m.locs.clone(), sources: sources.clone(), rows };
    proof {
        assert forall|q: int, k: int|
            0 <= q < t.rows@.len() && 0 <= k < t.locs@.len() && #[trigger] t.rows@[q]@[k] is Some implies t.rows@[q]@[k]->0 >= 0 by {
            crate::graphs::lemma_shortest_nonneg(
                street_edges(m.graph),
                index_in(m.locs@, sources@[q]),
                k,
                t.rows@[q]@[k]->0 as int,
            );
        }
        assert forall|q: int| 0 <= q < t.sources@.len() implies index_in(m.locs@, #[trigger] t.sources@[q]) >= 0 by {
            crate::streets::lemma_index_in(m.locs@, t.sources@[q]);
            assert(m.locs@.contains(sources@[q]));
        }
    }
    t
}

fn exec_best_final(t: &DistanceTable, ws: &Vec<u32>, a: &HashMap<u32, i64>) -> (r: (i64, LocationType))
    requires
        t.wf(),
        arrivals_bounded(a@),
    ensures
        (r.0 as int, r.1) == best_final(*t, ws@, int_map(a@)),
        0 <= r.0 <= INF,
{
    let mut fa: i64 = INF;
    let mut fp = LocationType::Start;
    let mut i: usize = 0;
    while i < ws.len()
        invariant
            t.wf(),
            arrivals_bounded(a@),
            i <= ws.len(),
            (fa as int, fp) == best_final(*t, ws@.take(i as int), int_map(a@)),
            0 <= fa <= INF,
        decreases ws.len() - i,
    {
        let lv = ws[i];
        proof {
            assert(ws@.take(i + 1).drop_last() =~= ws@.take(i as int));
        }
        match map_get(a, lv) {
            Some(av) => {
                let d = get_dist(t, LocationType::Num(lv), LocationType::Goal);
                if av + d < fa {
                    fa = av + d;
                    fp = LocationType::Num(lv);
                }
            },
            None => {},
        }
        i += 1;
    }
    assert(ws@.take(ws.len() as int) =~= ws@);
    (fa, fp)
}

/// A best way to the goal below `INF` leaves from a factory of `ws` that has an
/// arrival cost.
pub proof fn lemma_best_final_source(t: DistanceTable, ws: Seq<u32>, a: Map<u32, int>)
    ensures
        ({
            let b = best_final(t, ws, a);
            &&& b.0 < INF ==> exists|i: int|
                0 <= i < ws.len() && b.1 == LocationType::Num(#[trigger] ws[i]) && a.contains_key(ws[i])
            &&& b.0 >= INF ==> b.1 == LocationType::Start
            &&& b.0 <= INF
        }),
    decreases ws.len(),
{
    if ws.len() > 0 {
        lemma_best_final_source(t, ws.drop_last(), a);
        let b = best_final(t, ws, a);
        let pb = best_final(t, ws.drop_last(), a);
        if b.0 < INF {
            if b == pb {
                let i = choose|i: int|
                    0 <= i < ws.drop_last().len() && pb.1 == LocationType::Num(#[trigger] ws.drop_last()[i]) && a.contains_key(
                        ws.drop_last()[i],
                    );
                assert(ws[i] == ws.drop_last()[i]);
            } else {
                assert(ws[ws.len() - 1] == ws.last());
            }
        }
    }
}

/// No factory number occurs twice among the steps `1 ..`.
pub open spec fn ids_distinct(groups: Seq<Seq<u32>>) -> bool {
    forall|k1: int, i1: int, k2: int, i2: int|
        1 <= k1 < groups.len() && 1 <= k2 < groups.len() && 0 <= i1 < groups[k1].len() && 0 <= i2 < groups[k2].len()
            && #[trigger] groups[k1][i1] == #[trigger] groups[k2][i2] ==> k1 == k2 && i1 == i2
}

/// The places from `curr` back along the predecessors `p`, `curr` first, up to but
/// not including the start.
pub open spec fn back_chain(p: Map<u32, LocationType>, curr: LocationType, fuel: nat) -> Seq<LocationType>
    decreases fuel,
{
    if fuel == 0 {
        Seq::empty()
    } else {
        match curr {
            LocationType::Num(u) => seq![curr] + back_chain(p, p[u], (fuel - 1) as nat),
            _ => Seq::empty(),
        }
    }
}

/// The main route: the start, the factories back from `last_factory` in step
/// order, the goal.
pub open spec fn main_route_of(p: Map<u32, LocationType>, last_factory: LocationType, fuel: nat) -> Seq<LocationType> {
    seq![LocationType::Start] + back_chain(p, last_factory, fuel).reverse() + seq![LocationType::Goal]
}

proof fn lemma_back_chain_factories(p: Map<u32, LocationType>, curr: LocationType, fuel: nat)
    ensures
        forall|i: int| 0 <= i < back_chain(p, curr, fuel).len() ==> (#[trigger] back_chain(p, curr, fuel)[i]) is Num,
    decreases fuel,
{
    if fuel > 0 {
        if let LocationType::Num(u) = curr {
            lemma_back_chain_factories(p, p[u], (fuel - 1) as nat);
            let rest = back_chain(p, p[u], (fuel - 1) as nat);
            assert forall|i: int| 0 <= i < back_chain(p, curr, fuel).len() implies (#[trigger] back_chain(p, curr, fuel)[i]) is Num by {
                if i > 0 {
                    assert(back_chain(p, curr, fuel)[i] == rest[i - 1]);
                }
            }
        }
    }
}

/// The main route runs from the start to the goal and stops only at factories on
/// the way.
pub proof fn lemma_main_route_shape(p: Map<u32, LocationType>, last_factory: LocationType, fuel: nat)
    ensures
        ({
            let r = main_route_of(p, last_factory, fuel);
            &&& r.len() >= 2
            &&& r[0] == LocationType::Start
            &&& r.last() == LocationType::Goal
            &&& forall|i: int| 0 < i < r.len() - 1 ==> (#[trigger] r[i]) is Num
        }),
{
    lemma_back_chain_factories(p, last_factory, fuel);
    let c = back_chain(p, last_factory, fuel);
    let r = main_route_of(p, last_factory, fuel);
    assert forall|i: int| 0 < i < r.len() - 1 implies (#[trigger] r[i]) is Num by {
        assert(r[i] == c.reverse()[i - 1]);
        assert(c.reverse()[i - 1] == c[c.len() - 1 - (i - 1)]);
    }
}

/// Place `l` is a factory of step `k`.
pub open spec fn on_step(groups: Seq<Seq<u32>>, l: LocationType, k: int) -> bool {
    exists|i: int| 0 <= i < groups[k].len() && l == LocationType::Num(#[trigger] groups[k][i])
}

/// How many predecessors the main route follows at most: more than there are steps
/// and factories, so a chain that does not run in a circle ends within it.
pub open spec fn route_fuel(data: ProblemData) -> nat {
    (data.count_steps + data.factories@.len() + 1) as nat
}

/// Following the predecessors from `curr` reaches the start within `fuel` steps.
pub open spec fn reaches_start(p: Map<u32, LocationType>, curr: LocationType, fuel: nat) -> bool
    decreases fuel,
{
    match curr {
        LocationType::Num(u) => fuel > 0 && reaches_start(p, p[u], (fuel - 1) as nat),
        _ => true,
    }
}

/// With no factory in two places of the groups, the chain back from a factory of
/// step `j` takes one factory of each step `j, j - 1, ..., 1` and then reaches the
/// start.
proof fn lemma_chain_steps(groups: Seq<Seq<u32>>, a: Map<u32, int>, p: Map<u32, LocationType>, last: int, v: u32, j: int, fuel: nat)
    requires
        forward_ok(groups, a, p, last),
        ids_distinct(groups),
        groups.len() == last + 1,
        1 <= j <= last,
        on_step(groups, LocationType::Num(v), j),
        a.contains_key(v),
        fuel >= j,
    ensures
        reaches_start(p, LocationType::Num(v), fuel),
        back_chain(p, LocationType::Num(v), fuel).len() == j,
        forall|q: int| 0 <= q < j ==> #[trigger] on_step(groups, back_chain(p, LocationType::Num(v), fuel)[q], j - q),
    decreases j,
{
    let i = choose|i: int| 0 <= i < groups[j].len() && LocationType::Num(v) == LocationType::Num(#[trigger] groups[j][i]);
    let (j2, i2) = choose|j2: int, i2: int| 1 <= j2 <= last && 0 <= i2 < groups[j2].len() && groups[j2][i2] == v && prev_ok(groups, a, p[v], j2);
    assert(groups[j2][i2] == groups[j][i]);
    assert(j2 == j);
    let c = back_chain(p, LocationType::Num(v), fuel);
    if j == 1 {
        assert(p[v] == LocationType::Start);
        assert(back_chain(p, p[v], (fuel - 1) as nat) =~= Seq::<LocationType>::empty());
        assert(c =~= seq![LocationType::Num(v)]);
        assert(reaches_start(p, p[v], (fuel - 1) as nat));
    } else {
        let i3 = choose|i3: int| 0 <= i3 < groups[j - 1].len() && p[v] == LocationType::Num(#[trigger] groups[j - 1][i3]) && a.contains_key(groups[j - 1][i3]);
        let u = groups[j - 1][i3];
        assert(on_step(groups, LocationType::Num(u), j - 1));
        lemma_chain_steps(groups, a, p, last, u, j - 1, (fuel - 1) as nat);
        assert(reaches_start(p, p[v], (fuel - 1) as nat));
        let rest = back_chain(p, LocationType::Num(u), (fuel - 1) as nat);
        assert(c == seq![LocationType::Num(v)] + rest);
        assert forall|q: int| 0 <= q < j implies #[trigger] on_step(groups, c[q], j - q) by {
            if q > 0 {
                assert(c[q] == rest[q - 1]);
                assert(on_step(groups, rest[q - 1], j - 1 - (q - 1)));
            }
        }
    }
}

/// Follows the predecessors back from `last_factory` to the start, and returns the
/// route from the start through those factories to the goal; `None` when the chain
/// runs in a circle and never reaches the start.
pub fn main_route(
    data: &ProblemData,
    a: &HashMap<u32, i64>,
    p: &HashMap<u32, LocationType>,
    last_factory: LocationType,
) -> (route: Option<Vec<LocationType>>)
    requires
        data.grouped_factories@.len() == data.count_steps + 1,
        forward_ok(groups_of(*data), int_map(a@), p@, data.count_steps as int),
        last_factory != LocationType::Start ==> data.count_steps >= 1,
        last_factory == LocationType::Start || exists|i: int|
            0 <= i < groups_of(*data)[data.count_steps as int].len() && last_factory == LocationType::Num(
                #[trigger] groups_of(*data)[data.count_steps as int][i],
            ) && a@.contains_key(groups_of(*data)[data.count_steps as int][i]),
    ensures
        route is Some <==> reaches_start(p@, last_factory, route_fuel(*data)),
        ids_distinct(groups_of(*data)) ==> route is Some,
        route matches Some(r) ==> {
            &&& r@ == main_route_of(p@, last_factory, route_fuel(*data))
            &&& r@.len() >= 2
            &&& last_factory != LocationType::Start && ids_distinct(groups_of(*data)) ==> r@.len() == data.count_steps + 2
                && forall|k: int| 1 <= k <= data.count_steps ==> #[trigger] on_step(groups_of(*data), r@[k], k)
            &&& forall|q: int|
                0 <= q < r@.len() ==> match #[trigger] r@[q] {
                    LocationType::Num(v) => a@.contains_key(v) && exists|j: int, i: int|
                        1 <= j <= data.count_steps && 0 <= i < groups_of(*data)[j].len() && groups_of(*data)[j][i] == v,
                    _ => true,
                }
        },
{
    let ghost groups = groups_of(*data);
    let ghost last: int = data.count_steps as int;
    let ghost fuel: nat = route_fuel(*data);
    let limit: u128 = data.count_steps as u128 + data.factories.len() as u128 + 1;
    let mut chain: Vec<LocationType> = Vec::new();
    let mut curr = last_factory;
    let mut k: u128 = 0;
    proof {
        if last_factory != LocationType::Start {
            let i = choose|i: int|
                0 <= i < groups[last].len() && last_factory == LocationType::Num(#[trigger] groups[last][i]) && a@.contains_key(
                    groups[last][i],
                );
            let v = groups[last][i];
            assert(int_map(a@).contains_key(v));
            if ids_distinct(groups) {
                assert(on_step(groups, LocationType::Num(v), last));
                lemma_chain_steps(groups, int_map(a@), p@, last, v, last, fuel);
            }
        }
    }
    while curr != LocationType::Start
        invariant
            groups == groups_of(*data),
            last == data.count_steps,
            groups.len() == last + 1,
            fuel == route_fuel(*data),
            limit == fuel,
            k <= limit,
            chain@.len() == k,
            forward_ok(groups, int_map(a@), p@, last),
            match curr {
                LocationType::Num(v) => a@.contains_key(v),
                LocationType::Start => true,
                LocationType::Goal => false,
            },
            chain@ + back_chain(p@, curr, (fuel - k) as nat) == back_chain(p@, last_factory, fuel),
            reaches_start(p@, curr, (fuel - k) as nat) == reaches_start(p@, last_factory, fuel),
            ids_distinct(groups) ==> reaches_start(p@, last_factory, fuel),
            forall|q: int|
                0 <= q < chain@.len() ==> match #[trigger] chain@[q] {
                    LocationType::Num(v) => a@.contains_key(v) && exists|jj: int, ii: int|
                        1 <= jj <= last && 0 <= ii < groups[jj].len() && groups[jj][ii] == v,
                    _ => true,
                },
        decreases limit - k,
    {
        let v = match curr {
            LocationType::Num(v) => v,
            _ => {
                proof {
                    assert(false);
                }
                0
            },
        };
        if k == limit {
            assert(!reaches_start(p@, curr, 0));
            return None;
        }
        let ghost f = (fuel - k) as nat;
        let ghost old_chain = chain@;
        chain.push(curr);
        proof {
            assert(int_map(a@).contains_key(v));
            assert(p@.contains_key(v));
        }
        let next = map_get(p, v).unwrap();
        proof {
            assert(back_chain(p@, curr, f) == seq![curr] + back_chain(p@, next, (f - 1) as nat));
            assert(chain@ + back_chain(p@, next, (fuel - chain@.len()) as nat) =~= old_chain + back_chain(p@, curr, f));
            let (j2, i2) = choose|j2: int, i2: int|
                1 <= j2 <= last && 0 <= i2 < groups[j2].len() && groups[j2][i2] == v && prev_ok(groups, int_map(a@), p@[v], j2);
            if j2 >= 2 {
                let i3 = choose|i3: int|
                    0 <= i3 < groups[j2 - 1].len() && next == LocationType::Num(#[trigger] groups[j2 - 1][i3])
                        && int_map(a@).contains_key(groups[j2 - 1][i3]);
                assert(a@.contains_key(groups[j2 - 1][i3]));
            }
            assert forall|q: int| 0 <= q < chain@.len() implies match #[trigger] chain@[q] {
                LocationType::Num(w) => a@.contains_key(w) && exists|jj: int, ii: int|
                    1 <= jj <= last && 0 <= ii < groups[jj].len() && groups[jj][ii] == w,
                _ => true,
            } by {
                if q < old_chain.len() {
                    assert(chain@[q] == old_chain[q]);
                } else {
                    assert(chain@[q] == curr);
                    assert(groups[j2][i2] == v);
                }
            }
        }
        k += 1;
        curr = next;
    }
    let mut route: Vec<LocationType> = Vec::new();
    route.push(LocationType::Start);
    let n = chain.len();
    let mut q: usize = 0;
    while q < n
        invariant
            n == chain.len(),
            q <= n,
            route@ == seq![LocationType::Start] + chain@.reverse().take(q as int),
        decreases n - q,
    {
        route.push(chain[n - 1 - q]);
        q += 1;
        assert(route@ =~= seq![LocationType::Start] + chain@.reverse().take(q as int));
    }
    route.push(LocationType::Goal);
    proof {
        assert(chain@.reverse().take(n as int) =~= chain@.reverse());
        assert forall|q: int| 0 <= q < route@.len() implies match #[trigger] route@[q] {
            LocationType::Num(v) => a@.contains_key(v) && exists|jj: int, ii: int|
                1 <= jj <= data.count_steps && 0 <= ii < groups_of(*data)[jj].len() && groups_of(*data)[jj][ii] == v,
            _ => true,
        } by {
            if 1 <= q < route@.len() - 1 {
                assert(route@[q] == chain@[n - q]);
            }
        }
        assert(back_chain(p@, LocationType::Start, (fuel - chain@.len()) as nat) =~= Seq::<LocationType>::empty());
        assert(chain@ =~= back_chain(p@, last_factory, fuel));
        assert(route@ =~= main_route_of(p@, last_factory, fuel));
        if last_factory != LocationType::Start && ids_distinct(groups) {
            let i = choose|i: int|
                0 <= i < groups[last].len() && last_factory == LocationType::Num(#[trigger] groups[last][i]) && a@.contains_key(
                    groups[last][i],
                );
            let v = groups[last][i];
            assert(on_step(groups, LocationType::Num(v), last));
            lemma_chain_steps(groups, int_map(a@), p@, last, v, last, fuel);
            assert forall|kk: int| 1 <= kk <= data.count_steps implies #[trigger] on_step(groups_of(*data), route@[kk], kk) by {
                assert(route@[kk] == chain@[n - kk]);
                assert(on_step(groups, chain@[n - kk], last - (n - kk)));
            }
        }
    }
    Some(route)
}

/// The step shown for a place: that of its factory, if it is one.
pub open spec fn step_shown(fts: Map<u32, u32>, l: LocationType) -> Option<u32> {
    match l {
        LocationType::Num(id) => if fts.contains_key(id) {
            Some(fts[id])
        } else {
            None
        },
        _ => None,
    }
}

/// The places A* passes on the way from `c` to `t`, after `c`; none when `t` cannot
/// be reached.
pub open spec fn leg_nodes(m: StreetMap, c: LocationType, t: LocationType) -> Seq<LocationType> {
    match astar_street_route(
        street_nodes(m.graph).len(),
        street_edges(m.graph),
        index_in(m.locs@, c),
        index_in(m.locs@, t),
    ) {
        Some(ps) => ps.drop_first().map_values(|i: int| m.locs@[i]),
        None => Seq::empty(),
    }
}

/// The detour from `c`: a shortest walk to `t`; then, from the place reached, on to
/// its next place (`nb`) until the goal is reached. Each place passed comes with the
/// step shown for it: `cstep` (later the step of the current target) where it is the
/// target and the target is not the goal. `None` where a place is not in the network,
/// a factory has no next place, or `fuel` legs do not reach the goal.
pub open spec fn detour(
    m: StreetMap,
    nb: Map<u32, LocationType>,
    fts: Map<u32, u32>,
    c: LocationType,
    t: LocationType,
    cstep: Option<u32>,
    fuel: nat,
) -> Option<(Seq<LocationType>, Seq<Option<u32>>)>
    decreases fuel,
{
    if fuel == 0 || index_in(m.locs@, c) < 0 || index_in(m.locs@, t) < 0 {
        None
    } else {
        let nodes = leg_nodes(m, c, t);
        let steps = nodes.map_values(|loc: LocationType| if loc == t && t != LocationType::Goal { cstep } else { None });
        let c2 = if nodes.len() > 0 { nodes.last() } else { c };
        if c2 == LocationType::Goal {
            Some((nodes, steps))
        } else {
            let next = match c2 {
                LocationType::Num(cid) => if nb.contains_key(cid) {
                    let t2 = nb[cid];
                    let s2 = match t2 {
                        LocationType::Num(tid) => step_shown(fts, t2),
                        _ => cstep,
                    };
                    Some((t2, s2))
                } else {
                    None
                },
                _ => Some((LocationType::Goal, cstep)),
            };
            match next {
                None => None,
                Some((t2, s2)) => match detour(m, nb, fts, c2, t2, s2, (fuel - 1) as nat) {
                    Some((ns, ss)) => Some((nodes + ns, steps + ss)),
                    None => None,
                },
            }
        }
    }
}

/// The detour from `c` to `t`, and on along the next places `nb`, reaches the goal
/// within `fuel` legs, each between places of the network that streets join.
pub open spec fn detour_ok(m: StreetMap, nb: Map<u32, LocationType>, c: LocationType, t: LocationType, fuel: nat) -> bool
    decreases fuel,
{
    &&& fuel > 0
    &&& index_in(m.locs@, c) >= 0
    &&& index_in(m.locs@, t) >= 0
    &&& reachable(street_edges(m.graph), index_in(m.locs@, c), index_in(m.locs@, t))
    &&& match t {
        LocationType::Goal => true,
        LocationType::Num(tid) => nb.contains_key(tid) && detour_ok(m, nb, t, nb[tid], (fuel - 1) as nat),
        LocationType::Start => detour_ok(m, nb, t, LocationType::Goal, (fuel - 1) as nat),
    }
}

/// Once the lines of a prefix of the route fail, those of every longer prefix fail.
pub proof fn lemma_factory_lines_none(
    data: ProblemData,
    m: StreetMap,
    t: DistanceTable,
    route: Seq<LocationType>,
    k: int,
    whole: Seq<LocationType>,
    bw: (Map<u32, int>, Map<u32, LocationType>, Map<u32, int>, Map<u32, u32>),
    a: Map<u32, int>,
)
    requires
        0 <= k <= route.len(),
        factory_lines(data, m, t, route.take(k), whole, bw, a) is None,
    ensures
        forall|k2: int| k <= k2 <= route.len() ==> #[trigger] factory_lines(data, m, t, route.take(k2), whole, bw, a) is None,
    decreases route.len() - k,
{
    if k < route.len() {
        assert(route.take(k + 1).drop_last() =~= route.take(k));
        lemma_factory_lines_none(data, m, t, route, k + 1, whole, bw, a);
    }
}

/// A detour lists as many steps as places.
pub proof fn lemma_detour_lengths(
    m: StreetMap,
    nb: Map<u32, LocationType>,
    fts: Map<u32, u32>,
    c: LocationType,
    t: LocationType,
    cstep: Option<u32>,
    fuel: nat,
)
    ensures
        match detour(m, nb, fts, c, t, cstep, fuel) {
            Some((ns, ss)) => ns.len() == ss.len(),
            None => true,
        },
    decreases fuel,
{
    if fuel > 0 && index_in(m.locs@, c) >= 0 && index_in(m.locs@, t) >= 0 {
        let nodes = leg_nodes(m, c, t);
        let c2 = if nodes.len() > 0 { nodes.last() } else { c };
        if c2 != LocationType::Goal {
            match c2 {
                LocationType::Num(cid) => {
                    if nb.contains_key(cid) {
                        let t2 = nb[cid];
                        let s2 = match t2 {
                            LocationType::Num(tid) => step_shown(fts, t2),
                            _ => cstep,
                        };
                        lemma_detour_lengths(m, nb, fts, c2, t2, s2, (fuel - 1) as nat);
                    }
                },
                _ => {
                    lemma_detour_lengths(m, nb, fts, c2, LocationType::Goal, cstep, (fuel - 1) as nat);
                },
            }
        }
    }
}

/// The places of one A* leg, after its start.
fn exec_leg(m: &StreetMap, ci: usize, ti: usize) -> (nodes: Vec<LocationType>)
    requires
        m.wf(),
        lengths_fit(street_edges(m.graph), m.locs@.len() as int),
        ci < m.locs@.len(),
        ti < m.locs@.len(),
    ensures
        nodes@ == match astar_street_route(street_nodes(m.graph).len(), street_edges(m.graph), ci as int, ti as int) {
            Some(ps) => ps.drop_first().map_values(|i: int| m.locs@[i]),
            None => Seq::empty(),
        },
        reachable(street_edges(m.graph), ci as int, ti as int) ==> (nodes@.len() == 0 ==> ci == ti) && (nodes@.len() > 0
            ==> nodes@.last() == m.locs@[ti as int]),
{
    let mut nodes: Vec<LocationType> = Vec::new();
    match street_route(&m.graph, ci, ti) {
        None => {
            assert(nodes@ =~= Seq::<LocationType>::empty());
        },
        Some(path) => {
            let ghost ps = ints(path@);
            proof {
                let hops = choose|hops: Seq<int>| #[trigger] crate::graphs::is_walk(street_edges(m.graph), ps, hops, ci as int, ti as int);
                crate::graphs::lemma_walk_in_range(street_edges(m.graph), m.locs@.len() as int, ps, hops, ci as int, ti as int);
            }
            let mut q: usize = 1;
            while q < path.len()
                invariant
                    m.wf(),
                    ps == ints(path@),
                    path@.len() >= 1,
                    1 <= q <= path.len(),
                    forall|i: int| 0 <= i < ps.len() ==> 0 <= #[trigger] ps[i] < m.locs@.len(),
                    nodes@ == ps.drop_first().take(q - 1).map_values(|i: int| m.locs@[i]),
                decreases path.len() - q,
            {
                assert(ps[q as int] == path@[q as int] as int);
                let loc = street_node(&m.graph, path[q]);
                nodes.push(loc);
                q += 1;
                assert(nodes@ =~= ps.drop_first().take(q - 1).map_values(|i: int| m.locs@[i]));
            }
            assert(ps.drop_first().take(path.len() - 1) =~= ps.drop_first());
            proof {
                let hops = choose|hops: Seq<int>| #[trigger] crate::graphs::is_walk(street_edges(m.graph), ps, hops, ci as int, ti as int);
                if nodes@.len() > 0 {
                    assert(nodes@.last() == m.locs@[ps.drop_first()[nodes@.len() - 1]]);
                    assert(ps.drop_first()[nodes@.len() - 1] == ps.last());
                } else {
                    assert(ps.len() == 1);
                }
            }
        },
    }
    nodes
}

/// The detour of `detour`, computed leg by leg.
#[verifier::spinoff_prover]
#[verifier::rlimit(40)]
fn exec_detour(
    m: &StreetMap,
    nb: &HashMap<u32, LocationType>,
    fts: &HashMap<u32, u32>,
    c: LocationType,
    t: LocationType,
    cstep: Option<u32>,
    fuel: u64,
) -> (r: Option<(Vec<LocationType>, Vec<Option<u32>>)>)
    requires
        m.wf(),
        lengths_fit(street_edges(m.graph), m.locs@.len() as int),
    ensures
        match r {
            Some((ns, ss)) => detour(*m, nb@, fts@, c, t, cstep, fuel as nat) == Some((ns@, ss@)),
            None => detour(*m, nb@, fts@, c, t, cstep, fuel as nat) is None,
        },
        detour_ok(*m, nb@, c, t, fuel as nat) ==> r is Some,
    decreases fuel,
{
    if fuel == 0 {
        return None;
    }
    let ci = match crate::streets::find_place(&m.locs, c) {
        Some(i) => i,
        None => return None,
    };
    let ti = match crate::streets::find_place(&m.locs, t) {
        Some(i) => i,
        None => return None,
    };
    proof {
        crate::streets::lemma_index_in(m.locs@, c);
        crate::streets::lemma_index_in(m.locs@, t);
    }
    let nodes = exec_leg(m, ci, ti);
    let mut steps: Vec<Option<u32>> = Vec::new();
    let mut q: usize = 0;
    while q < nodes.len()
        invariant
            q <= nodes.len(),
            steps@ == nodes@.take(q as int).map_values(
                |loc: LocationType| if loc == t && t != LocationType::Goal { cstep } else { None },
            ),
        decreases nodes.len() - q,
    {
        let loc = nodes[q];
        if loc == t && t != LocationType::Goal {
            steps.push(cstep);
        } else {
            steps.push(None);
        }
        q += 1;
        assert(steps@ =~= nodes@.take(q as int).map_values(
            |loc: LocationType| if loc == t && t != LocationType::Goal { cstep } else { None },
        ));
    }
    assert(nodes@.take(nodes.len() as int) =~= nodes@);
    assert(nodes@ == leg_nodes(*m, c, t));
    let c2 = if nodes.len() > 0 { nodes[nodes.len() - 1] } else { c };
    proof {
        if detour_ok(*m, nb@, c, t, fuel as nat) {
            assert(c2 == t);
        }
    }
    if c2 == LocationType::Goal {
        return Some((nodes, steps));
    }
    let (t2, s2) = match c2 {
        LocationType::Num(cid) => match map_get_loc(nb, cid) {
            Some(t2) => {
                let s2 = match t2 {
                    LocationType::Num(tid) => map_get(fts, tid),
                    _ => cstep,
                };
                (t2, s2)
            },
            None => return None,
        },
        _ => (LocationType::Goal, cstep),
    };
    match exec_detour(m, nb, fts, c2, t2, s2, fuel - 1) {
        Some((ns, ss)) => {
            let mut all_nodes = nodes;
            let mut all_steps = steps;
            let ghost n0 = all_nodes@;
            let ghost s0 = all_steps@;
            let mut k: usize = 0;
            while k < ns.len()
                invariant
                    k <= ns.len(),
                    all_nodes@ == n0 + ns@.take(k as int),
                decreases ns.len() - k,
            {
                all_nodes.push(ns[k]);
                k += 1;
                assert(all_nodes@ =~= n0 + ns@.take(k as int));
            }
            let mut k2: usize = 0;
            while k2 < ss.len()
                invariant
                    k2 <= ss.len(),
                    all_steps@ == s0 + ss@.take(k2 as int),
                decreases ss.len() - k2,
            {
                all_steps.push(ss[k2]);
                k2 += 1;
                assert(all_steps@ =~= s0 + ss@.take(k2 as int));
            }
            assert(ns@.take(ns.len() as int) =~= ns@);
            assert(ss@.take(ss.len() as int) =~= ss@);
            Some((all_nodes, all_steps))
        },
        None => None,
    }
}

/// Reads a value of a map of places keyed by factory number.
fn map_get_loc(m: &HashMap<u32, LocationType>, k: u32) -> (r: Option<LocationType>)
    ensures
        r == (if m@.contains_key(k) { Some(m@[k]) } else { None::<LocationType> }),
{
    map_get(m, k)
}

/// Words joined by single spaces.
pub open spec fn join_words(ws: Seq<Seq<char>>) -> Seq<char>
    decreases ws.len(),
{
    if ws.len() == 0 {
        Seq::empty()
    } else if ws.len() == 1 {
        ws[0]
    } else {
        join_words(ws.drop_last()) + seq![' '] + ws.last()
    }
}

/// The places of the network that the task describes, by node index.
pub open spec fn task_places(data: ProblemData) -> Seq<LocationType> {
    crate::streets::street_places(data.streets@)
}

/// The streets of the task as edges between place indices.
pub open spec fn task_edges(data: ProblemData) -> Seq<(int, int, int)> {
    crate::streets::street_list(data.streets@, task_places(data))
}

/// The places distances are needed from: the start, then each factory in input order.
pub open spec fn task_sources(data: ProblemData) -> Seq<LocationType> {
    seq![LocationType::Start] + data.factories@.map_values(|f: (u32, u32)| LocationType::Num(f.0))
}

/// The printed form of a place on a route.
pub open spec fn place_text(fts: Map<u32, u32>, l: LocationType) -> Seq<char> {
    location_text(l, step_shown(fts, l))
}

/// The time at which a factory of the main route is reached: from the start for the
/// first one, its arrival cost otherwise.
pub open spec fn reach_time(t: DistanceTable, route: Seq<LocationType>, a: Map<u32, int>, id: u32) -> int {
    if route.len() > 1 && LocationType::Num(id) == route[1] {
        table_dist(t, LocationType::Start, LocationType::Num(id))
    } else {
        a[id]
    }
}

/// The longest of `start` and the times through the fallbacks of the factories of
/// `route`.
pub open spec fn max_duration(t: DistanceTable, route: Seq<LocationType>, whole: Seq<LocationType>, a: Map<u32, int>, r: Map<u32, int>, start: int) -> int
    decreases route.len(),
{
    if route.len() == 0 {
        start
    } else {
        let m = max_duration(t, route.drop_last(), whole, a, r, start);
        match route.last() {
            LocationType::Num(id) => {
                let x = reach_time(t, whole, a, id) + r[id];
                if m >= x { m } else { x }
            },
            _ => m,
        }
    }
}

/// The two lines printed for each factory of the main route: the time through its
/// fallback, and the detour (the factory, then the places passed); `None` when a
/// detour does not reach the goal.
pub open spec fn factory_lines(
    data: ProblemData,
    m: StreetMap,
    t: DistanceTable,
    route: Seq<LocationType>,
    whole: Seq<LocationType>,
    bw: (Map<u32, int>, Map<u32, LocationType>, Map<u32, int>, Map<u32, u32>),
    a: Map<u32, int>,
) -> Option<Seq<Seq<char>>>
    decreases route.len(),
{
    if route.len() == 0 {
        Some(Seq::empty())
    } else {
        match factory_lines(data, m, t, route.drop_last(), whole, bw, a) {
            None => None,
            Some(prev) => match route.last() {
                LocationType::Num(id) => {
                    let fts = data.factory_to_step@;
                    let back = if bw.3.contains_key(id) { LocationType::Num(bw.3[id]) } else { LocationType::Goal };
                    match detour(m, bw.1, fts, LocationType::Num(id), back, step_shown(fts, LocationType::Num(id)), (data.count_steps + 2) as nat) {
                        Some((ns, ss)) if bw.3.contains_key(id) => {
                            let words = seq![decimal(id as nat)] + Seq::new(ns.len(), |i: int| location_text(ns[i], ss[i]));
                            Some(prev + seq![decimal((reach_time(t, whole, a, id) + bw.2[id]) as nat), join_words(words)])
                        },
                        _ => None,
                    }
                },
                _ => Some(prev),
            },
        }
    }
}

/// The main route of a task: from the start through one factory of each step to the
/// goal, as the forward pass chose it; empty when the goal cannot be reached in time.
pub open spec fn plan_route(data: ProblemData, t: DistanceTable) -> Seq<LocationType> {
    let groups = groups_of(data);
    let last = data.count_steps as int;
    let bw = backward(t, groups, last, 1);
    let fw = forward(t, groups, data.max_time as int, bw.2, last);
    let fin = best_final(t, groups[last], fw.0);
    if fin.0 <= data.max_time && reaches_start(fw.1, fin.1, route_fuel(data)) {
        main_route_of(fw.1, fin.1, route_fuel(data))
    } else {
        Seq::empty()
    }
}

/// The detour of each factory on `route`, in route order: the factory's number and
/// the places from the factory through its backup to the goal.
pub open spec fn detour_routes(
    data: ProblemData,
    m: StreetMap,
    route: Seq<LocationType>,
    bw: (Map<u32, int>, Map<u32, LocationType>, Map<u32, int>, Map<u32, u32>),
) -> Seq<(u32, Seq<LocationType>)>
    decreases route.len(),
{
    if route.len() == 0 {
        Seq::empty()
    } else {
        let prev = detour_routes(data, m, route.drop_last(), bw);
        match route.last() {
            LocationType::Num(id) => {
                let fts = data.factory_to_step@;
                let back = if bw.3.contains_key(id) { LocationType::Num(bw.3[id]) } else { LocationType::Goal };
                match detour(m, bw.1, fts, LocationType::Num(id), back, step_shown(fts, LocationType::Num(id)), (data.count_steps + 2) as nat) {
                    Some((ns, ss)) => prev.push((id, seq![LocationType::Num(id)] + ns)),
                    None => prev,
                }
            },
            _ => prev,
        }
    }
}

/// The detours as sequences.
pub open spec fn detours_view(ds: Seq<(u32, Vec<LocationType>)>) -> Seq<(u32, Seq<LocationType>)> {
    ds.map_values(|d: (u32, Vec<LocationType>)| (d.0, d.1@))
}

/// The text the task's answer consists of, line by line; `None` where a detour does
/// not reach the goal or the chain of predecessors runs in a circle (neither happens
/// when no factory number is listed twice).
pub open spec fn plan_output(data: ProblemData, m: StreetMap, t: DistanceTable) -> Option<Seq<Seq<char>>> {
    let groups = groups_of(data);
    let last = data.count_steps as int;
    let bw = backward(t, groups, last, 1);
    let fw = forward(t, groups, data.max_time as int, bw.2, last);
    let fin = best_final(t, groups[last], fw.0);
    if !(fin.0 <= data.max_time) {
        Some(seq![seq!['U', 'N', 'M', 'O', 'E', 'G', 'L', 'I', 'C', 'H']])
    } else if !reaches_start(fw.1, fin.1, route_fuel(data)) {
        None
    } else {
        let route = main_route_of(fw.1, fin.1, route_fuel(data));
        let fts = data.factory_to_step@;
        let header = seq![
            seq!['M', 'O', 'E', 'G', 'L', 'I', 'C', 'H'],
            decimal(max_duration(t, route, route, fw.0, bw.2, fin.0) as nat),
            Seq::<char>::empty(),
            decimal(fin.0 as nat),
            join_words(Seq::new(route.len(), |i: int| place_text(fts, route[i]))),
        ];
        match factory_lines(data, m, t, route, route, bw, fw.0) {
            Some(rest) => Some(header + rest),
            None => None,
        }
    }
}

/// The decimal form of `n` as a string.
pub fn decimal_string(n: u32) -> (r: String)
    ensures
        r@ == decimal(n as nat),
{
    let mut r = String::new();
    push_decimal(&mut r, n);
    assert(r@ =~= decimal(n as nat));
    r
}

/// Joins words with single spaces.
pub fn join_strings(words: &Vec<String>) -> (r: String)
    ensures
        r@ == join_words(words@.map_values(|w: String| w@)),
{
    let ghost ws = words@.map_values(|w: String| w@);
    let mut r = String::new();
    let mut i: usize = 0;
    while i < words.len()
        invariant
            ws == words@.map_values(|w: String| w@),
            i <= words.len(),
            r@ == join_words(ws.take(i as int)),
        decreases words.len() - i,
    {
        proof {
            assert(ws.take(i + 1).drop_last() =~= ws.take(i as int));
            assert(ws.take(i + 1).last() == words@[i as int]@);
        }
        if i > 0 {
            push_char(&mut r, ' ');
        }
        r.append(words[i].as_str());
        proof {
            if i == 0 {
                assert(ws.take(1) =~= seq![ws[0]]);
                assert(r@ =~= join_words(ws.take(1)));
            } else {
                assert(r@ =~= join_words(ws.take(i + 1)));
            }
        }
        i += 1;
    }
    assert(ws.take(words.len() as int) =~= ws);
    r
}

/// The answer to a delivery task, with the network and the distances it rests on.
pub struct DeliveryPlan {
    pub map: StreetMap,
    pub table: DistanceTable,
    pub lines: Option<Vec<String>>,
    pub main_route: Vec<LocationType>,
    pub detours: Vec<(u32, Vec<LocationType>)>,
}

/// Factory number `x` is one of the listed factories.
pub open spec fn factory_listed(data: ProblemData, x: u32) -> bool {
    exists|f: int| 0 <= f < data.factories@.len() && (#[trigger] data.factories@[f]).0 == x
}

/// What the solver needs of a task: steps grouped as counted, a bounded number of
/// streets whose lengths keep the searches within `i32` (see `lengths_fit`), every
/// factory a place of the network, and every grouped factory a listed one.
pub open spec fn task_ok(data: ProblemData) -> bool {
    &&& data.grouped_factories@.len() == data.count_steps + 1
    &&& data.streets@.len() <= u32::MAX
    &&& task_places(data).len() < u32::MAX
    &&& lengths_fit(task_edges(data), task_places(data).len() as int)
    &&& forall|f: int| 0 <= f < data.factories@.len() ==> #[trigger] task_places(data).contains(
        LocationType::Num(data.factories@[f].0),
    )
    &&& forall|k: int, i: int|
        1 <= k <= data.count_steps && 0 <= i < groups_of(data)[k].len() ==> factory_listed(data, #[trigger] groups_of(data)[k][i])
}

/// The text lines as character sequences.
pub open spec fn lines_view(ls: Seq<String>) -> Seq<Seq<char>> {
    ls.map_values(|l: String| l@)
}

fn push_line(lines: &mut Vec<String>, l: String)
    ensures
        lines_view(final(lines)@) == lines_view(old(lines)@).push(l@),
{
    lines.push(l);
    assert(lines_view(lines@) =~= lines_view(old(lines)@).push(l@));
}

/// With distinct factory numbers and a time limit below `INF`, every factory on
/// the main route has a backup, and its detour through the backup reaches the goal.
proof fn lemma_route_backup(data: ProblemData, map: StreetMap, table: DistanceTable, fp: LocationType, route: Seq<LocationType>, q: int, id: u32)
    requires
        ids_distinct(groups_of(data)),
        data.max_time < INF,
        groups_of(data).len() == data.count_steps + 1,
        table_matches(table, map),
        route == main_route_of(
            forward(table, groups_of(data), data.max_time as int, backward(table, groups_of(data), data.count_steps as int, 1).2, data.count_steps as int).1,
            fp,
            route_fuel(data),
        ),
        route.len() > 2 ==> route.len() == data.count_steps + 2 && forall|k: int|
            1 <= k <= data.count_steps ==> #[trigger] on_step(groups_of(data), route[k], k),
        0 <= q < route.len(),
        route[q] == LocationType::Num(id),
        forward(table, groups_of(data), data.max_time as int, backward(table, groups_of(data), data.count_steps as int, 1).2, data.count_steps as int).0.contains_key(id),
        forward(table, groups_of(data), data.max_time as int, backward(table, groups_of(data), data.count_steps as int, 1).2, data.count_steps as int).0[id] >= 0,
    ensures
        backward(table, groups_of(data), data.count_steps as int, 1).3.contains_key(id),
        detour_ok(
            map,
            backward(table, groups_of(data), data.count_steps as int, 1).1,
            LocationType::Num(id),
            LocationType::Num(backward(table, groups_of(data), data.count_steps as int, 1).3[id]),
            (data.count_steps + 2) as nat,
        ),
{
    let groups = groups_of(data);
    let last = data.count_steps as int;
    let bw = backward(table, groups, last, 1);
    assert(route[0] == LocationType::Start);
    assert(route[route.len() - 1] == LocationType::Goal);
    assert(route.len() > 2);
    assert(on_step(groups, route[q], q));
    let i = choose|i: int| 0 <= i < groups[q].len() && LocationType::Num(id) == LocationType::Num(#[trigger] groups[q][i]);
    assert(groups[q][i] == id);
    crate::plan_laws::lemma_forward_secured(table, groups, data.max_time as int, bw.2, last);
    crate::plan_laws::lemma_backup_detour(table, map, groups, last, q, id);
}

/// Solves a delivery task: builds the street network, computes shortest distances
/// from the start and from every factory, runs the backward and the forward pass,
/// picks the cheapest way to the goal and, when it keeps within the time limit,
/// writes the main route, its durations and the detour of every factory on it.
#[verifier::spinoff_prover]
#[verifier::rlimit(40)]
pub fn solve_delivery(data: &ProblemData) -> (plan: DeliveryPlan)
    requires
        task_ok(*data),
    ensures
        plan.map.wf(),
        plan.map.locs@ == task_places(*data),
        street_edges(plan.map.graph) == task_edges(*data),
        table_matches(plan.table, plan.map),
        plan.table.sources@ == task_sources(*data),
        plan_output(*data, plan.map, plan.table) == match plan.lines {
            Some(ls) => Some(lines_view(ls@)),
            None => None,
        },
        plan.main_route@ == plan_route(*data, plan.table),
        ids_distinct(groups_of(*data)) && plan.main_route@.len() > 2 ==> plan.main_route@.len() == data.count_steps + 2 && forall|k: int|
            1 <= k <= data.count_steps ==> #[trigger] on_step(groups_of(*data), plan.main_route@[k], k),
        ids_distinct(groups_of(*data)) && data.max_time < INF ==> plan.lines is Some,
        plan.lines is Some ==> detours_view(plan.detours@) == detour_routes(
            *data,
            plan.map,
            plan.main_route@,
            backward(plan.table, groups_of(*data), data.count_steps as int, 1),
        ),
{
    let ghost groups = groups_of(*data);
    let map = build_street_map(&data.streets);
    let mut sources: Vec<LocationType> = Vec::new();
    sources.push(LocationType::Start);
    let mut f: usize = 0;
    while f < data.factories.len()
        invariant
            f <= data.factories.len(),
            sources@ == task_sources(*data).take(f + 1),
        decreases data.factories.len() - f,
    {
        sources.push(LocationType::Num(data.factories[f].0));
        f += 1;
        assert(sources@ =~= task_sources(*data).take(f + 1));
    }
    assert(sources@ =~= task_sources(*data));
    proof {
        assert forall|r: int| 0 <= r < sources@.len() implies #[trigger] map.locs@.contains(sources@[r]) by {
            if r == 0 {
                crate::streets::lemma_with_place_grows(crate::streets::places_upto(data.streets@, data.streets@.len()), LocationType::Start);
                crate::streets::lemma_with_place_grows(
                    crate::streets::with_place(crate::streets::places_upto(data.streets@, data.streets@.len()), LocationType::Start),
                    LocationType::Goal,
                );
            } else {
                assert(sources@[r] == LocationType::Num(data.factories@[r - 1].0));
            }
        }
    }
    let table = all_distances(&map, &sources);
    let sv = backward_pass(data, &table);
    let (a, p) = forward_pass(data, &table, &sv);
    let last = data.count_steps as usize;
    let (fa, fp) = exec_best_final(&table, &data.grouped_factories[last], &a);
    let ghost bw = backward(table, groups, last as int, 1);
    let ghost fw = forward(table, groups, data.max_time as int, bw.2, last as int);
    if !(fa <= data.max_time as i64) {
        let mut lines: Vec<String> = Vec::new();
        let mut l = String::new();
        push_char(&mut l, 'U');
        push_char(&mut l, 'N');
        push_char(&mut l, 'M');
        push_char(&mut l, 'O');
        push_char(&mut l, 'E');
        push_char(&mut l, 'G');
        push_char(&mut l, 'L');
        push_char(&mut l, 'I');
        push_char(&mut l, 'C');
        push_char(&mut l, 'H');
        proof {
            assert(l@ =~= seq!['U', 'N', 'M', 'O', 'E', 'G', 'L', 'I', 'C', 'H']);
            assert(lines_view(lines@) =~= Seq::<Seq<char>>::empty());
        }
        push_line(&mut lines, l);
        proof {
            assert(lines_view(lines@) =~= seq![seq!['U', 'N', 'M', 'O', 'E', 'G', 'L', 'I', 'C', 'H']]);
        }
        return DeliveryPlan { map, table, lines: Some(lines), main_route: Vec::new(), detours: Vec::new() };
    }
    proof {
        lemma_forward_ok(table, groups, data.max_time as int, bw.2, last as int);
        lemma_best_final_source(table, groups[last as int], fw.0);
        if fp != LocationType::Start && last == 0 {
            let i = choose|i: int| 0 <= i < groups[0].len() && fp == LocationType::Num(#[trigger] groups[0][i]) && fw.0.contains_key(groups[0][i]);
            let v = groups[0][i];
            let (j, ii) = choose|j: int, ii: int| 1 <= j <= 0 && 0 <= ii < groups[j].len() && groups[j][ii] == v && prev_ok(groups, fw.0, fw.1[v], j);
        }
    }
    let route = match main_route(data, &a, &p, fp) {
        Some(r) => r,
        None => {
            return DeliveryPlan { map, table, lines: None, main_route: Vec::new(), detours: Vec::new() };
        },
    };
    assert(fp == LocationType::Start ==> route@.len() == 2);
    let ghost rv = route@;
    // the longest duration through a fallback
    let mut max_dur: i64 = fa;
    let mut q: usize = 0;
    while q < route.len()
        invariant
            q <= route.len(),
            rv == route@,
            route@.len() >= 2,
            table.wf(),
            0 <= max_dur < 0x1_0000_0000,
            max_dur == max_duration(table, route@.take(q as int), route@, int_map(a@), int_map(sv.r_val@), fa as int),
            costs_bounded(sv.r_val@),
            arrivals_bounded(a@),
            forall|qq: int|
                0 <= qq < route@.len() ==> match #[trigger] route@[qq] {
                    LocationType::Num(v) => a@.contains_key(v) && sv.r_val@.contains_key(v),
                    _ => true,
                },
        decreases route.len() - q,
    {
        proof {
            assert(route@.take(q + 1).drop_last() =~= route@.take(q as int));
        }
        let loc = route[q];
        match loc {
            LocationType::Num(id) => {
                let reach = if route[1] == loc {
                    get_dist(&table, LocationType::Start, loc)
                } else {
                    map_get(&a, id).unwrap()
                };
                let x = reach + map_get(&sv.r_val, id).unwrap();
                if !(max_dur >= x) {
                    max_dur = x;
                }
            },
            _ => {},
        }
        q += 1;
    }
    assert(route@.take(route.len() as int) =~= route@);
    let mut lines: Vec<String> = Vec::new();
    assert(lines_view(lines@) =~= Seq::<Seq<char>>::empty());
    let mut head = String::new();
    push_char(&mut head, 'M');
    push_char(&mut head, 'O');
    push_char(&mut head, 'E');
    push_char(&mut head, 'G');
    push_char(&mut head, 'L');
    push_char(&mut head, 'I');
    push_char(&mut head, 'C');
    push_char(&mut head, 'H');
    assert(head@ =~= seq!['M', 'O', 'E', 'G', 'L', 'I', 'C', 'H']);
    push_line(&mut lines, head);
    push_line(&mut lines, decimal_string(max_dur as u32));
    let empty_line = String::new();
    assert(empty_line@ =~= Seq::<char>::empty());
    push_line(&mut lines, empty_line);
    push_line(&mut lines, decimal_string(fa as u32));
    let mut words: Vec<String> = Vec::new();
    let mut w: usize = 0;
    while w < route.len()
        invariant
            w <= route.len(),
            lines_view(words@) == Seq::new(w as nat, |i: int| place_text(data.factory_to_step@, route@[i])),
        decreases route.len() - w,
    {
        let loc = route[w];
        let step = match loc {
            LocationType::Num(id) => map_get(&data.factory_to_step, id),
            _ => None,
        };
        let node = RouteNode { loc, step };
        push_line(&mut words, node.format());
        w += 1;
        assert(lines_view(words@) =~= Seq::new(w as nat, |i: int| place_text(data.factory_to_step@, route@[i])));
    }
    assert(words@.map_values(|w: String| w@) == lines_view(words@));
    push_line(&mut lines, join_strings(&words));
    proof {
        assert(lines_view(lines@) =~= seq![
            seq!['M', 'O', 'E', 'G', 'L', 'I', 'C', 'H'],
            decimal(max_duration(table, route@, route@, fw.0, bw.2, fa as int) as nat),
            Seq::<char>::empty(),
            decimal(fa as nat),
            join_words(Seq::new(route@.len(), |i: int| place_text(data.factory_to_step@, route@[i]))),
        ]);
    }
    let ghost header = lines_view(lines@);
    let mut detours: Vec<(u32, Vec<LocationType>)> = Vec::new();
    let fuel: u64 = data.count_steps as u64 + 2;
    let mut q: usize = 0;
    proof {
        assert(route@.take(0) =~= Seq::<LocationType>::empty());
        assert(header =~= header + Seq::<Seq<char>>::empty());
    }
    while q < route.len()
        invariant
            q <= route.len(),
            route@.len() >= 2,
            table.wf(),
            map.wf(),
            lengths_fit(street_edges(map.graph), map.locs@.len() as int),
            fuel == data.count_steps + 2,
            map.locs@ == task_places(*data),
            street_edges(map.graph) == task_edges(*data),
            table_matches(table, map),
            table.sources@ == task_sources(*data),
            bw == backward(table, groups, data.count_steps as int, 1),
            fw == forward(table, groups, data.max_time as int, bw.2, data.count_steps as int),
            groups == groups_of(*data),
            groups.len() == data.count_steps + 1,
            route@ == main_route_of(fw.1, fp, route_fuel(*data)),
            reaches_start(fw.1, fp, route_fuel(*data)),
            best_final(table, groups[data.count_steps as int], fw.0) == (fa as int, fp),
            fa <= data.max_time,
            header == seq![
                seq!['M', 'O', 'E', 'G', 'L', 'I', 'C', 'H'],
                decimal(max_duration(table, route@, route@, fw.0, bw.2, fa as int) as nat),
                Seq::<char>::empty(),
                decimal(fa as nat),
                join_words(Seq::new(route@.len(), |i: int| place_text(data.factory_to_step@, route@[i]))),
            ],
            bw == sv.view(),
            fw.0 == int_map(a@),
            costs_bounded(sv.r_val@),
            arrivals_bounded(a@),
            forall|qq: int|
                0 <= qq < route@.len() ==> match #[trigger] route@[qq] {
                    LocationType::Num(v) => a@.contains_key(v) && sv.r_val@.contains_key(v),
                    _ => true,
                },
            lines_view(lines@) == header + factory_lines(*data, map, table, route@.take(q as int), route@, bw, fw.0)->0,
            detours_view(detours@) == detour_routes(*data, map, route@.take(q as int), bw),
            ids_distinct(groups_of(*data)) && route@.len() > 2 ==> route@.len() == data.count_steps + 2 && forall|k: int|
                1 <= k <= data.count_steps ==> #[trigger] on_step(groups_of(*data), route@[k], k),
            factory_lines(*data, map, table, route@.take(q as int), route@, bw, fw.0) is Some,
        decreases route.len() - q,
    {
        proof {
            assert(route@.take(q + 1).drop_last() =~= route@.take(q as int));
        }
        let loc = route[q];
        match loc {
            LocationType::Num(id) => {
                let reach = if route[1] == loc {
                    get_dist(&table, LocationType::Start, loc)
                } else {
                    map_get(&a, id).unwrap()
                };
                let x = reach + map_get(&sv.r_val, id).unwrap();
                proof {
                    if ids_distinct(groups_of(*data)) && data.max_time < INF {
                        lemma_route_backup(*data, map, table, fp, route@, q as int, id);
                    }
                }
                let back = match map_get(&sv.backup_node, id) {
                    Some(b) => b,
                    None => {
                        proof {
                            lemma_factory_lines_none(*data, map, table, route@, q as int + 1, route@, bw, fw.0);
                            assert(route@.take(route@.len() as int) =~= route@);
                        }
                        return DeliveryPlan { map, table, lines: None, main_route: route, detours };
                    },
                };
                let vstep = map_get(&data.factory_to_step, id);
                match exec_detour(&map, &sv.next_best, &data.factory_to_step, loc, LocationType::Num(back), vstep, fuel) {
                    None => {
                        proof {
                            lemma_factory_lines_none(*data, map, table, route@, q as int + 1, route@, bw, fw.0);
                            assert(route@.take(route@.len() as int) =~= route@);
                        }
                        return DeliveryPlan { map, table, lines: None, main_route: route, detours };
                    },
                    Some((ns, ss)) => {
                        proof {
                            lemma_detour_lengths(map, sv.next_best@, data.factory_to_step@, loc, LocationType::Num(back), vstep, fuel as nat);
                        }
                        push_line(&mut lines, decimal_string(x as u32));
                        let mut dw: Vec<String> = Vec::new();
                        push_line(&mut dw, decimal_string(id));
                        let mut raw: Vec<LocationType> = Vec::new();
                        raw.push(loc);
                        let mut k: usize = 0;
                        while k < ns.len()
                            invariant
                                k <= ns.len(),
                                ns.len() == ss.len(),
                                raw@ == seq![loc] + ns@.take(k as int),
                                lines_view(dw@) == seq![decimal(id as nat)] + Seq::new(k as nat, |i: int| location_text(ns@[i], ss@[i])),
                            decreases ns.len() - k,
                        {
                            let node = RouteNode { loc: ns[k], step: ss[k] };
                            push_line(&mut dw, node.format());
                            raw.push(ns[k]);
                            k += 1;
                            assert(raw@ =~= seq![loc] + ns@.take(k as int));
                            assert(lines_view(dw@) =~= seq![decimal(id as nat)] + Seq::new(k as nat, |i: int| location_text(ns@[i], ss@[i])));
                        }
                        assert(dw@.map_values(|w: String| w@) == lines_view(dw@));
                        push_line(&mut lines, join_strings(&dw));
                        assert(ns@.take(ns.len() as int) =~= ns@);
                        let ghost before_detours = detours@;
                        detours.push((id, raw));
                        assert(detours_view(detours@) =~= detours_view(before_detours).push((id, seq![loc] + ns@)));
                    },
                }
            },
            _ => {},
        }
        q += 1;
    }
    assert(route@.take(route.len() as int) =~= route@);
    DeliveryPlan { map, table, lines: Some(lines), main_route: route, detours }
}

} // verus!
