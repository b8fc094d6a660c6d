//! A Graphviz drawing of a delivery plan: the street network, the main route in red
//! and each factory's detour dashed in a colour of its own.

use vstd::prelude::*;

use std::collections::HashMap;

use crate::delivery::{location_text, map_get, push_str, LocationType, RouteNode};
use crate::plan::{detours_view, lines_view, step_shown};
use crate::streets::{find_place, index_in, lemma_index_in, street_edge, street_edge_count, street_edges, StreetMap};
use crate::text::{decimal, push_char, push_decimal_wide};

verus! {

/// The fill colour of a place.
pub open spec fn place_color(l: LocationType) -> Seq<char> {
    match l {
        LocationType::Start => "green"@,
        LocationType::Goal => "lightblue"@,
        LocationType::Num(_) => "red"@,
    }
}

/// The colour of the `c`-th detour: ten colours in turn.
pub open spec fn route_color(c: int) -> Seq<char> {
    let k = c % 10;
    if k == 0 {
        "cyan"@
    } else if k == 1 {
        "green"@
    } else if k == 2 {
        "yellow"@
    } else if k == 3 {
        "orange"@
    } else if k == 4 {
        "magenta"@
    } else if k == 5 {
        "purple"@
    } else if k == 6 {
        "lightblue"@
    } else if k == 7 {
        "lime"@
    } else if k == 8 {
        "gold"@
    } else {
        "pink"@
    }
}

/// An integer in decimal, with a minus sign when negative.
pub open spec fn signed_text(w: int) -> Seq<char> {
    if w < 0 {
        seq!['-'] + decimal((-w) as nat)
    } else {
        decimal(w as nat)
    }
}

/// The line of node `i`, the place `l`.
pub open spec fn node_line(i: int, l: LocationType, fts: Map<u32, u32>) -> Seq<char> {
    "  n"@ + decimal(i as nat) + " [label=\""@ + location_text(l, step_shown(fts, l)) + "\", fillcolor="@ + place_color(l)
        + "];"@
}

/// The line of a street.
pub open spec fn edge_line(e: (int, int, int)) -> Seq<char> {
    "  n"@ + decimal(e.0 as nat) + " -> n"@ + decimal(e.1 as nat)
        + " [dir=none, color=\"#444444\", penwidth=1, label=\""@ + signed_text(e.2)
        + "\", fontcolor=\"#777777\", constraint=false];"@
}

/// The line of the `i`-th leg of the main route.
pub open spec fn main_line(locs: Seq<LocationType>, r: Seq<LocationType>, i: int) -> Seq<char> {
    "  n"@ + decimal(index_in(locs, r[i]) as nat) + " -> n"@ + decimal(index_in(locs, r[i + 1]) as nat)
        + " [color=red, penwidth=4, label=\"."@ + decimal((i + 1) as nat) + "\", fontcolor=red];"@
}

/// The line of the `i`-th leg of the detour of factory `id`, in colour `col`.
pub open spec fn detour_line(locs: Seq<LocationType>, col: Seq<char>, id: u32, r: Seq<LocationType>, i: int) -> Seq<char> {
    "  n"@ + decimal(index_in(locs, r[i]) as nat) + " -> n"@ + decimal(index_in(locs, r[i + 1]) as nat) + " [color="@
        + col + ", penwidth=2, style=dashed, label=\""@ + decimal(id as nat) + "."@ + decimal((i + 1) as nat)
        + "\", fontcolor="@ + col + "];"@
}

/// The number of legs of a route: one fewer than its places, if any.
pub open spec fn legs(r: Seq<LocationType>) -> nat {
    if r.len() == 0 {
        0
    } else {
        (r.len() - 1) as nat
    }
}

/// The lines of the detours, the `c`-th in the `c`-th colour.
pub open spec fn detour_lines(locs: Seq<LocationType>, ds: Seq<(u32, Seq<LocationType>)>) -> Seq<Seq<char>>
    decreases ds.len(),
{
    if ds.len() == 0 {
        Seq::empty()
    } else {
        let d = ds.last();
        detour_lines(locs, ds.drop_last()) + Seq::new(
            legs(d.1),
            |i: int| detour_line(locs, route_color(ds.len() - 1), d.0, d.1, i),
        )
    }
}

/// Position of the first detour with the least factory number.
pub open spec fn least_at(ds: Seq<(u32, Seq<LocationType>)>) -> int
    decreases ds.len(),
{
    if ds.len() <= 1 {
        0
    } else {
        let j = least_at(ds.drop_last());
        if ds.last().0 < ds[j].0 {
            ds.len() - 1
        } else {
            j
        }
    }
}

/// The detours in order of their factory numbers; among equal numbers the earlier
/// comes first.
pub open spec fn by_id(ds: Seq<(u32, Seq<LocationType>)>) -> Seq<(u32, Seq<LocationType>)>
    decreases ds.len(),
{
    if ds.len() == 0 {
        Seq::empty()
    } else {
        let j = least_at(ds);
        proof {
            lemma_least_at(ds);
        }
        seq![ds[j]] + by_id(ds.remove(j))
    }
}

proof fn lemma_least_is_least(ds: Seq<(u32, Seq<LocationType>)>)
    requires
        ds.len() > 0,
    ensures
        forall|k: int| 0 <= k < ds.len() ==> ds[least_at(ds)].0 <= (#[trigger] ds[k]).0,
    decreases ds.len(),
{
    lemma_least_at(ds);
    if ds.len() > 1 {
        let p = ds.drop_last();
        lemma_least_is_least(p);
        lemma_least_at(p);
        assert forall|k: int| 0 <= k < ds.len() implies ds[least_at(ds)].0 <= (#[trigger] ds[k]).0 by {
            if k < ds.len() - 1 {
                assert(ds[k] == p[k]);
            }
            assert(ds[least_at(p)] == p[least_at(p)]);
        }
    }
}

/// Drawing the detours by factory number keeps every detour, each as often, and
/// puts them in order of their numbers.
pub proof fn lemma_by_id_sorted(ds: Seq<(u32, Seq<LocationType>)>)
    ensures
        by_id(ds).len() == ds.len(),
        by_id(ds).to_multiset() == ds.to_multiset(),
        forall|i: int, k: int| 0 <= i < k < ds.len() ==> (#[trigger] by_id(ds)[i]).0 <= (#[trigger] by_id(ds)[k]).0,
    decreases ds.len(),
{
    broadcast use vstd::seq_lib::group_to_multiset_ensures;
    broadcast use vstd::multiset::group_multiset_axioms;
    if ds.len() > 0 {
        let j = least_at(ds);
        lemma_least_at(ds);
        lemma_least_is_least(ds);
        let rest = ds.remove(j);
        lemma_by_id_sorted(rest);
        let b = by_id(ds);
        let br = by_id(rest);
        assert(b == seq![ds[j]] + br);
        vstd::seq_lib::lemma_multiset_commutative(seq![ds[j]], br);
        vstd::seq_lib::to_multiset_remove(ds, j);
        assert(b.to_multiset() =~= ds.to_multiset());
        assert forall|i: int, k: int| 0 <= i < k < ds.len() implies (#[trigger] b[i]).0 <= (#[trigger] b[k]).0 by {
            if i == 0 {
                let x = br[k - 1];
                assert(b[k] == x);
                assert(br.contains(x));
                assert(rest.to_multiset().count(x) > 0);
                assert(rest.contains(x));
                let q = choose|q: int| 0 <= q < rest.len() && rest[q] == x;
                if q < j {
                    assert(rest[q] == ds[q]);
                } else {
                    assert(rest[q] == ds[q + 1]);
                }
            } else {
                assert(b[i] == br[i - 1] && b[k] == br[k - 1]);
            }
        }
    }
}

/// The lines of the drawing.
pub open spec fn dot_text(
    locs: Seq<LocationType>,
    edges: Seq<(int, int, int)>,
    fts: Map<u32, u32>,
    main: Seq<LocationType>,
    ds: Seq<(u32, Seq<LocationType>)>,
) -> Seq<Seq<char>> {
    seq![
        "digraph G {"@,
        "  splines=true; overlap=false; rankdir=LR; bgcolor=\"#2e2e2e\";"@,
        "  node [fontname=\"Arial\", shape=circle, style=filled];"@,
        "  edge [fontname=\"Arial\", fontsize=10];"@,
    ] + Seq::new(locs.len(), |i: int| node_line(i, locs[i], fts)) + Seq::new(edges.len(), |e: int| edge_line(edges[e]))
        + Seq::new(legs(main), |i: int| main_line(locs, main, i)) + detour_lines(locs, by_id(ds)) + seq!["}"@]
}

/// The first detour with the least factory number is one of the detours.
pub proof fn lemma_least_at(ds: Seq<(u32, Seq<LocationType>)>)
    requires
        ds.len() > 0,
    ensures
        0 <= least_at(ds) < ds.len(),
    decreases ds.len(),
{
    if ds.len() > 1 {
        lemma_least_at(ds.drop_last());
    }
}

fn exec_least_at(ds: &Vec<(u32, Vec<LocationType>)>, idx: &Vec<usize>) -> (j: usize)
    requires
        idx@.len() > 0,
        forall|k: int| 0 <= k < idx@.len() ==> #[trigger] idx@[k] < ds@.len(),
    ensures
        j == least_at(idx@.map_values(|i: usize| detours_view(ds@)[i as int])),
{
    let ghost dv = detours_view(ds@);
    let ghost v = idx@.map_values(|i: usize| dv[i as int]);
    let mut j: usize = 0;
    let mut k: usize = 1;
    assert(v.take(1).len() == 1);
    while k < idx.len()
        invariant
            dv == detours_view(ds@),
            v == idx@.map_values(|i: usize| dv[i as int]),
            forall|q: int| 0 <= q < idx@.len() ==> #[trigger] idx@[q] < ds@.len(),
            1 <= k <= idx@.len(),
            j == least_at(v.take(k as int)),
            j < k,
        decreases idx.len() - k,
    {
        proof {
            assert(v.take(k + 1).drop_last() =~= v.take(k as int));
            lemma_least_at(v.take(k as int));
        }
        if ds[idx[k]].0 < ds[idx[j]].0 {
            j = k;
        }
        k += 1;
    }
    assert(v.take(idx.len() as int) =~= v);
    j
}

/// The order in which the detours are drawn: by factory number.
fn order_by_id(ds: &Vec<(u32, Vec<LocationType>)>) -> (r: Vec<usize>)
    ensures
        r@.map_values(|i: usize| detours_view(ds@)[i as int]) == by_id(detours_view(ds@)),
        forall|k: int| 0 <= k < r@.len() ==> #[trigger] r@[k] < ds@.len(),
{
    let ghost dv = detours_view(ds@);
    let mut rest: Vec<usize> = Vec::new();
    let mut k: usize = 0;
    while k < ds.len()
        invariant
            k <= ds.len(),
            rest@ == Seq::new(k as nat, |i: int| i as usize),
        decreases ds.len() - k,
    {
        rest.push(k);
        k += 1;
        assert(rest@ =~= Seq::new(k as nat, |i: int| i as usize));
    }
    assert(rest@.map_values(|i: usize| dv[i as int]) =~= dv);
    let mut out: Vec<usize> = Vec::new();
    while rest.len() > 0
        invariant
            dv == detours_view(ds@),
            forall|q: int| 0 <= q < rest@.len() ==> #[trigger] rest@[q] < ds@.len(),
            forall|q: int| 0 <= q < out@.len() ==> #[trigger] out@[q] < ds@.len(),
            out@.map_values(|i: usize| dv[i as int]) + by_id(rest@.map_values(|i: usize| dv[i as int])) == by_id(dv),
        decreases rest.len(),
    {
        let ghost v = rest@.map_values(|i: usize| dv[i as int]);
        let j = exec_least_at(ds, &rest);
        proof {
            lemma_least_at(v);
        }
        let ghost before_out = out@;
        let ghost before_rest = rest@;
        let x = rest.remove(j);
        out.push(x);
        proof {
            assert(rest@.map_values(|i: usize| dv[i as int]) =~= v.remove(j as int));
            assert(by_id(v) == seq![v[j as int]] + by_id(v.remove(j as int)));
            assert(out@.map_values(|i: usize| dv[i as int]) =~= before_out.map_values(|i: usize| dv[i as int]).push(v[j as int]));
            assert(out@.map_values(|i: usize| dv[i as int]) + by_id(rest@.map_values(|i: usize| dv[i as int]))
                =~= before_out.map_values(|i: usize| dv[i as int]) + by_id(v));
        }
    }
    assert(by_id(rest@.map_values(|i: usize| dv[i as int])) =~= Seq::<(u32, Seq<LocationType>)>::empty());
    assert(out@.map_values(|i: usize| dv[i as int]) =~= by_id(dv));
    out
}

fn color_of_place(l: LocationType) -> (r: &'static str)
    ensures
        r@ == place_color(l),
{
    match l {
        LocationType::Start => "green",
        LocationType::Goal => "lightblue",
        LocationType::Num(_) => "red",
    }
}

fn color_of_route(c: usize) -> (r: &'static str)
    ensures
        r@ == route_color(c as int),
{
    let k = c % 10;
    if k == 0 {
        "cyan"
    } else if k == 1 {
        "green"
    } else if k == 2 {
        "yellow"
    } else if k == 3 {
        "orange"
    } else if k == 4 {
        "magenta"
    } else if k == 5 {
        "purple"
    } else if k == 6 {
        "lightblue"
    } else if k == 7 {
        "lime"
    } else if k == 8 {
        "gold"
    } else {
        "pink"
    }
}

fn push_signed(s: &mut String, w: i32)
    ensures
        final(s)@ == old(s)@ + signed_text(w as int),
{
    if w < 0 {
        push_char(s, '-');
        let m: u64 = (0 - (w as i64)) as u64;
        push_decimal_wide(s, m);
        assert(final(s)@ =~= old(s)@ + signed_text(w as int));
    } else {
        push_decimal_wide(s, w as u64);
    }
}

fn text_of(s: String) -> (r: String)
    ensures
        r@ == s@,
{
    s
}

/// Every place of the routes is a node of the map.
pub open spec fn routes_in_map(locs: Seq<LocationType>, main: Seq<LocationType>, ds: Seq<(u32, Seq<LocationType>)>) -> bool {
    &&& forall|i: int| 0 <= i < main.len() ==> locs.contains(#[trigger] main[i])
    &&& forall|d: int, i: int| 0 <= d < ds.len() && 0 <= i < ds[d].1.len() ==> locs.contains(#[trigger] ds[d].1[i])
}

fn placed(locs: &Vec<LocationType>, r: &Vec<LocationType>) -> (b: bool)
    ensures
        b == forall|i: int| 0 <= i < r@.len() ==> locs@.contains(#[trigger] r@[i]),
{
    let mut i: usize = 0;
    while i < r.len()
        invariant
            i <= r.len(),
            forall|k: int| 0 <= k < i ==> locs@.contains(#[trigger] r@[k]),
        decreases r.len() - i,
    {
        proof {
            lemma_index_in(locs@, r@[i as int]);
        }
        if find_place(locs, r[i]).is_none() {
            return false;
        }
        i += 1;
    }
    true
}

/// Whether every place of the routes is a node of the map.
pub fn routes_placed(locs: &Vec<LocationType>, main: &Vec<LocationType>, detours: &Vec<(u32, Vec<LocationType>)>) -> (b: bool)
    ensures
        b == routes_in_map(locs@, main@, detours_view(detours@)),
{
    let ghost dv = detours_view(detours@);
    if !placed(locs, main) {
        return false;
    }
    let mut d: usize = 0;
    while d < detours.len()
        invariant
            dv == detours_view(detours@),
            d <= detours.len(),
            forall|i: int| 0 <= i < main@.len() ==> locs@.contains(#[trigger] main@[i]),
            forall|dd: int, i: int| 0 <= dd < d && 0 <= i < dv[dd].1.len() ==> locs@.contains(#[trigger] dv[dd].1[i]),
        decreases detours.len() - d,
    {
        assert(dv[d as int].1 == detours@[d as int].1@);
        if !placed(locs, &detours[d].1) {
            return false;
        }
        d += 1;
    }
    true
}

fn index_of(locs: &Vec<LocationType>, l: LocationType) -> (r: u64)
    requires
        locs@.contains(l),
    ensures
        r == index_in(locs@, l),
{
    proof {
        lemma_index_in(locs@, l);
    }
    find_place(locs, l).unwrap() as u64
}

fn leg_text(locs: &Vec<LocationType>, a: LocationType, b: LocationType) -> (s: String)
    requires
        locs@.contains(a),
        locs@.contains(b),
    ensures
        s@ == "  n"@ + decimal(index_in(locs@, a) as nat) + " -> n"@ + decimal(index_in(locs@, b) as nat),
{
    let mut s = String::new();
    push_str(&mut s, "  n");
    push_decimal_wide(&mut s, index_of(locs, a));
    push_str(&mut s, " -> n");
    push_decimal_wide(&mut s, index_of(locs, b));
    assert(s@ =~= "  n"@ + decimal(index_in(locs@, a) as nat) + " -> n"@ + decimal(index_in(locs@, b) as nat));
    s
}

/// The lines of the Graphviz drawing of a delivery plan: the places with their
/// labels, the streets with their lengths, the legs of the main route numbered in
/// red, and the legs of each detour, in order of factory number, dashed in the
/// colours in turn.
pub fn dot_lines(
    map: &StreetMap,
    fts: &HashMap<u32, u32>,
    main: &Vec<LocationType>,
    detours: &Vec<(u32, Vec<LocationType>)>,
) -> (r: Vec<String>)
    requires
        map.wf(),
        routes_in_map(map.locs@, main@, detours_view(detours@)),
    ensures
        lines_view(r@) == dot_text(map.locs@, street_edges(map.graph), fts@, main@, detours_view(detours@)),
{
    let ghost locs = map.locs@;
    let ghost edges = street_edges(map.graph);
    let mut out: Vec<String> = Vec::new();
    out.push(text_of(String::from_str("digraph G {")));
    out.push(text_of(String::from_str("  splines=true; overlap=false; rankdir=LR; bgcolor=\"#2e2e2e\";")));
    out.push(text_of(String::from_str("  node [fontname=\"Arial\", shape=circle, style=filled];")));
    out.push(text_of(String::from_str("  edge [fontname=\"Arial\", fontsize=10];")));
    let ghost head = lines_view(out@);
    assert(head =~= seq![
        "digraph G {"@,
        "  splines=true; overlap=false; rankdir=LR; bgcolor=\"#2e2e2e\";"@,
        "  node [fontname=\"Arial\", shape=circle, style=filled];"@,
        "  edge [fontname=\"Arial\", fontsize=10];"@,
    ]);
    let mut i: usize = 0;
    while i < map.locs.len()
        invariant
            locs == map.locs@,
            map.wf(),
            i <= locs.len(),
            lines_view(out@) == head + Seq::new(i as nat, |k: int| node_line(k, locs[k], fts@)),
        decreases map.locs.len() - i,
    {
        let l = map.locs[i];
        let step = match l {
            LocationType::Num(id) => map_get(fts, id),
            _ => None,
        };
        assert(step == step_shown(fts@, l));
        let label = RouteNode { loc: l, step }.format();
        let mut s = String::new();
        push_str(&mut s, "  n");
        push_decimal_wide(&mut s, i as u64);
        push_str(&mut s, " [label=\"");
        push_str(&mut s, label.as_str());
        push_str(&mut s, "\", fillcolor=");
        push_str(&mut s, color_of_place(l));
        push_str(&mut s, "];");
        let ghost before = out@;
        out.push(s);
        proof {
            assert(s@ =~= node_line(i as int, locs[i as int], fts@));
            assert(lines_view(out@) =~= lines_view(before).push(s@));
        }
        i += 1;
        assert(lines_view(out@) =~= head + Seq::new(i as nat, |k: int| node_line(k, locs[k], fts@)));
    }
    let ghost nodes_part = lines_view(out@);
    let ne = street_edge_count(&map.graph);
    let mut e: usize = 0;
    while e < ne
        invariant
            ne == edges.len(),
            edges == street_edges(map.graph),
            e <= ne,
            lines_view(out@) == nodes_part + Seq::new(e as nat, |k: int| edge_line(edges[k])),
            map.wf(),
            locs == map.locs@,
        decreases ne - e,
    {
        let (a, b, w) = street_edge(&map.graph, e);
        let mut s = String::new();
        push_str(&mut s, "  n");
        push_decimal_wide(&mut s, a as u64);
        push_str(&mut s, " -> n");
        push_decimal_wide(&mut s, b as u64);
        push_str(&mut s, " [dir=none, color=\"#444444\", penwidth=1, label=\"");
        push_signed(&mut s, w);
        push_str(&mut s, "\", fontcolor=\"#777777\", constraint=false];");
        let ghost before = out@;
        out.push(s);
        proof {
            assert(s@ =~= edge_line(edges[e as int]));
            assert(lines_view(out@) =~= lines_view(before).push(s@));
        }
        e += 1;
        assert(lines_view(out@) =~= nodes_part + Seq::new(e as nat, |k: int| edge_line(edges[k])));
    }
    let ghost edges_part = lines_view(out@);
    let nm: usize = if main.len() == 0 { 0 } else { main.len() - 1 };
    let mut i: usize = 0;
    while i < nm
        invariant
            nm == legs(main@),
            i <= nm,
            lines_view(out@) == edges_part + Seq::new(i as nat, |k: int| main_line(locs, main@, k)),
            locs == map.locs@,
            routes_in_map(locs, main@, detours_view(detours@)),
        decreases nm - i,
    {
        let mut s = leg_text(&map.locs, main[i], main[i + 1]);
        push_str(&mut s, " [color=red, penwidth=4, label=\".");
        push_decimal_wide(&mut s, (i + 1) as u64);
        push_str(&mut s, "\", fontcolor=red];");
        let ghost before = out@;
        out.push(s);
        proof {
            assert(s@ =~= main_line(locs, main@, i as int));
            assert(lines_view(out@) =~= lines_view(before).push(s@));
        }
        i += 1;
        assert(lines_view(out@) =~= edges_part + Seq::new(i as nat, |k: int| main_line(locs, main@, k)));
    }
    let ghost main_part = lines_view(out@);
    let ghost dv = detours_view(detours@);
    let order = order_by_id(detours);
    let ghost sorted = order@.map_values(|i: usize| dv[i as int]);
    let mut c: usize = 0;
    assert(sorted.take(0) =~= Seq::<(u32, Seq<LocationType>)>::empty());
    while c < order.len()
        invariant
            dv == detours_view(detours@),
            sorted == order@.map_values(|i: usize| dv[i as int]),
            sorted == by_id(dv),
            forall|k: int| 0 <= k < order@.len() ==> #[trigger] order@[k] < detours@.len(),
            c <= order.len(),
            lines_view(out@) == main_part + detour_lines(locs, sorted.take(c as int)),
            locs == map.locs@,
            routes_in_map(locs, main@, dv),
        decreases order.len() - c,
    {
        let d = &detours[order[c]];
        let ghost dseq = d.1@;
        assert(sorted[c as int] == (d.0, dseq));
        let col = color_of_route(c);
        let n = d.1.len();
        let nl: usize = if n == 0 { 0 } else { n - 1 };
        let ghost part = lines_view(out@);
        let mut i: usize = 0;
        while i < nl
            invariant
                nl == legs(dseq),
                dseq == d.1@,
                c < order@.len(),
                dv.len() == detours@.len(),
                order@[c as int] < detours@.len(),
                dseq == dv[order@[c as int] as int].1,
                i <= nl,
                lines_view(out@) == part + Seq::new(i as nat, |k: int| detour_line(locs, route_color(c as int), d.0, dseq, k)),
                locs == map.locs@,
                col@ == route_color(c as int),
                routes_in_map(locs, main@, dv),
            decreases nl - i,
        {
            assert(locs.contains(dv[order@[c as int] as int].1[i as int]));
            assert(locs.contains(dv[order@[c as int] as int].1[i + 1]));
            let mut s = leg_text(&map.locs, d.1[i], d.1[i + 1]);
            push_str(&mut s, " [color=");
            push_str(&mut s, col);
            push_str(&mut s, ", penwidth=2, style=dashed, label=\"");
            push_decimal_wide(&mut s, d.0 as u64);
            push_str(&mut s, ".");
            push_decimal_wide(&mut s, (i + 1) as u64);
            push_str(&mut s, "\", fontcolor=");
            push_str(&mut s, col);
            push_str(&mut s, "];");
            let ghost before = out@;
            out.push(s);
            proof {
                assert(s@ =~= detour_line(locs, route_color(c as int), d.0, dseq, i as int));
                assert(lines_view(out@) =~= lines_view(before).push(s@));
            }
            i += 1;
            assert(lines_view(out@) =~= part + Seq::new(i as nat, |k: int| detour_line(locs, route_color(c as int), d.0, dseq, k)));
        }
        proof {
            assert(sorted.take(c + 1).drop_last() =~= sorted.take(c as int));
            assert(sorted.take(c + 1).last() == (d.0, dseq));
        }
        c += 1;
    }
    assert(sorted.take(order.len() as int) =~= sorted);
    let ghost before = out@;
    out.push(text_of(String::from_str("}")));
    assert(lines_view(out@) =~= lines_view(before).push("}"@));
    assert(lines_view(out@) =~= dot_text(locs, edges, fts@, main@, dv));
    out
}

} // verus!
