//! Whether a delivery task meets what the solver needs of it.

use vstd::prelude::*;

use crate::delivery::{groups_of, ProblemData};
use crate::plan::{factory_listed, task_edges, task_ok, task_places};
use crate::streets::{build_street_map, find_place, lemma_index_in, lengths_fit, lengths_ok, place_list, street_list};

verus! {

/// The factory at step `k`, position `i`, is one of the listed factories.
pub open spec fn listed_at(data: ProblemData, k: int, i: int) -> bool {
    factory_listed(data, groups_of(data)[k][i])
}

fn listed_exec(data: &ProblemData, k: usize, i: usize) -> (r: bool)
    requires
        k < data.grouped_factories@.len(),
        i < data.grouped_factories@[k as int]@.len(),
    ensures
        r == listed_at(*data, k as int, i as int),
{
    let x = data.grouped_factories[k][i];
    assert(x == groups_of(*data)[k as int][i as int]);
    let mut f: usize = 0;
    while f < data.factories.len()
        invariant
            f <= data.factories@.len(),
            x == groups_of(*data)[k as int][i as int],
            forall|j: int| 0 <= j < f ==> (#[trigger] data.factories@[j]).0 != x,
        decreases data.factories.len() - f,
    {
        if data.factories[f].0 == x {
            return true;
        }
        f += 1;
    }
    false
}

/// Whether a delivery task meets what the solver needs of it (see `task_ok`).
pub fn task_valid(data: &ProblemData) -> (r: bool)
    ensures
        r == task_ok(*data),
{
    let ghost g = groups_of(*data);
    if data.grouped_factories.len() == 0 || data.grouped_factories.len() - 1 != data.count_steps as usize {
        return false;
    }
    if data.streets.len() as u64 > u32::MAX as u64 {
        return false;
    }
    if place_list(&data.streets).len() as u64 >= u32::MAX as u64 {
        return false;
    }
    let ghost places = task_places(*data);
    let m = build_street_map(&data.streets);
    assert(street_list(data.streets@, m.locs@).len() == data.streets@.len());
    if !lengths_ok(&m) {
        return false;
    }
    let mut f: usize = 0;
    while f < data.factories.len()
        invariant
            m.locs@ == places,
            places == task_places(*data),
            f <= data.factories@.len(),
            forall|j: int| 0 <= j < f ==> #[trigger] places.contains(crate::delivery::LocationType::Num(data.factories@[j].0)),
        decreases data.factories.len() - f,
    {
        let l = crate::delivery::LocationType::Num(data.factories[f].0);
        proof {
            lemma_index_in(places, l);
        }
        if find_place(&m.locs, l).is_none() {
            assert(!places.contains(l));
            return false;
        }
        f += 1;
    }
    let mut k: usize = 1;
    while k < data.grouped_factories.len()
        invariant
            g == groups_of(*data),
            g.len() == data.count_steps + 1,
            1 <= k <= g.len(),
            forall|j: int| 0 <= j < data.factories@.len() ==> #[trigger] places.contains(crate::delivery::LocationType::Num(data.factories@[j].0)),
            places == task_places(*data),
            lengths_fit(task_edges(*data), places.len() as int),
            data.streets@.len() <= u32::MAX,
            task_places(*data).len() < u32::MAX,
            forall|k1: int, i1: int| 1 <= k1 < k && 0 <= i1 < g[k1].len() ==> #[trigger] listed_at(*data, k1, i1),
        decreases data.grouped_factories.len() - k,
    {
        let n = data.grouped_factories[k].len();
        let mut i: usize = 0;
        while i < n
            invariant
                g == groups_of(*data),
                1 <= k < g.len(),
                n == g[k as int].len(),
                g.len() == data.count_steps + 1,
                forall|j: int| 0 <= j < data.factories@.len() ==> #[trigger] places.contains(crate::delivery::LocationType::Num(data.factories@[j].0)),
                places == task_places(*data),
                lengths_fit(task_edges(*data), places.len() as int),
                data.streets@.len() <= u32::MAX,
                task_places(*data).len() < u32::MAX,
                i <= n,
                forall|k1: int, i1: int| 1 <= k1 < k && 0 <= i1 < g[k1].len() ==> #[trigger] listed_at(*data, k1, i1),
                forall|i1: int| 0 <= i1 < i ==> #[trigger] listed_at(*data, k as int, i1),
            decreases n - i,
        {
            if !listed_exec(data, k, i) {
                assert(!listed_at(*data, k as int, i as int));
                return false;
            }
            i += 1;
        }
        k += 1;
    }
    proof {
        assert forall|k1: int, i1: int|
            1 <= k1 <= data.count_steps && 0 <= i1 < groups_of(*data)[k1].len() implies factory_listed(
            *data,
            #[trigger] groups_of(*data)[k1][i1],
        ) by {
            assert(listed_at(*data, k1, i1));
        }
    }
    true
}

} // verus!
