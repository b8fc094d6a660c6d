//! Planted trees on a grid, charging stations and the routes a robot drives.

use vstd::prelude::*;

verus! {

/// A tree with its number and grid position.
#[derive(Clone, Copy, Debug, PartialEq, Eq, Structural)]
pub struct Tree {
    pub id: u32,
    pub x: u32,
    pub y: u32,
}

/// A charging station; a route starts and ends there.
#[derive(Clone, Copy, Debug, PartialEq, Eq, Structural)]
pub struct ChargingStation {
    pub _id: u32,
    pub x: u32,
    pub y: u32,
}

/// The trees one robot visits in order, and its charging station.
#[derive(Clone, Debug)]
pub struct Route {
    pub trees: Vec<Tree>,
    pub charging_station: ChargingStation,
}

/// Squared Euclidean distance between two trees. Comparing squared distances
/// orders pairs exactly as comparing their Euclidean distances does.
pub open spec fn sq_dist(a: Tree, b: Tree) -> int {
    (a.x - b.x) * (a.x - b.x) + (a.y - b.y) * (a.y - b.y)
}

/// Bound on a squared distance between grid points with `u32` coordinates.
pub proof fn lemma_sq_dist_bounds(a: Tree, b: Tree)
    ensures
        0 <= sq_dist(a, b) < 0x2_0000_0000_0000_0000,
{
    let dx: int = a.x - b.x;
    let dy: int = a.y - b.y;
    assert(0 <= dx * dx < 0x1_0000_0000_0000_0000) by (nonlinear_arith)
        requires
            -0x1_0000_0000 < dx < 0x1_0000_0000,
    ;
    assert(0 <= dy * dy < 0x1_0000_0000_0000_0000) by (nonlinear_arith)
        requires
            -0x1_0000_0000 < dy < 0x1_0000_0000,
    ;
}

/// Squared Euclidean distance between two trees.
pub fn sq_distance(a: &Tree, b: &Tree) -> (d: u128)
    ensures
        d == sq_dist(*a, *b),
        d < 0x2_0000_0000_0000_0000,
{
    let dx: u64 = if a.x >= b.x { (a.x - b.x) as u64 } else { (b.x - a.x) as u64 };
    let dy: u64 = if a.y >= b.y { (a.y - b.y) as u64 } else { (b.y - a.y) as u64 };
    proof {
        lemma_sq_dist_bounds(*a, *b);
        assert(dx * dx == (a.x - b.x) * (a.x - b.x)) by (nonlinear_arith)
            requires
                dx == a.x - b.x || dx == b.x - a.x,
        ;
        assert(dy * dy == (a.y - b.y) * (a.y - b.y)) by (nonlinear_arith)
            requires
                dy == a.y - b.y || dy == b.y - a.y,
        ;
    }
    let xx: u128 = (dx as u128) * (dx as u128);
    let yy: u128 = (dy as u128) * (dy as u128);
    xx + yy
}

fn taken(occupied: &Vec<(u32, u32)>, p: (u32, u32)) -> (r: bool)
    ensures
        r == occupied@.contains(p),
{
    let mut i: usize = 0;
    while i < occupied.len()
        invariant
            i <= occupied.len(),
            forall|j: int| 0 <= j < i ==> occupied@[j] != p,
        decreases occupied.len() - i,
    {
        let q = occupied[i];
        if q.0 == p.0 && q.1 == p.1 {
            assert(occupied@[i as int] == p);
            return true;
        }
        i += 1;
    }
    false
}

/// Where the charging station of a route that starts at tree `first` goes: one
/// column right of the tree, in the first row from the tree's row on that no
/// station in `occupied` takes. `None` when every such row up to `u32::MAX` is taken.
pub fn place_station(occupied: &Vec<(u32, u32)>, first: &Tree) -> (r: Option<(u32, u32)>)
    requires
        first.x < u32::MAX,
    ensures
        match r {
            Some((x, y)) => {
                &&& x == first.x + 1
                &&& first.y <= y
                &&& !occupied@.contains((x, y))
                &&& forall|k: u32| first.y <= k < y ==> #[trigger] occupied@.contains((x, k))
            },
            None => forall|k: u32| first.y <= k ==> #[trigger] occupied@.contains(((first.x + 1) as u32, k)),
        },
{
    let x = first.x + 1;
    let mut y = first.y;
    while taken(occupied, (x, y))
        invariant
            x == first.x + 1,
            first.y <= y,
            forall|k: u32| first.y <= k < y ==> #[trigger] occupied@.contains((x, k)),
        decreases u32::MAX - y,
    {
        if y == u32::MAX {
            return None;
        }
        y = y + 1;
    }
    Some((x, y))
}

} // verus!
