//! Improving closed tours through trees by 2-opt moves, with exact comparison of
//! sums of Euclidean distances.

use vstd::prelude::*;

use crate::bignat::{from_u128, nat_add, nat_less, nat_mul, nat_mul_small, nat_value};
use crate::trees::{sq_dist, sq_distance, Route, Tree};

verus! {

/// `2·(√u − √w) < d` for naturals `u`, `w`, decided over the integers: when
/// `u >= w` both sides are squared once more (`e = 4(u + w) − d²`), otherwise the
/// left side is negative and the test is on `−d` instead.
pub open spec fn twice_root_gap_less(u: int, w: int, d: int) -> bool {
    let e = 4 * (u + w) - d * d;
    if u >= w {
        d > 0 && (e < 0 || e * e < 64 * u * w)
    } else {
        d >= 0 || (e > 0 && e * e > 64 * u * w)
    }
}

/// `√p + √q < √r + √s` for naturals: after squaring both sides this reads
/// `2·√(pq) − 2·√(rs) < (r + s) − (p + q)`.
pub open spec fn root_sum_less(p: int, q: int, r: int, s: int) -> bool {
    twice_root_gap_less(p * q, r * s, (r + s) - (p + q))
}

proof fn lemma_square_less(t: int, k: int)
    requires
        t >= 0,
        k >= 0,
    ensures
        (t * t < k * k) == (t < k),
{
    if t < k {
        assert(t * t < k * k) by (nonlinear_arith)
            requires
                0 <= t < k,
        ;
    } else {
        assert(t * t >= k * k) by (nonlinear_arith)
            requires
                0 <= k <= t,
        ;
    }
}

proof fn lemma_gap_of_squares(x: int, y: int, dd: int)
    requires
        x >= 0,
        y >= 0,
    ensures
        twice_root_gap_less(x * x, y * y, dd) == (2 * (x - y) < dd),
{
    let e = 4 * (x * x + y * y) - dd * dd;
    let m = 8 * x * y;
    assert(m >= 0) by (nonlinear_arith)
        requires
            m == 8 * x * y,
            x >= 0,
            y >= 0,
    ;
    assert(64 * (x * x) * (y * y) == m * m) by (nonlinear_arith)
        requires
            m == 8 * x * y,
    ;
    assert(e - m == 4 * (x - y) * (x - y) - dd * dd) by (nonlinear_arith)
        requires
            e == 4 * (x * x + y * y) - dd * dd,
            m == 8 * x * y,
    ;
    lemma_square_less(y, x);
    lemma_square_less(x, y);
    if e >= 0 {
        lemma_square_less(e, m);
        lemma_square_less(m, e);
    }
    if x >= y {
        if dd > 0 {
            lemma_square_less(2 * (x - y), dd);
            assert(2 * (x - y) * (2 * (x - y)) == 4 * (x - y) * (x - y)) by (nonlinear_arith);
        }
    } else {
        if dd < 0 {
            lemma_square_less(-dd, 2 * (y - x));
            assert(2 * (y - x) * (2 * (y - x)) == 4 * (x - y) * (x - y)) by (nonlinear_arith);
            assert((-dd) * (-dd) == dd * dd) by (nonlinear_arith);
        }
    }
}

/// On perfect squares the exact test is the plain one: `√(a²) + √(b²) < √(c²) + √(d²)`
/// holds just when `a + b < c + d`.
pub proof fn lemma_root_sum_of_squares(a: int, b: int, c: int, d: int)
    requires
        a >= 0,
        b >= 0,
        c >= 0,
        d >= 0,
    ensures
        root_sum_less(a * a, b * b, c * c, d * d) == (a + b < c + d),
{
    let x = a * b;
    let y = c * d;
    assert((a * a) * (b * b) == x * x) by (nonlinear_arith)
        requires
            x == a * b,
    ;
    assert((c * c) * (d * d) == y * y) by (nonlinear_arith)
        requires
            y == c * d,
    ;
    assert(x >= 0 && y >= 0) by (nonlinear_arith)
        requires
            x == a * b,
            y == c * d,
            a >= 0,
            b >= 0,
            c >= 0,
            d >= 0,
    ;
    lemma_gap_of_squares(x, y, (c * c + d * d) - (a * a + b * b));
    assert((a + b) * (a + b) == a * a + b * b + 2 * x) by (nonlinear_arith)
        requires
            x == a * b,
    ;
    assert((c + d) * (c + d) == c * c + d * d + 2 * y) by (nonlinear_arith)
        requires
            y == c * d,
    ;
    lemma_square_less(a + b, c + d);
}

/// The exact test is a strict order: it never holds both ways, and never of two
/// equal sums.
pub proof fn lemma_root_sum_strict(p: int, q: int, r: int, s: int)
    ensures
        !(root_sum_less(p, q, r, s) && root_sum_less(r, s, p, q)),
        !root_sum_less(p, q, p, q),
{
    let u = p * q;
    let w = r * s;
    let dd = (r + s) - (p + q);
    assert(4 * (w + u) - (-dd) * (-dd) == 4 * (u + w) - dd * dd) by (nonlinear_arith);
    assert(64 * w * u == 64 * u * w) by (nonlinear_arith);
}

/// Whether `√p + √q < √r + √s`, computed exactly.
pub fn sqrt_sum_less(p: u128, q: u128, r: u128, s: u128) -> (b: bool)
    requires
        p < 0x4_0000_0000_0000_0000,
        q < 0x4_0000_0000_0000_0000,
        r < 0x4_0000_0000_0000_0000,
        s < 0x4_0000_0000_0000_0000,
    ensures
        b == root_sum_less(p as int, q as int, r as int, s as int),
{
    let u = nat_mul(&from_u128(p), &from_u128(q));
    let w = nat_mul(&from_u128(r), &from_u128(s));
    let left: u128 = p + q;
    let right: u128 = r + s;
    let abs_d: u128 = if left <= right { right - left } else { left - right };
    let dd = nat_mul(&from_u128(abs_d), &from_u128(abs_d));
    let big_a = nat_mul_small(&nat_add(&u, &w), 4);
    let uw = nat_mul(&u, &w);
    let lhs = nat_add(&nat_mul(&big_a, &big_a), &nat_mul(&dd, &dd));
    let rhs = nat_add(&nat_mul_small(&uw, 64), &nat_mul_small(&nat_mul(&big_a, &dd), 2));
    let u_ge_w = !nat_less(&u, &w);
    let a_lt_d = nat_less(&big_a, &dd);
    let d_lt_a = nat_less(&dd, &big_a);
    let l_lt_r = nat_less(&lhs, &rhs);
    let r_lt_l = nat_less(&rhs, &lhs);
    proof {
        let d: int = (r + s) - (p + q);
        let ui = p * q;
        let wi = r * s;
        let av = 4 * (ui + wi);
        let dv = d * d;
        assert(abs_d * abs_d == d * d) by (nonlinear_arith)
            requires
                abs_d == d || abs_d == -d,
        ;
        let e = av - dv;
        assert(e * e == av * av + dv * dv - 2 * (av * dv)) by (nonlinear_arith)
            requires
                e == av - dv,
        ;
        assert(64 * ui * wi == 64 * (ui * wi)) by (nonlinear_arith);
    }
    if u_ge_w {
        left < right && (a_lt_d || l_lt_r)
    } else {
        left <= right || (d_lt_a && r_lt_l)
    }
}

/// The squared lengths of the two edges of a closed tour through `t` that a 2-opt
/// move at `(i, j)` removes and of the two it adds; the edge after position `j`
/// leads back to the start when `j` is last.
pub open spec fn move_improves(t: Seq<Tree>, i: int, j: int) -> bool {
    let k = (j + 1) % (t.len() as int);
    root_sum_less(
        sq_dist(t[i], t[j]),
        sq_dist(t[i + 1], t[k]),
        sq_dist(t[i], t[i + 1]),
        sq_dist(t[j], t[k]),
    )
}

/// The positions a 2-opt move may take in a tour of `n` trees.
pub open spec fn is_move(n: int, i: int, j: int) -> bool {
    0 <= i && i + 2 <= j < n
}

/// `(i, j)` is the first improving move, scanning `i` and then `j` upwards, in a
/// tour of at least four trees.
pub open spec fn is_first_move(t: Seq<Tree>, i: int, j: int) -> bool {
    &&& t.len() >= 4
    &&& is_move(t.len() as int, i, j)
    &&& move_improves(t, i, j)
    &&& forall|i2: int, j2: int|
        is_move(t.len() as int, i2, j2) && (i2 < i || (i2 == i && j2 < j)) ==> !#[trigger] move_improves(t, i2, j2)
}

/// Some 2-opt move improves the tour.
pub open spec fn has_move(t: Seq<Tree>) -> bool {
    t.len() >= 4 && exists|i: int, j: int| is_move(t.len() as int, i, j) && #[trigger] move_improves(t, i, j)
}

/// The first improving move of a tour that has one.
pub open spec fn first_move(t: Seq<Tree>) -> (int, int) {
    choose|p: (int, int)| is_first_move(t, p.0, p.1)
}

/// The tour with the trees at positions `i + 1 ..= j` in reverse order.
pub open spec fn reverse_between(t: Seq<Tree>, i: int, j: int) -> Seq<Tree> {
    t.take(i + 1) + t.subrange(i + 1, j + 1).reverse() + t.skip(j + 1)
}

/// `r` is the first tour of the list with an improving move.
pub open spec fn is_first_tour(tours: Seq<Seq<Tree>>, r: int) -> bool {
    &&& 0 <= r < tours.len()
    &&& has_move(tours[r])
    &&& forall|r2: int| 0 <= r2 < r ==> !#[trigger] has_move(tours[r2])
}

/// One 2-opt step over a list of tours: the first improving move of the first tour
/// that has one, or `None` when no tour can be improved.
pub open spec fn tour_step(tours: Seq<Seq<Tree>>) -> Option<Seq<Seq<Tree>>> {
    if exists|r: int| 0 <= r < tours.len() && #[trigger] has_move(tours[r]) {
        let r = choose|r: int| is_first_tour(tours, r);
        let m = first_move(tours[r]);
        Some(tours.update(r, reverse_between(tours[r], m.0, m.1)))
    } else {
        None
    }
}

/// Up to `k` 2-opt steps, stopping early when no tour can be improved.
pub open spec fn tour_steps(tours: Seq<Seq<Tree>>, k: nat) -> Seq<Seq<Tree>>
    decreases k,
{
    if k == 0 {
        tours
    } else {
        match tour_step(tours) {
            None => tours,
            Some(next) => tour_steps(next, (k - 1) as nat),
        }
    }
}

/// The tree sequences of the routes.
pub open spec fn tours_of(routes: Seq<Route>) -> Seq<Seq<Tree>> {
    Seq::new(routes.len(), |r: int| routes[r].trees@)
}

/// There is one first improving move.
pub proof fn lemma_first_move_unique(t: Seq<Tree>, i: int, j: int)
    requires
        is_first_move(t, i, j),
    ensures
        first_move(t) == (i, j),
{
    assert(exists|p: (int, int)| is_first_move(t, p.0, p.1)) by {
        let w = (i, j);
        assert(is_first_move(t, w.0, w.1));
    }
    let p = first_move(t);
    assert(is_first_move(t, p.0, p.1));
    if p.0 < i || (p.0 == i && p.1 < j) {
        assert(!move_improves(t, p.0, p.1));
    } else if i < p.0 || (i == p.0 && j < p.1) {
        assert(!move_improves(t, i, j));
    }
}

/// There is one first improvable tour.
pub proof fn lemma_first_tour_unique(tours: Seq<Seq<Tree>>, r: int)
    requires
        is_first_tour(tours, r),
    ensures
        (choose|r2: int| is_first_tour(tours, r2)) == r,
{
    let c = choose|r2: int| is_first_tour(tours, r2);
    assert(is_first_tour(tours, c));
    if c < r {
        assert(!has_move(tours[c]));
    } else if r < c {
        assert(!has_move(tours[r]));
    }
}

proof fn lemma_first_tour_exists(tours: Seq<Seq<Tree>>, r0: int)
    requires
        0 <= r0 < tours.len(),
        has_move(tours[r0]),
    ensures
        exists|r: int| is_first_tour(tours, r),
    decreases r0,
{
    if exists|r2: int| 0 <= r2 < r0 && #[trigger] has_move(tours[r2]) {
        let r2 = choose|r2: int| 0 <= r2 < r0 && #[trigger] has_move(tours[r2]);
        lemma_first_tour_exists(tours, r2);
    } else {
        assert(is_first_tour(tours, r0));
    }
}

proof fn lemma_first_move_exists(t: Seq<Tree>, i0: int, j0: int)
    requires
        t.len() >= 4,
        is_move(t.len() as int, i0, j0),
        move_improves(t, i0, j0),
    ensures
        is_first_move(t, first_move(t).0, first_move(t).1),
    decreases i0 * t.len() + j0,
{
    let n = t.len() as int;
    if exists|i2: int, j2: int| is_move(n, i2, j2) && (i2 < i0 || (i2 == i0 && j2 < j0)) && #[trigger] move_improves(t, i2, j2) {
        let (i2, j2) = choose|i2: int, j2: int|
            is_move(n, i2, j2) && (i2 < i0 || (i2 == i0 && j2 < j0)) && #[trigger] move_improves(t, i2, j2);
        assert(i2 * n + j2 < i0 * n + j0) by (nonlinear_arith)
            requires
                0 <= i2,
                0 <= j2 < n,
                0 <= j0,
                i2 < i0 || (i2 == i0 && j2 < j0),
        ;
        assert(0 <= i2 * n + j2) by (nonlinear_arith)
            requires
                0 <= i2,
                0 <= j2,
                0 <= n,
        ;
        lemma_first_move_exists(t, i2, j2);
    } else {
        assert(is_first_move(t, i0, j0));
        lemma_first_move_unique(t, i0, j0);
    }
}

/// Reversing a stretch of a tour keeps its trees, each as often.
pub proof fn lemma_reverse_keeps(t: Seq<Tree>, i: int, j: int)
    requires
        0 <= i < j < t.len(),
    ensures
        reverse_between(t, i, j).len() == t.len(),
        reverse_between(t, i, j).to_multiset() == t.to_multiset(),
{
    let a = t.take(i + 1);
    let b = t.subrange(i + 1, j + 1);
    let c = t.skip(j + 1);
    assert(t =~= a + b + c);
    b.lemma_reverse_to_multiset();
    vstd::seq_lib::lemma_multiset_commutative(a + b, c);
    vstd::seq_lib::lemma_multiset_commutative(a, b);
    vstd::seq_lib::lemma_multiset_commutative(a + b.reverse(), c);
    vstd::seq_lib::lemma_multiset_commutative(a, b.reverse());
}

/// A 2-opt step keeps the number of tours and the trees of each, each as often.
pub proof fn lemma_tour_step_keeps(tours: Seq<Seq<Tree>>)
    ensures
        tour_step(tours) matches Some(next) ==> next.len() == tours.len() && forall|r: int|
            0 <= r < tours.len() ==> (#[trigger] next[r]).to_multiset() == tours[r].to_multiset(),
{
    if exists|r: int| 0 <= r < tours.len() && #[trigger] has_move(tours[r]) {
        let r0 = choose|r: int| 0 <= r < tours.len() && #[trigger] has_move(tours[r]);
        lemma_first_tour_exists(tours, r0);
        let r = choose|r: int| is_first_tour(tours, r);
        let t = tours[r];
        let (i0, j0) = choose|i: int, j: int| is_move(t.len() as int, i, j) && #[trigger] move_improves(t, i, j);
        lemma_first_move_exists(t, i0, j0);
        let m = first_move(t);
        lemma_reverse_keeps(t, m.0, m.1);
        let next = tours.update(r, reverse_between(t, m.0, m.1));
        assert(tour_step(tours) == Some(next));
    }
}

/// 2-opt keeps every route's trees: after any number of steps there are as many
/// tours, and each holds the same trees, each as often, as before.
pub proof fn lemma_two_opt_keeps_trees(tours: Seq<Seq<Tree>>, k: nat)
    ensures
        tour_steps(tours, k).len() == tours.len(),
        forall|r: int| 0 <= r < tours.len() ==> (#[trigger] tour_steps(tours, k)[r]).to_multiset() == tours[r].to_multiset(),
    decreases k,
{
    if k > 0 {
        lemma_tour_step_keeps(tours);
        if let Some(next) = tour_step(tours) {
            lemma_two_opt_keeps_trees(next, (k - 1) as nat);
            assert forall|r: int| 0 <= r < tours.len() implies (#[trigger] tour_steps(tours, k)[r]).to_multiset()
                == tours[r].to_multiset() by {
                assert(tour_steps(tours, k)[r] == tour_steps(next, (k - 1) as nat)[r]);
                assert(next[r].to_multiset() == tours[r].to_multiset());
            }
        }
    }
}

/// The first improving 2-opt move of a tour, if any.
fn find_move(trees: &Vec<Tree>) -> (m: Option<(usize, usize)>)
    ensures
        match m {
            Some((i, j)) => is_first_move(trees@, i as int, j as int),
            None => !has_move(trees@),
        },
{
    let n = trees.len();
    if n < 4 {
        return None;
    }
    let mut i: usize = 0;
    while i < n - 2
        invariant
            n == trees.len(),
            n >= 4,
            i <= n - 2,
            forall|i2: int, j2: int| is_move(n as int, i2, j2) && i2 < i ==> !#[trigger] move_improves(trees@, i2, j2),
        decreases n - 2 - i,
    {
        let mut j: usize = i + 2;
        while j < n
            invariant
                n == trees.len(),
                n >= 4,
                i < n - 2,
                i + 2 <= j <= n,
                forall|i2: int, j2: int| is_move(n as int, i2, j2) && i2 < i ==> !#[trigger] move_improves(trees@, i2, j2),
                forall|j2: int| is_move(n as int, i as int, j2) && j2 < j ==> !#[trigger] move_improves(trees@, i as int, j2),
            decreases n - j,
        {
            let k = (j + 1) % n;
            let a = sq_distance(&trees[i], &trees[j]);
            let b = sq_distance(&trees[i + 1], &trees[k]);
            let c = sq_distance(&trees[i], &trees[i + 1]);
            let d = sq_distance(&trees[j], &trees[k]);
            if sqrt_sum_less(a, b, c, d) {
                return Some((i, j));
            }
            j += 1;
        }
        i += 1;
    }
    None
}

/// The first route with an improving move, and that move.
fn find_route_move(routes: &[Route]) -> (m: Option<(usize, usize, usize)>)
    ensures
        match m {
            Some((r, i, j)) => is_first_tour(tours_of(routes@), r as int) && is_first_move(
                routes@[r as int].trees@,
                i as int,
                j as int,
            ),
            None => forall|r: int| 0 <= r < routes@.len() ==> !#[trigger] has_move(tours_of(routes@)[r]),
        },
{
    let mut r: usize = 0;
    while r < routes.len()
        invariant
            r <= routes.len(),
            forall|r2: int| 0 <= r2 < r ==> !#[trigger] has_move(tours_of(routes@)[r2]),
        decreases routes.len() - r,
    {
        match find_move(&routes[r].trees) {
            Some((i, j)) => {
                return Some((r, i, j));
            },
            None => {},
        }
        r += 1;
    }
    None
}

/// Reverses the trees at positions `i + 1 ..= j`.
fn reverse_segment(trees: &mut Vec<Tree>, i: usize, j: usize)
    requires
        i < j < old(trees).len(),
    ensures
        final(trees)@ == reverse_between(old(trees)@, i as int, j as int),
{
    let ghost t = trees@;
    let mut lo = i + 1;
    let mut hi = j;
    while lo < hi
        invariant
            i + 1 <= lo,
            hi <= j,
            lo + hi == i + 1 + j,
            j < t.len(),
            trees@.len() == t.len(),
            forall|k: int| 0 <= k < lo || hi < k < t.len() ==> #[trigger] trees@[k] == if i + 1 <= k <= j {
                t[i + 1 + j - k]
            } else {
                t[k]
            },
            forall|k: int| lo <= k <= hi ==> #[trigger] trees@[k] == t[k],
        decreases hi + 1 - lo,
    {
        let a = trees[lo];
        let b = trees[hi];
        trees.set(lo, b);
        trees.set(hi, a);
        lo += 1;
        hi -= 1;
    }
    assert(trees@ =~= reverse_between(t, i as int, j as int));
}

/// Applies improving 2-opt moves to the routes as closed tours, one at a time: each
/// time the first improving move of the first route that has one, until no route
/// can be improved or a hundred and one moves are made.
pub fn two_opt(routes: &mut [Route])
    ensures
        final(routes)@.len() == old(routes)@.len(),
        forall|r: int| 0 <= r < old(routes)@.len() ==> #[trigger] final(routes)@[r].charging_station == old(routes)@[r].charging_station,
        tours_of(final(routes)@) == tour_steps(tours_of(old(routes)@), 101),
        all_steps_move(tours_of(old(routes)@), 101) || no_shortening(tours_of(final(routes)@)),
{
    proof {
        lemma_two_opt_outcome(tours_of(routes@), 101);
    }
    let mut iteration: u32 = 0;
    loop
        invariant_except_break
            iteration <= 100,
            tour_steps(tours_of(old(routes)@), 101) == tour_steps(tours_of(routes@), (101 - iteration) as nat),
        invariant
            routes@.len() == old(routes)@.len(),
            forall|r: int| 0 <= r < old(routes)@.len() ==> #[trigger] routes@[r].charging_station == old(routes)@[r].charging_station,
        ensures
            tours_of(routes@) == tour_steps(tours_of(old(routes)@), 101),
        decreases 101 - iteration,
    {
        iteration += 1;
        match find_route_move(routes) {
            None => {
                proof {
                    let tv = tours_of(routes@);
                    assert(!(exists|r: int| 0 <= r < tv.len() && #[trigger] has_move(tv[r])));
                    assert(tour_step(tv) is None);
                }
                break;
            },
            Some((r, i, j)) => {
                let ghost before = tours_of(routes@);
                proof {
                    lemma_first_tour_unique(before, r as int);
                    lemma_first_move_unique(before[r as int], i as int, j as int);
                }
                reverse_segment(&mut routes[r].trees, i, j);
                proof {
                    let after = tours_of(routes@);
                    assert(after =~= before.update(r as int, reverse_between(before[r as int], i as int, j as int)));
                    assert(tour_step(before) == Some(after));
                    assert(tour_steps(before, (101 - (iteration - 1)) as nat) == tour_steps(after, (101 - iteration) as nat));
                    assert(tour_steps(after, 0) == after);
                }
                if iteration > 100 {
                    break;
                }
            },
        }
    }
}

/// Reversing the trees at positions `i + 1 ..= j` of the closed tour `t` makes it
/// shorter: the edges `t[i]–t[j]` and `t[i+1]–t[(j+1) % n]` it adds are together
/// shorter than the edges `t[i]–t[i+1]` and `t[j]–t[(j+1) % n]` it removes (the tour
/// closes from its last tree back to the first).
pub open spec fn shortens(t: Seq<Tree>, i: int, j: int) -> bool {
    root_sum_less(
        sq_dist(t[i], t[j]),
        sq_dist(t[i + 1], t[(j + 1) % (t.len() as int)]),
        sq_dist(t[i], t[i + 1]),
        sq_dist(t[j], t[(j + 1) % (t.len() as int)]),
    )
}

/// No route of at least four trees can be shortened by reversing a stretch: for
/// every `0 <= i` and `i + 2 <= j < n`, the last tree `j = n - 1` included.
pub open spec fn no_shortening(tours: Seq<Seq<Tree>>) -> bool {
    forall|r: int, i: int, j: int|
        0 <= r < tours.len() && tours[r].len() >= 4 && 0 <= i && i + 2 <= j && j < tours[r].len() ==> !#[trigger] shortens(
            tours[r],
            i,
            j,
        )
}

/// All of the first `k` steps from `tours` reverse a stretch of a route.
pub open spec fn all_steps_move(tours: Seq<Seq<Tree>>, k: nat) -> bool
    decreases k,
{
    k == 0 || match tour_step(tours) {
        Some(next) => all_steps_move(next, (k - 1) as nat),
        None => false,
    }
}

/// The reversal at `(i, j)` is the first that shortens route `r`, scanning the
/// routes in order, then `i` upwards and `j` upwards.
pub open spec fn first_shortening(tours: Seq<Seq<Tree>>, r: int, i: int, j: int) -> bool {
    &&& 0 <= r < tours.len() && tours[r].len() >= 4 && 0 <= i && i + 2 <= j && j < tours[r].len()
    &&& shortens(tours[r], i, j)
    &&& forall|r2: int| 0 <= r2 < r ==> no_shortening(seq![#[trigger] tours[r2]])
    &&& forall|i2: int, j2: int|
        0 <= i2 && i2 + 2 <= j2 && j2 < tours[r].len() && (i2 < i || (i2 == i && j2 < j)) ==> !#[trigger] shortens(
            tours[r],
            i2,
            j2,
        )
}

/// One step of 2-opt: it stops exactly when no route can be shortened, and
/// otherwise reverses the stretch `i + 1 ..= j` of the first route and the first
/// positions at which that shortens it.
pub proof fn lemma_two_opt_step(tours: Seq<Seq<Tree>>)
    ensures
        tour_step(tours) is None <==> no_shortening(tours),
        tour_step(tours) matches Some(next) ==> exists|r: int, i: int, j: int|
            #[trigger] first_shortening(tours, r, i, j) && next == tours.update(r, reverse_between(tours[r], i, j)),
{
    if exists|r: int| 0 <= r < tours.len() && #[trigger] has_move(tours[r]) {
        let r0 = choose|r: int| 0 <= r < tours.len() && #[trigger] has_move(tours[r]);
        lemma_first_tour_exists(tours, r0);
        let r = choose|r: int| is_first_tour(tours, r);
        let t = tours[r];
        let (i0, j0) = choose|i: int, j: int| is_move(t.len() as int, i, j) && #[trigger] move_improves(t, i, j);
        lemma_first_move_exists(t, i0, j0);
        let m = first_move(t);
        assert(shortens(t, m.0, m.1));
        assert(!no_shortening(tours)) by {
            assert(shortens(tours[r], m.0, m.1));
        }
        assert forall|r2: int| 0 <= r2 < r implies no_shortening(seq![#[trigger] tours[r2]]) by {
            assert(!has_move(tours[r2]));
            let one = seq![tours[r2]];
            assert forall|q: int, i2: int, j2: int|
                0 <= q < one.len() && one[q].len() >= 4 && 0 <= i2 && i2 + 2 <= j2 && j2 < one[q].len() implies !#[trigger] shortens(
                    one[q],
                    i2,
                    j2,
                ) by {
                if shortens(one[q], i2, j2) {
                    assert(move_improves(tours[r2], i2, j2));
                }
            }
        }
        assert forall|i2: int, j2: int|
            0 <= i2 && i2 + 2 <= j2 && j2 < t.len() && (i2 < m.0 || (i2 == m.0 && j2 < m.1)) implies !#[trigger] shortens(
                t,
                i2,
                j2,
            ) by {
            assert(is_move(t.len() as int, i2, j2));
            assert(!move_improves(t, i2, j2));
        }
        assert(first_shortening(tours, r, m.0, m.1));
    } else {
        assert forall|r: int, i: int, j: int|
            0 <= r < tours.len() && tours[r].len() >= 4 && 0 <= i && i + 2 <= j && j < tours[r].len() implies !#[trigger] shortens(
                tours[r],
                i,
                j,
            ) by {
            if shortens(tours[r], i, j) {
                assert(move_improves(tours[r], i, j));
                assert(has_move(tours[r]));
            }
        }
    }
}

/// 2-opt stops only at tours that no move shortens: after up to `k` steps, either
/// every one of the `k` steps shortened a route, or no route can be shortened by
/// any move.
pub proof fn lemma_two_opt_outcome(tours: Seq<Seq<Tree>>, k: nat)
    ensures
        all_steps_move(tours, k) || no_shortening(tour_steps(tours, k)),
    decreases k,
{
    lemma_two_opt_step(tours);
    if k > 0 {
        if let Some(next) = tour_step(tours) {
            lemma_two_opt_outcome(next, (k - 1) as nat);
        }
    }
}

} // verus!
