//! Natural numbers of any size as little-endian sequences of 64-bit limbs, with
//! the few operations that exact distance comparisons need.

use vstd::prelude::*;

verus! {

/// The limb base, 2^64.
pub open spec fn limb_base() -> int {
    0x1_0000_0000_0000_0000
}

/// `limb_base()` to the power `k`.
pub open spec fn pw(k: nat) -> int
    decreases k,
{
    if k == 0 {
        1
    } else {
        limb_base() * pw((k - 1) as nat)
    }
}

/// The number that little-endian limbs `s` stand for.
pub open spec fn nat_value(s: Seq<u64>) -> int
    decreases s.len(),
{
    if s.len() == 0 {
        0
    } else {
        nat_value(s.drop_last()) + s.last() * pw((s.len() - 1) as nat)
    }
}

proof fn lemma_pw_pos(k: nat)
    ensures
        pw(k) >= 1,
    decreases k,
{
    if k > 0 {
        lemma_pw_pos((k - 1) as nat);
        let p = pw((k - 1) as nat);
        assert(limb_base() * p >= 1) by (nonlinear_arith)
            requires
                p >= 1,
        ;
    }
}

proof fn lemma_pw_add(j: nat, k: nat)
    ensures
        pw(j + k) == pw(j) * pw(k),
    decreases k,
{
    if k > 0 {
        lemma_pw_add(j, (k - 1) as nat);
        let a = pw(j);
        let b = pw((k - 1) as nat);
        assert(pw((j + k) as nat) == limb_base() * pw((j + k - 1) as nat));
        assert(limb_base() * (a * b) == a * (limb_base() * b)) by (nonlinear_arith);
    }
}

proof fn lemma_value_take_step(s: Seq<u64>, i: int)
    requires
        0 <= i < s.len(),
    ensures
        nat_value(s.take(i + 1)) == nat_value(s.take(i)) + s[i] * pw(i as nat),
{
    assert(s.take(i + 1).drop_last() =~= s.take(i));
}

proof fn lemma_value_bound(s: Seq<u64>)
    ensures
        0 <= nat_value(s) < pw(s.len()),
    decreases s.len(),
{
    if s.len() > 0 {
        let d = s.drop_last();
        lemma_value_bound(d);
        lemma_pw_pos(d.len());
        let v = nat_value(d);
        let p = pw(d.len());
        let l = s.last() as int;
        assert(0 <= v + l * p < limb_base() * p) by (nonlinear_arith)
            requires
                0 <= v < p,
                0 <= l < limb_base(),
                p >= 1,
        ;
    }
}

proof fn lemma_value_push_zero(s: Seq<u64>)
    ensures
        nat_value(s.push(0)) == nat_value(s),
{
    assert(s.push(0).drop_last() =~= s);
    assert(0 * pw(s.len()) == 0);
}

proof fn lemma_value_shift(z: nat, s: Seq<u64>)
    ensures
        nat_value(Seq::new(z, |i: int| 0u64) + s) == pw(z) * nat_value(s),
    decreases s.len(),
{
    let zs = Seq::new(z, |i: int| 0u64);
    if s.len() == 0 {
        assert(zs + s =~= zs);
        lemma_value_zeros(z);
    } else {
        let d = s.drop_last();
        assert((zs + s).drop_last() =~= zs + d);
        lemma_value_shift(z, d);
        lemma_pw_add(z, (s.len() - 1) as nat);
        let a = pw(z);
        let b = pw((s.len() - 1) as nat);
        let l = s.last() as int;
        let v = nat_value(d);
        assert(a * v + l * (a * b) == a * (v + l * b)) by (nonlinear_arith);
    }
}

proof fn lemma_value_zeros(z: nat)
    ensures
        nat_value(Seq::new(z, |i: int| 0u64)) == 0,
    decreases z,
{
    if z > 0 {
        assert(Seq::new(z, |i: int| 0u64).drop_last() =~= Seq::new((z - 1) as nat, |i: int| 0u64));
        lemma_value_zeros((z - 1) as nat);
    }
}

/// Limbs above position `k` that agree contribute equally.
proof fn lemma_value_top_equal(a: Seq<u64>, b: Seq<u64>, k: int)
    requires
        a.len() == b.len(),
        0 <= k <= a.len(),
        forall|t: int| k <= t < a.len() ==> a[t] == b[t],
    ensures
        nat_value(a) - nat_value(a.take(k)) == nat_value(b) - nat_value(b.take(k)),
    decreases a.len(),
{
    if a.len() == k {
        assert(a.take(k) =~= a);
        assert(b.take(k) =~= b);
    } else {
        lemma_value_top_equal(a.drop_last(), b.drop_last(), k);
        assert(a.drop_last().take(k) =~= a.take(k));
        assert(b.drop_last().take(k) =~= b.take(k));
        assert(a.last() == b.last());
    }
}

/// The limbs of a 128-bit number.
pub fn from_u128(x: u128) -> (r: Vec<u64>)
    ensures
        nat_value(r@) == x,
        r.len() == 2,
{
    let lo = (x % 0x1_0000_0000_0000_0000) as u64;
    let hi = (x / 0x1_0000_0000_0000_0000) as u64;
    let mut r = Vec::new();
    r.push(lo);
    r.push(hi);
    proof {
        assert(x == hi * limb_base() + lo);
        assert(r@.drop_last() =~= seq![lo]);
        assert(seq![lo].drop_last() =~= Seq::<u64>::empty());
        assert(pw(0) == 1);
        assert(pw(1) == limb_base() * pw(0));
        assert(nat_value(seq![lo]) == nat_value(Seq::<u64>::empty()) + lo * pw(0));
        assert(nat_value(r@) == nat_value(seq![lo]) + hi * pw(1));
    }
    r
}

/// Appends zero limbs until `a` has `n` limbs.
fn pad(a: &mut Vec<u64>, n: usize)
    requires
        old(a).len() <= n,
    ensures
        final(a).len() == n,
        nat_value(final(a)@) == nat_value(old(a)@),
{
    while a.len() < n
        invariant
            a.len() <= n,
            nat_value(a@) == nat_value(old(a)@),
        decreases n - a.len(),
    {
        proof {
            lemma_value_push_zero(a@);
        }
        a.push(0);
    }
}

/// Sum of two numbers.
pub fn nat_add(a: &Vec<u64>, b: &Vec<u64>) -> (r: Vec<u64>)
    requires
        a.len() < 1000,
        b.len() < 1000,
    ensures
        nat_value(r@) == nat_value(a@) + nat_value(b@),
        r.len() <= if a.len() > b.len() { a.len() + 1 } else { b.len() + 1 },
{
    let n = if a.len() > b.len() { a.len() } else { b.len() };
    let mut x = a.clone();
    let mut y = b.clone();
    pad(&mut x, n);
    pad(&mut y, n);
    let mut r: Vec<u64> = Vec::new();
    let mut carry: u128 = 0;
    let mut i: usize = 0;
    while i < n
        invariant
            x.len() == n,
            y.len() == n,
            i <= n,
            r.len() == i,
            carry <= 1,
            nat_value(r@) + carry * pw(i as nat) == nat_value(x@.take(i as int)) + nat_value(y@.take(i as int)),
        decreases n - i,
    {
        let t: u128 = x[i] as u128 + y[i] as u128 + carry;
        let lo = (t % 0x1_0000_0000_0000_0000) as u64;
        let c2: u128 = t / 0x1_0000_0000_0000_0000;
        proof {
            lemma_value_take_step(x@, i as int);
            lemma_value_take_step(y@, i as int);
            assert(r@.push(lo).drop_last() =~= r@);
            let p = pw(i as nat);
            assert(pw((i + 1) as nat) == limb_base() * p);
            assert(lo * p + c2 * (limb_base() * p) == t * p) by (nonlinear_arith)
                requires
                    t == c2 * limb_base() + lo,
            ;
            assert(carry * p + x@[i as int] * p + y@[i as int] * p == t * p) by (nonlinear_arith)
                requires
                    t == x@[i as int] + y@[i as int] + carry,
            ;
        }
        r.push(lo);
        carry = c2;
        i += 1;
    }
    proof {
        assert(x@.take(n as int) =~= x@);
        assert(y@.take(n as int) =~= y@);
        assert(r@.push(carry as u64).drop_last() =~= r@);
    }
    r.push(carry as u64);
    r
}

/// Product of a number and one limb.
pub fn nat_mul_small(a: &Vec<u64>, m: u64) -> (r: Vec<u64>)
    requires
        a.len() < 1000,
    ensures
        nat_value(r@) == nat_value(a@) * m,
        r.len() == a.len() + 1,
{
    let mut r: Vec<u64> = Vec::new();
    let mut carry: u128 = 0;
    let mut i: usize = 0;
    while i < a.len()
        invariant
            i <= a.len(),
            r.len() == i,
            carry < limb_base(),
            nat_value(r@) + carry * pw(i as nat) == nat_value(a@.take(i as int)) * m,
        decreases a.len() - i,
    {
        let ai = a[i];
        assert(ai as u128 * m as u128 <= 0xffff_ffff_ffff_fffe_0000_0000_0000_0001) by (nonlinear_arith)
            requires
                ai < 0x1_0000_0000_0000_0000,
                m < 0x1_0000_0000_0000_0000,
        ;
        let t: u128 = ai as u128 * m as u128 + carry;
        let lo = (t % 0x1_0000_0000_0000_0000) as u64;
        let c2: u128 = t / 0x1_0000_0000_0000_0000;
        proof {
            lemma_value_take_step(a@, i as int);
            assert(r@.push(lo).drop_last() =~= r@);
            let p = pw(i as nat);
            assert(pw((i + 1) as nat) == limb_base() * p);
            assert(lo * p + c2 * (limb_base() * p) == t * p) by (nonlinear_arith)
                requires
                    t == c2 * limb_base() + lo,
            ;
            let v = nat_value(a@.take(i as int));
            assert(carry * p + (v + ai * p) * m == v * m + t * p) by (nonlinear_arith)
                requires
                    t == ai * m + carry,
            ;
        }
        r.push(lo);
        carry = c2;
        i += 1;
    }
    proof {
        assert(a@.take(a.len() as int) =~= a@);
        assert(r@.push(carry as u64).drop_last() =~= r@);
    }
    r.push(carry as u64);
    r
}

/// The number times `pw(z)`: `z` zero limbs, then `a`.
fn shifted(a: &Vec<u64>, z: usize) -> (r: Vec<u64>)
    requires
        a.len() + z < 10000,
    ensures
        nat_value(r@) == pw(z as nat) * nat_value(a@),
        r.len() == a.len() + z,
{
    let mut r: Vec<u64> = Vec::new();
    let mut i: usize = 0;
    while i < z
        invariant
            i <= z,
            r@ == Seq::new(i as nat, |k: int| 0u64),
        decreases z - i,
    {
        r.push(0);
        i += 1;
        assert(r@ =~= Seq::new(i as nat, |k: int| 0u64));
    }
    let mut j: usize = 0;
    while j < a.len()
        invariant
            j <= a.len(),
            r@ == Seq::new(z as nat, |k: int| 0u64) + a@.take(j as int),
        decreases a.len() - j,
    {
        r.push(a[j]);
        j += 1;
        assert(r@ =~= Seq::new(z as nat, |k: int| 0u64) + a@.take(j as int));
    }
    proof {
        assert(a@.take(a.len() as int) =~= a@);
        lemma_value_shift(z as nat, a@);
    }
    r
}

/// Product of two numbers.
pub fn nat_mul(a: &Vec<u64>, b: &Vec<u64>) -> (r: Vec<u64>)
    requires
        a.len() < 100,
        b.len() < 100,
    ensures
        nat_value(r@) == nat_value(a@) * nat_value(b@),
        r.len() <= a.len() + b.len() + 1,
{
    let mut acc: Vec<u64> = Vec::new();
    let mut k: usize = 0;
    while k < b.len()
        invariant
            a.len() < 100,
            b.len() < 100,
            k <= b.len(),
            acc.len() <= a.len() + k + 1,
            nat_value(acc@) == nat_value(a@) * nat_value(b@.take(k as int)),
        decreases b.len() - k,
    {
        let part = nat_mul_small(a, b[k]);
        let sh = shifted(&part, k);
        let next = nat_add(&acc, &sh);
        proof {
            lemma_value_take_step(b@, k as int);
            let va = nat_value(a@);
            let vb = nat_value(b@.take(k as int));
            let p = pw(k as nat);
            let bk = b@[k as int] as int;
            assert(va * vb + p * (va * bk) == va * (vb + bk * p)) by (nonlinear_arith);
        }
        acc = next;
        k += 1;
    }
    proof {
        assert(b@.take(b.len() as int) =~= b@);
    }
    acc
}

/// Whether the first number is smaller than the second.
pub fn nat_less(a: &Vec<u64>, b: &Vec<u64>) -> (r: bool)
    requires
        a.len() < 1000,
        b.len() < 1000,
    ensures
        r == (nat_value(a@) < nat_value(b@)),
{
    let n = if a.len() > b.len() { a.len() } else { b.len() };
    let mut x = a.clone();
    let mut y = b.clone();
    pad(&mut x, n);
    pad(&mut y, n);
    let mut i: usize = n;
    while i > 0
        invariant
            x.len() == n,
            y.len() == n,
            i <= n,
            nat_value(x@) == nat_value(a@),
            nat_value(y@) == nat_value(b@),
            forall|t: int| i <= t < n ==> x@[t] == y@[t],
        decreases i,
    {
        let t = i - 1;
        if x[t] != y[t] {
            proof {
                lemma_value_top_equal(x@, y@, t + 1);
                lemma_value_take_step(x@, t as int);
                lemma_value_take_step(y@, t as int);
                lemma_value_bound(x@.take(t as int));
                lemma_value_bound(y@.take(t as int));
                let p = pw(t as nat);
                let vx = nat_value(x@.take(t as int));
                let vy = nat_value(y@.take(t as int));
                let xt = x@[t as int] as int;
                let yt = y@[t as int] as int;
                if xt < yt {
                    assert(vx + xt * p < vy + yt * p) by (nonlinear_arith)
                        requires
                            0 <= vx < p,
                            0 <= vy,
                            xt < yt,
                    ;
                } else {
                    assert(vy + yt * p < vx + xt * p) by (nonlinear_arith)
                        requires
                            0 <= vy < p,
                            0 <= vx,
                            yt < xt,
                    ;
                }
            }
            proof {
                assert(nat_value(x@) == nat_value(a@));
                assert(nat_value(y@) == nat_value(b@));
                assert(nat_value(x@.take(t + 1)) == nat_value(x@.take(t as int)) + x@[t as int] * pw(t as nat));
                assert((x@[t as int] < y@[t as int]) == (nat_value(x@) < nat_value(y@)));
            }
            return x[t] < y[t];
        }
        i = t;
    }
    proof {
        assert(x@ =~= y@);
    }
    false
}

} // verus!
