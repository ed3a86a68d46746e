//! What rounding promises: no number of 53 bits is nearer to what was to be computed.

use crate::double;
use vstd::arithmetic::div_mod::*;
use vstd::arithmetic::power2::*;
use vstd::prelude::*;

verus! {

/// The number `a`, counted in units of two to the minus `s`-th.
pub open spec fn at(a: (nat, int), s: int) -> int {
    a.0 * pow2((a.1 + s) as nat) as int
}

/// No multiple of its unit is nearer to `x` over `d` than `r` is, and where it lies halfway
/// between two, `r` is the even one. Both are counted in units of two to the minus `s`-th.
pub open spec fn near(x: int, d: int, r: (nat, int), s: int) -> bool {
    let unit = d * pow2((r.1 + s) as nat);
    let off = 2 * (x - r.0 * unit);
    &&& -unit <= off <= unit
    &&& off == unit || off == -unit ==> r.0 % 2 == 0
}

proof fn nearest_is_near(n: int, p: int)
    requires
        n >= 0,
        p > 0,
    ensures
        ({
            let m = double::nearest(n as nat, p as nat) as int;
            let off = 2 * (n - m * p);
            &&& -p <= off <= p
            &&& off == p || off == -p ==> m % 2 == 0
        }),
{
    lemma_fundamental_div_mod(n, p);
    lemma_mod_bound(n, p);
    let (q, r) = (n / p, n % p);
    let m = double::nearest(n as nat, p as nat) as int;
    assert(q >= 0) by {
        lemma_div_pos_is_pos(n, p);
    }
    assert(q * p == p * q && (q + 1) * p == q * p + p) by (nonlinear_arith);
    assert(m == q || m == q + 1);
}

proof fn ratios_are_nearest(n: nat, d: nat, e: int, s: int)
    requires
        d > 0,
        e + s >= 0,
    ensures
        near(
            n * pow2((e + s) as nat) as int,
            d as int,
            double::rounded_ratio(n, d, e),
            s,
        ),
        double::rounded_ratio(n, d, e).1 >= e,
{
    let k = double::halvings(n / d, e);
    let w = pow2((e + s) as nat) as int;
    let f = pow2(k) as int;
    lemma_pow2_pos(k);
    lemma_pow2_pos((e + s) as nat);
    let p = d * f;
    assert(p > 0) by (nonlinear_arith)
        requires
            p == d * f,
            d > 0,
            f > 0,
    ;
    nearest_is_near(n as int, p);
    let m = double::nearest(n, p as nat) as int;
    assert(double::nearest(n, d * pow2(k)) == m);
    lemma_pow2_adds(k, (e + s) as nat);
    assert(pow2((e + k + s) as nat) == f * w) by {
        assert((k + (e + s) as nat) as int == e + k + s);
    }
    let x = n * w;
    let unit = d * (f * w);
    assert(unit == p * w && 2 * (x - m * unit) == 2 * (n - m * p) * w) by (nonlinear_arith)
        requires
            p == d * f,
            unit == d * (f * w),
            x == n * w,
    ;
    let off = 2 * (n - m * p);
    assert(-unit <= off * w <= unit && (off * w == unit ==> off == p) && (off * w == -unit ==> off
        == -p)) by (nonlinear_arith)
        requires
            unit == p * w,
            -p <= off <= p,
            w > 0,
    ;
    let r = double::rounded_ratio(n, d, e);
    if m == double::TOP {
        lemma_pow2_unfold((e + k + s + 1) as nat);
        let half = (double::TOP / 2) as int;
        assert(pow2((r.1 + s) as nat) == 2 * (f * w));
        assert(d * (2 * (f * w)) == 2 * unit && half * (2 * unit) == m * unit && unit > 0)
            by (nonlinear_arith)
            requires
                unit == d * (f * w),
                m == 2 * half,
                d > 0,
                f > 0,
                w > 0,
        ;
    }
}

proof fn lifting_keeps_the_value(n: nat, e: int, s: int)
    requires
        e + s >= 0,
        double::LEAST + s >= 0,
    ensures
        at(double::lifted(n, e), s) == n * pow2((e + s) as nat),
        double::lifted(n, e).1 + s >= 0,
    decreases
            if n < double::TOP {
                double::TOP - n
            } else {
                0
            },
{
    if 0 < n < double::TOP / 2 && e > double::LEAST {
        lifting_keeps_the_value(2 * n, e - 1, s);
        lemma_pow2_unfold((e + s) as nat);
        let p = pow2((e - 1 + s) as nat);
        assert(2 * n * p == n * (2 * p)) by (nonlinear_arith);
    }
}

/// Rounding `n` times two to the `e`-th gives the nearest number, and of two the even one.
pub proof fn numbers_are_nearest(n: nat, e: int, s: int)
    requires
        e + s >= 0,
        double::LEAST + s >= 0,
    ensures
        near(n * pow2((e + s) as nat) as int, 1, double::rounded(n, e), s),
{
    lifting_keeps_the_value(n, e, s);
    let (m, f) = double::lifted(n, e);
    ratios_are_nearest(m, 1, f, s);
}

/// A product is the number nearest to what the two multiply to.
pub proof fn products_are_nearest(a: (nat, int), b: (nat, int), s: int)
    requires
        a.1 + b.1 + s >= 0,
        double::LEAST + s >= 0,
    ensures
        near(a.0 * b.0 * pow2((a.1 + b.1 + s) as nat) as int, 1, double::product(a, b), s),
{
    numbers_are_nearest(a.0 * b.0, a.1 + b.1, s);
}

proof fn sums_in_order(a: (nat, int), b: (nat, int), s: int)
    requires
        a.1 <= b.1,
        a.1 + s >= 0,
        double::LEAST + s >= 0,
    ensures
        near(
            at(a, s) + at(b, s),
            1,
            double::rounded(a.0 + b.0 * pow2((b.1 - a.1) as nat), a.1),
            s,
        ),
{
    let d = (b.1 - a.1) as nat;
    let n = a.0 + b.0 * pow2(d);
    numbers_are_nearest(n, a.1, s);
    let w = pow2((a.1 + s) as nat);
    lemma_pow2_adds(d, (a.1 + s) as nat);
    assert((d + (a.1 + s) as nat) as int == b.1 + s);
    let p = pow2(d);
    assert((a.0 + b.0 * p) * w == a.0 * w + b.0 * (p * w)) by (nonlinear_arith);
}

/// A sum is the number nearest to what the two add up to.
pub proof fn sums_are_nearest(a: (nat, int), b: (nat, int), s: int)
    requires
        a.1 + s >= 0,
        b.1 + s >= 0,
        double::LEAST + s >= 0,
    ensures
        near(at(a, s) + at(b, s), 1, double::sum(a, b), s),
{
    lemma_pow2_pos((a.1 + s) as nat);
    lemma_pow2_pos((b.1 + s) as nat);
    let (p, q) = (pow2((a.1 + s) as nat), pow2((b.1 + s) as nat));
    assert(0 * p == 0 && 0 * q == 0);
    if a.0 == 0 || b.0 == 0 {
    } else if a.1 <= b.1 {
        sums_in_order(a, b, s);
    } else {
        sums_in_order(b, a, s);
    }
}

/// A quotient is the number nearest to what the first over the second is.
pub proof fn quotients_are_nearest(a: (nat, int), b: (nat, int), s: int)
    requires
        b.0 > 0,
        a.1 - b.1 - 64 + s >= 0,
        a.0 == 0 ==> a.1 + s >= 0,
    ensures
        near(a.0 * pow2((a.1 - b.1 + s) as nat) as int, b.0 as int, double::quotient(a, b), s),
{
    let e = a.1 - b.1 - 64;
    if a.0 == 0 {
        lemma_pow2_pos((a.1 + s) as nat);
        let (p, unit) = (pow2((a.1 - b.1 + s) as nat), b.0 * pow2((a.1 + s) as nat));
        let w = pow2((a.1 + s) as nat);
        assert(0 * p == 0 && 0 * unit == 0);
        assert(b.0 * w > 0) by (nonlinear_arith)
            requires
                b.0 > 0,
                w > 0,
        ;
    } else {
        ratios_are_nearest(a.0 * pow2(64), b.0, e, s);
        let w = pow2((e + s) as nat);
        lemma_pow2_adds(64, (e + s) as nat);
        assert((64 + (e + s) as nat) as int == a.1 - b.1 + s);
        let f = pow2(64);
        assert(a.0 * f * w == a.0 * (f * w)) by (nonlinear_arith);
    }
}

/// One number is below another where its value is.
pub proof fn numbers_compare_by_what_they_are(a: (nat, int), b: (nat, int), s: int)
    requires
        a.1 + s >= 0,
        b.1 + s >= 0,
    ensures
        double::below(a, b) <==> at(a, s) < at(b, s),
{
    if a.1 <= b.1 {
        let d = (b.1 - a.1) as nat;
        scaled_in_order(a.0, b.0, d, (a.1 + s) as nat);
        assert((d + (a.1 + s) as nat) as int == b.1 + s);
    } else {
        let d = (a.1 - b.1) as nat;
        scaled_in_order(b.0, a.0, d, (b.1 + s) as nat);
        assert((d + (b.1 + s) as nat) as int == a.1 + s);
    }
}

proof fn scaled_in_order(x: nat, y: nat, d: nat, k: nat)
    ensures
        x < y * pow2(d) <==> x * pow2(k) < y * pow2(d + k),
        y * pow2(d) < x <==> y * pow2(d + k) < x * pow2(k),
{
    lemma_pow2_adds(d, k);
    lemma_pow2_pos(k);
    let (p, w, v) = (pow2(d), pow2(k), pow2(d + k));
    assert((x < y * p <==> x * w < y * v) && (y * p < x <==> y * v < x * w)) by (nonlinear_arith)
        requires
            v == p * w,
            w > 0,
    ;
}

/// The whole part of a number is the largest whole number that is not above it, and its ceiling
/// the smallest that is not below it.
pub proof fn wholes_enclose(a: (nat, int), s: int)
    requires
        a.1 + s >= 0,
        s >= 0,
    ensures
        double::whole(a) * pow2(s as nat) <= at(a, s) < (double::whole(a) + 1) * pow2(s as nat),
        (double::ceiling(a) - 1) * pow2(s as nat) < at(a, s) <= double::ceiling(a) * pow2(
            s as nat,
        ),
{
    let u = pow2(s as nat) as int;
    lemma_pow2_pos(s as nat);
    if a.1 >= 0 {
        lemma_pow2_adds(a.1 as nat, s as nat);
        let (m, p) = (a.0 as int, pow2(a.1 as nat) as int);
        assert((a.1 as nat + s as nat) as int == a.1 + s);
        let w = m * p;
        assert(m * (p * u) == w * u && (w + 1) * u == w * u + u && (w - 1) * u == w * u - u)
            by (nonlinear_arith)
            requires
                w == m * p,
        ;
    } else {
        let k = (-a.1) as nat;
        let (m, p) = (a.0 as int, pow2(k) as int);
        lemma_pow2_pos(k);
        lemma_pow2_adds(k, (a.1 + s) as nat);
        assert((k + (a.1 + s) as nat) as int == s);
        let v = pow2((a.1 + s) as nat) as int;
        lemma_pow2_pos((a.1 + s) as nat);
        lemma_fundamental_div_mod(m, p);
        lemma_mod_bound(m, p);
        lemma_fundamental_div_mod(m + p - 1, p);
        lemma_mod_bound(m + p - 1, p);
        let (q, r) = (m / p, m % p);
        let (c, t) = ((m + p - 1) / p, (m + p - 1) % p);
        assert(q * u <= m * v && m * v < (q + 1) * u) by (nonlinear_arith)
            requires
                m == p * q + r,
                0 <= r < p,
                u == p * v,
                v > 0,
        ;
        assert((c - 1) * u < m * v && m * v <= c * u) by (nonlinear_arith)
            requires
                m + p - 1 == p * c + t,
                0 <= t < p,
                u == p * v,
                v > 0,
        ;
        assert(double::ceiling(a) == c);
    }
}

/// A whole number is endless from halfway between the largest number there is and the next one
/// there would be.
pub proof fn endless_is_halfway_past_the_largest()
    ensures
        2 * double::endless() == at(((double::TOP - 1) as nat, double::MOST as int), 0) + at(
            (double::TOP as nat, double::MOST as int),
            0,
        ),
{
    lemma2_to64();
    lemma2_to64_rest();
    lemma_pow2_adds(53, 971);
    lemma_pow2_unfold(971);
    let h = pow2(970) as int;
    assert(pow2(971) == 2 * h);
    assert(pow2(1024) == pow2(53) * pow2(971));
    assert(pow2(53) == double::TOP);
    assert(double::TOP * (2 * h) == 2 * (double::TOP * h)) by (nonlinear_arith);
    assert((double::TOP - 1) * (2 * h) == 2 * (double::TOP * h) - 2 * h) by (nonlinear_arith);
}

} // verus!
