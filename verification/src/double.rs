//! Sizes and running averages, kept the way a double keeps them.
//!
//! A number is a whole multiple of a power of two. After every operation it is rounded to
//! 53 bits: to the nearest such number, and where two are equally near, to the even one.
//! None of them goes below zero, so there is no sign.

use crate::text;
use vstd::arithmetic::div_mod::*;
use vstd::arithmetic::power2::*;
use vstd::prelude::*;

verus! {

/// A number has fewer bits than this stands for: two to the 53rd.
pub const TOP: u64 = 0x20_0000_0000_0000;

/// The smallest exponent there is.
pub const LEAST: i64 = -1074;

/// The largest exponent there is.
pub const MOST: i64 = 971;

/// `m` times two to the `e`-th.
#[derive(Debug, Clone, Copy, PartialEq, Eq, Structural)]
pub struct Double {
    m: u64,
    e: i64,
}

/// There is such a number: it has all 53 bits, or is as small as numbers get.
pub open spec fn fits(a: (nat, int)) -> bool {
    is_full(a) && a.1 <= MOST
}

pub open spec fn is_full(a: (nat, int)) -> bool {
    &&& a.0 < TOP
    &&& a.1 >= LEAST
    &&& a.0 == 0 || a.0 >= TOP / 2 || a.1 == LEAST
}

/// The same number with all 53 bits, as far as exponents go.
pub open spec fn lifted(n: nat, e: int) -> (nat, int)
    decreases
            if n < TOP {
                TOP - n
            } else {
                0
            },
{
    if 0 < n < TOP / 2 && e > LEAST {
        lifted(2 * n, e - 1)
    } else {
        (n, e)
    }
}

/// How often `n` times two to the `e`-th has to be halved, each time with the next larger
/// exponent, until it has at most 53 bits and an exponent that there is.
pub open spec fn halvings(n: nat, e: int) -> nat
    decreases
            n + if e < LEAST {
                LEAST - e
            } else {
                0
            },
{
    if n < TOP && e >= LEAST {
        0
    } else {
        1 + halvings(n / 2, e + 1)
    }
}

/// `n / p` to the nearest whole number, the even one of two equally near.
pub open spec fn nearest(n: nat, p: nat) -> nat {
    let (q, r) = (n / p, n % p);
    if 2 * r > p || (2 * r == p && q % 2 == 1) {
        q + 1
    } else {
        q
    }
}

/// `n / d` times two to the `e`-th, rounded.
pub open spec fn rounded_ratio(n: nat, d: nat, e: int) -> (nat, int) {
    let k = halvings(n / d, e);
    let m = nearest(n, d * pow2(k));
    if m == TOP {
        (TOP as nat / 2, e + k + 1)
    } else {
        (m, e + k)
    }
}

/// `n` times two to the `e`-th, rounded.
pub open spec fn rounded(n: nat, e: int) -> (nat, int) {
    let (n, e) = lifted(n, e);
    rounded_ratio(n, 1, e)
}

/// The product, rounded.
pub open spec fn product(a: (nat, int), b: (nat, int)) -> (nat, int) {
    rounded(a.0 * b.0, a.1 + b.1)
}

/// The sum, rounded.
pub open spec fn sum(a: (nat, int), b: (nat, int)) -> (nat, int) {
    if a.0 == 0 {
        b
    } else if b.0 == 0 {
        a
    } else if a.1 <= b.1 {
        rounded(a.0 + b.0 * pow2((b.1 - a.1) as nat), a.1)
    } else {
        rounded(a.0 * pow2((a.1 - b.1) as nat) + b.0, b.1)
    }
}

/// The quotient of two numbers that have all their bits, or of which the first is no
/// smaller, rounded.
pub open spec fn quotient(a: (nat, int), b: (nat, int)) -> (nat, int) {
    if a.0 == 0 {
        a
    } else {
        rounded_ratio(a.0 * pow2(64), b.0, a.1 - b.1 - 64)
    }
}

/// The largest whole number that is no larger.
pub open spec fn whole(a: (nat, int)) -> nat {
    if a.1 >= 0 {
        a.0 * pow2(a.1 as nat)
    } else {
        a.0 / pow2((-a.1) as nat)
    }
}

/// The number itself, or the largest that there is.
pub open spec fn at_most_largest(a: (nat, int)) -> (nat, int) {
    if a.1 > MOST {
        ((TOP - 1) as nat, MOST as int)
    } else {
        a
    }
}

/// `a` times `w`, and `b` times `v`.
pub open spec fn blended(a: (nat, int), w: (nat, int), b: (nat, int), v: (nat, int)) -> (nat, int) {
    at_most_largest(sum(product(a, w), product(b, v)))
}

/// The smallest whole number that is no smaller.
pub open spec fn ceiling(a: (nat, int)) -> nat {
    if a.1 >= 0 {
        a.0 * pow2(a.1 as nat)
    } else {
        let p = pow2((-a.1) as nat);
        (a.0 + p - 1) as nat / p
    }
}

/// `a` is smaller than `b`.
pub open spec fn below(a: (nat, int), b: (nat, int)) -> bool {
    if a.1 <= b.1 {
        a.0 < b.0 * pow2((b.1 - a.1) as nat)
    } else {
        a.0 * pow2((a.1 - b.1) as nat) < b.0
    }
}

impl View for Double {
    type V = (nat, int);

    closed spec fn view(&self) -> (nat, int) {
        (self.m as nat, self.e as int)
    }
}

/// Where the halving stops.
proof fn halvings_are(n: nat, e: int, k: nat)
    requires
        n / pow2(k) < TOP,
        e + k >= LEAST,
        k == 0 || n / pow2((k - 1) as nat) >= TOP || e + k - 1 < LEAST,
    ensures
        halvings(n, e) == k,
    decreases k,
{
    lemma_pow2_pos(k);
    lemma2_to64();
    if k == 0 {
        assert(n / 1 == n);
    } else {
        let j = (k - 1) as nat;
        lemma_pow2_pos(j);
        lemma_pow2_unfold(k);
        lemma_div_is_ordered_by_denominator(n as int, 1, pow2(j) as int);
        assert(n / 1 == n);
        lemma_div_denominator(n as int, 2, pow2(j) as int);
        if j > 0 {
            let i = (j - 1) as nat;
            lemma_pow2_pos(i);
            lemma_pow2_unfold(j);
            lemma_div_denominator(n as int, 2, pow2(i) as int);
        }
        halvings_are(n / 2, e + 1, j);
    }
}

/// How often a number is halved, by its size. What remains has all 53 bits.
pub(crate) proof fn halving_bounds(n: nat, e: int, j: nat)
    requires
        e >= LEAST,
    ensures
        n < TOP * pow2(j) ==> halvings(n, e) <= j,
        n >= TOP * pow2(j) ==> halvings(n, e) > j,
        n >= TOP / 2 ==> n / pow2(halvings(n, e)) >= TOP / 2,
        n / pow2(halvings(n, e)) < TOP,
    decreases n,
{
    lemma2_to64();
    lemma_pow2_pos(j);
    let p = pow2(j);
    if n < TOP {
        assert(TOP * p >= TOP) by (nonlinear_arith)
            requires
                p >= 1,
        ;
        assert(n as int / 1 == n);
    } else {
        let h = halvings(n / 2, e + 1);
        lemma_pow2_pos(h);
        lemma_pow2_unfold(h + 1);
        lemma_div_denominator(n as int, 2, pow2(h) as int);
        if j == 0 {
            halving_bounds(n / 2, e + 1, 0);
        } else {
            let i = (j - 1) as nat;
            let half = pow2(i);
            lemma_pow2_unfold(j);
            halving_bounds(n / 2, e + 1, i);
            assert(TOP * p == 2 * (TOP * half)) by (nonlinear_arith)
                requires
                    p == 2 * half,
            ;
        }
    }
}

/// A count of a machine word has an exponent that is not large.
pub(crate) proof fn size_is_bounded(n: nat)
    requires
        n <= u64::MAX,
    ensures
        rounded(n, 0).0 < TOP,
        rounded(n, 0).1 <= 12,
{
    let (m, e) = lifted(n, 0);
    lifting_lowers(n, 0);
    lemma2_to64();
    halving_bounds(m, e, 11);
    assert(m as int / 1 == m);
    let k = halvings(m, e);
    assert(1 * pow2(k) == pow2(k));
}

/// The largest count of a word of 64 bits is rounded to two to the 64th.
proof fn all_ones()
    ensures
        rounded(u64::MAX as nat, 0) == (TOP as nat / 2, 12int),
{
    let n = u64::MAX as nat;
    lemma2_to64();
    assert(pow2(11) == 2048 && pow2(10) == 1024);
    halving_bounds(n, 0, 11);
    halving_bounds(n, 0, 10);
    assert(halvings(n, 0) == 11);
    assert(n / 1 == n) by (nonlinear_arith);
    assert(1 * pow2(11) == 2048);
    assert(n / 2048 == TOP - 1 && n % 2048 == 2047);
    assert(nearest(n, 2048) == TOP);
}

/// The largest count of a word of 32 bits is kept as it is.
proof fn half_of_all_ones()
    ensures
        rounded(u32::MAX as nat, 0) == (u32::MAX as nat * 0x20_0000, -21int),
{
    reveal_with_fuel(lifted, 22);
    let n = u32::MAX as nat * 0x20_0000;
    assert(lifted(u32::MAX as nat, 0) == (n, -21int));
    lemma2_to64();
    assert(n / 1 == n) by (nonlinear_arith);
    assert(n % 1 == 0);
}

/// The double `a` is the whole number `x`.
spec fn is_whole(a: (nat, int), x: nat) -> bool {
    &&& a.0 < TOP
    &&& if a.1 >= 0 {
        a.0 * pow2(a.1 as nat) == x
    } else {
        a.0 == x * pow2((-a.1) as nat)
    }
}

/// A whole number that is a count is not beyond the largest count.
proof fn counts_are_in_order(a: (nat, int), x: nat)
    requires
        is_whole(a, x),
        x <= usize::MAX,
    ensures
        whole(a) == x,
        !below(rounded(usize::MAX as nat, 0), a),
{
    let (q, e) = a;
    lemma2_to64();
    if e < 0 {
        let i = (-e) as nat;
        lemma_pow2_pos(i);
        lemma_div_multiples_vanish(x as int, pow2(i) as int);
        assert(pow2(i) * x == x * pow2(i)) by (nonlinear_arith);
    }
    if usize::MAX as int == u64::MAX as int {
        all_ones();
        if e > 12 {
            let h = (e - 12) as nat;
            lemma_pow2_adds(h, 12);
            let z = q * pow2(h);
            assert(z * 4096 == x) by (nonlinear_arith)
                requires
                    q * pow2(e as nat) == x,
                    pow2(e as nat) == pow2(h) * 4096,
                    z == q * pow2(h),
            ;
        } else if e == 12 {
            assert(q * 4096 == x);
            assert(q * 1 == q);
        } else {
            let h = (12 - e) as nat;
            lemma_pow2_unfold(h);
            lemma_pow2_pos((h - 1) as nat);
            let y = pow2(h);
            assert(0x10_0000_0000_0000 * y >= 0x20_0000_0000_0000) by (nonlinear_arith)
                requires
                    y >= 2,
            ;
        }
    } else {
        assert(usize::MAX as int == u32::MAX as int);
        half_of_all_ones();
        let m = u32::MAX as nat * 0x20_0000;
        if e >= 0 {
            let h = (e + 21) as nat;
            lemma_pow2_adds(e as nat, 21);
            let z = q * pow2(h);
            assert(z == x * 0x20_0000) by (nonlinear_arith)
                requires
                    q * pow2(e as nat) == x,
                    pow2(h) == pow2(e as nat) * 0x20_0000,
                    z == q * pow2(h),
            ;
            assert(m * 1 == m);
        } else if e >= -21 {
            let (h, i) = ((e + 21) as nat, (-e) as nat);
            lemma_pow2_adds(i, h);
            let z = q * pow2(h);
            assert(z == x * 0x20_0000) by (nonlinear_arith)
                requires
                    q == x * pow2(i),
                    0x20_0000 == pow2(i) * pow2(h),
                    z == q * pow2(h),
            ;
            assert(m * 1 == m);
            assert(q * 1 == q);
        } else {
            let (h, i) = ((-21 - e) as nat, (-e) as nat);
            lemma_pow2_adds(21, h);
            lemma_pow2_pos(h);
            let y = pow2(h);
            assert(q <= m * y) by (nonlinear_arith)
                requires
                    q == x * (0x20_0000 * y),
                    x * 0x20_0000 <= m,
                    y >= 0,
            ;
        }
    }
}

/// A whole number of 53 bits or fewer, times a power of two, is kept as it is, however many
/// binary places it is carried to. It is not beyond the largest count if it is a count.
pub(crate) proof fn a_whole_number_stays(x: nat, s: nat)
    requires
        x < TOP,
        s <= 40,
        x * pow2(s) <= usize::MAX,
    ensures
        whole(rounded(x * pow2(s + 55), -55)) == x * pow2(s),
        !below(rounded(usize::MAX as nat, 0), rounded(x * pow2(s + 55), -55)),
{
    let n = x * pow2(s + 55);
    let want = x * pow2(s);
    lemma2_to64();
    lemma2_to64_rest();
    lemma_pow2_pos(s);
    lemma_pow2_pos(s + 55);
    lemma_pow2_adds(s, 55);
    assert(n as int / 1 == n);
    if x == 0 {
        assert(n == 0) by (nonlinear_arith)
            requires
                n == x * pow2(s + 55),
                x == 0,
        ;
        assert(want == 0) by (nonlinear_arith)
            requires
                want == x * pow2(s),
                x == 0,
        ;
        assert(0 * pow2(55) == 0) by (nonlinear_arith);
    } else {
        assert(n >= pow2(55)) by (nonlinear_arith)
            requires
                n == x * (pow2(s) * pow2(55)),
                x >= 1,
                pow2(s) >= 1,
                pow2(55) >= 0,
        ;
        halving_bounds(n, -55, s + 55);
        assert(n < TOP * pow2(s + 55)) by (nonlinear_arith)
            requires
                n == x * pow2(s + 55),
                x < TOP,
                pow2(s + 55) > 0,
        ;
        let k = halvings(n, -55);
        let j = (s + 55 - k) as nat;
        lemma_pow2_pos(k);
        lemma_pow2_pos(j);
        lemma_pow2_adds(j, k);
        let (p, q) = (pow2(k), x * pow2(j));
        assert(n == q * p) by (nonlinear_arith)
            requires
                n == x * (pow2(j) * p),
                q == x * pow2(j),
        ;
        lemma_div_multiples_vanish(q as int, p as int);
        lemma_mod_multiples_basic(q as int, p as int);
        assert(p * q == q * p) by (nonlinear_arith);
        assert(1 * p == p);
        assert(rounded(n, -55) == (q, -55 + k));
        if k >= 55 {
            let i = (k - 55) as nat;
            lemma_pow2_adds(j, i);
            assert(q * pow2(i) == want) by (nonlinear_arith)
                requires
                    q == x * pow2(j),
                    pow2(j) * pow2(i) == pow2(s),
                    want == x * pow2(s),
            ;
        } else {
            let i = (55 - k) as nat;
            lemma_pow2_adds(s, i);
            assert(q == want * pow2(i)) by (nonlinear_arith)
                requires
                    q == x * pow2(j),
                    pow2(j) == pow2(s) * pow2(i),
                    want == x * pow2(s),
            ;
        }
    }
    counts_are_in_order(rounded(n, -55), want);
}

proof fn lifting_lowers(n: nat, e: int)
    requires
        e >= LEAST,
    ensures
        LEAST <= lifted(n, e).1 <= e,
        lifted(n, e).0 == n || lifted(n, e).0 < TOP,
    decreases
            if n < TOP {
                TOP - n
            } else {
                0
            },
{
    if 0 < n < TOP / 2 && e > LEAST {
        lifting_lowers(2 * n, e - 1);
    }
}

/// A number that is far smaller than another does not change it.
proof fn far_smaller_is_lost(hi: nat, lo: nat, d: nat, e: int)
    requires
        TOP / 2 <= hi < TOP,
        lo < TOP,
        d > 60,
        e >= LEAST,
    ensures
        rounded(hi * pow2(d) + lo, e) == (hi, e + d),
{
    let n = hi * pow2(d) + lo;
    let p = pow2(d) as int;
    assert(1 * pow2(d) == pow2(d));
    assert(n as int / 1 == n);
    lemma2_to64();
    lemma2_to64_rest();
    lemma_pow2_pos(d);
    lemma_pow2_strictly_increases(60, d);
    lemma_fundamental_div_mod_converse(n as int, p, hi as int, lo as int);
    let j = (d - 1) as nat;
    let h = pow2(j) as int;
    lemma_pow2_pos(j);
    lemma_pow2_unfold(d);
    if d > 61 {
        lemma_pow2_strictly_increases(60, j);
    }
    assert(n == (2 * hi) * h + lo) by (nonlinear_arith)
        requires
            n == hi * p + lo,
            p == 2 * h,
    ;
    lemma_fundamental_div_mod_converse(n as int, h, (2 * hi) as int, lo as int);
    halvings_are(n, e, d);
    assert(hi * p >= hi) by (nonlinear_arith)
        requires
            p >= 1,
            hi >= 0,
    ;
}

proof fn sixty_is_enough(k: nat)
    requires
        k < 60,
    ensures
        pow2(k) < 0x1000_0000_0000_0000,
{
    lemma2_to64_rest();
    lemma_pow2_strictly_increases(k, 60);
}

proof fn seventy_five_is_too_much(k: nat)
    ensures
        k >= 75 ==> pow2(k) >= 0x800_0000_0000_0000_0000,
{
    lemma2_to64();
    lemma_pow2_adds(64, 11);
    if k > 75 {
        lemma_pow2_strictly_increases(75, k);
    }
}

impl Double {
    pub open spec fn wf(self) -> bool {
        fits(self@)
    }

    /// `n / d` times two to the `e`-th, rounded.
    fn round_ratio(n: u128, d: u64, e: i64) -> (r: Double)
        requires
            n < 0x4000_0000_0000_0000_0000_0000_0000_0000,
            0 < d < TOP,
            LEAST - 60 <= e <= 2200,
        ensures
            r@ == rounded_ratio(n as nat, d as nat, e as int),
            LEAST <= r@.1 <= e + 140,
            e <= r@.1,
            r@.0 < TOP,
            n == 0 || n as nat / d as nat >= TOP / 2 || e <= LEAST ==> is_full(r@),
            n as nat / d as nat >= TOP / 2 ==> r@.0 >= TOP / 2 || r@.1 == LEAST,
    {
        let t: u128 = n / d as u128;
        let mut q: u128 = t;
        let mut p: u128 = 1;
        let mut k: i64 = 0;
        proof {
            lemma2_to64();
            assert(t as int / 1 == t);
            assert(t <= n) by (nonlinear_arith)
                requires
                    t == n as int / d as int,
                    d >= 1,
                    n >= 0,
            ;
        }
        while q >= TOP as u128 || e + k < LEAST
            invariant
                t <= n < 0x4000_0000_0000_0000_0000_0000_0000_0000,
                LEAST - 60 <= e <= 2200,
                0 <= k < 75,
                p == pow2(k as nat),
                1 <= p < 0x800_0000_0000_0000_0000,
                q == t as nat / p as nat,
                q * p <= t,
                halvings(t as nat, e as int) == k + halvings(q as nat, e + k),
                t == 0 ==> q == 0,
                t >= TOP / 2 || e <= LEAST ==> q >= TOP / 2 || e + k <= LEAST,
            decreases q + if e + k < LEAST {
                LEAST - (e + k)
            } else {
                0
            },
        {
            proof {
                lemma_pow2_unfold((k + 1) as nat);
                lemma_div_denominator(t as int, p as int, 2);
                assert(p * 2 == 2 * p) by (nonlinear_arith);
                let h = q / 2;
                assert(h * (2 * p) <= t) by (nonlinear_arith)
                    requires
                        q * p <= t,
                        2 * h <= q,
                        p >= 1,
                        h >= 0,
                ;
                if q >= TOP {
                    assert(p < 0x200_0000_0000_0000_0000) by (nonlinear_arith)
                        requires
                            q * p <= t,
                            q >= 0x20_0000_0000_0000,
                            t < 0x4000_0000_0000_0000_0000_0000_0000_0000,
                    ;
                } else {
                    sixty_is_enough(k as nat);
                }
                seventy_five_is_too_much((k + 1) as nat);
            }
            q = q / 2;
            p = p * 2;
            k = k + 1;
        }
        proof {
            lemma_div_denominator(n as int, d as int, p as int);
            assert(d * p < 0x1_0000_0000_0000_0000_0000_0000_0000_0000) by (nonlinear_arith)
                requires
                    d < 0x20_0000_0000_0000,
                    p < 0x800_0000_0000_0000_0000,
            ;
            assert(d * p >= 1) by (nonlinear_arith)
                requires
                    d >= 1,
                    p >= 1,
            ;
        }
        let whole: u128 = d as u128 * p;
        proof {
            lemma_fundamental_div_mod(n as int, whole as int);
            assert(whole * q == q * whole) by (nonlinear_arith);
            lemma_mod_bound(n as int, whole as int);
        }
        let r: u128 = n % whole;
        // Half of the divisor may be a fraction: what is left over it decides.
        let left: u128 = whole - r;
        let m: u64 = if r > left || (r == left && q % 2 == 1) {
            q as u64 + 1
        } else {
            q as u64
        };
        if m == TOP {
            Double { m: TOP / 2, e: e + k + 1 }
        } else {
            Double { m, e: e + k }
        }
    }

    /// `n` times two to the `e`-th, rounded.
    pub fn round(n: u128, e: i64) -> (r: Double)
        requires
            n < 0x4000_0000_0000_0000_0000_0000_0000_0000,
            LEAST - 60 <= e <= 2200,
        ensures
            r@ == rounded(n as nat, e as int),
            is_full(r@),
            LEAST <= r@.1 <= e + 140,
            r@.1 >= e - 53,
            n > 0 && e >= 0 ==> r@.0 >= TOP / 2,
    {
        let mut m: u128 = n;
        let mut f: i64 = e;
        proof {
            lemma2_to64();
        }
        while 0 < m && m < TOP as u128 / 2 && f > LEAST
            invariant
                n < 0x4000_0000_0000_0000_0000_0000_0000_0000,
                LEAST - 60 <= e <= 2200,
                LEAST - 60 <= f <= e,
                m < 0x4000_0000_0000_0000_0000_0000_0000_0000,
                lifted(n as nat, e as int) == lifted(m as nat, f as int),
                n == 0 <==> m == 0,
                f < e ==> m < TOP,
                n > 0 ==> m >= pow2((e - f) as nat),
                e - f <= 53,
            decreases TOP - m,
        {
            proof {
                lemma_pow2_unfold((e - f + 1) as nat);
                lemma2_to64_rest();
                if e - f > 52 {
                    lemma_pow2_strictly_increases(52, (e - f) as nat);
                }
            }
            m = 2 * m;
            f = f - 1;
        }
        assert(m as int / 1 == m);
        Self::round_ratio(m, 1, f)
    }

    /// The product, rounded. `b` is no fraction smaller than doubles of ordinary size have.
    fn times(self, b: Double) -> (d: Double)
        requires
            self.wf(),
            b.wf(),
            b.e >= -60,
        ensures
            d@ == product(self@, b@),
            is_full(d@),
            d@.1 <= 2200,
    {
        assert(self.m * b.m < 0x400_0000_0000_0000_0000_0000_0000) by (nonlinear_arith)
            requires
                self.m < 0x20_0000_0000_0000,
                b.m < 0x20_0000_0000_0000,
        ;
        let n: u128 = self.m as u128 * b.m as u128;
        assert(self.m as nat * b.m as nat == n) by (nonlinear_arith)
            requires
                n == self.m * b.m,
        ;
        Self::round(n, self.e + b.e)
    }

    /// The sum, rounded.
    pub fn plus(self, b: Double) -> (d: Double)
        requires
            is_full(self@),
            is_full(b@),
            self@.1 <= 2200,
            b@.1 <= 2200,
        ensures
            d@ == sum(self@, b@),
            is_full(d@),
            self@.1 - 53 <= d@.1 || b@.1 - 53 <= d@.1,
            d@.1 <= self@.1 + 140 || d@.1 <= b@.1 + 140,
    {
        if self.m == 0 {
            return b;
        }
        if b.m == 0 {
            return self;
        }
        let (hi, lo) = if self.e <= b.e {
            (b, self)
        } else {
            (self, b)
        };
        let d: i64 = hi.e - lo.e;
        if d > 60 {
            proof {
                far_smaller_is_lost(hi.m as nat, lo.m as nat, d as nat, lo.e as int);
            }
            return hi;
        }
        let p: u128 = two_to(d);
        assert(hi.m * p <= 0x20_0000_0000_0000 * 0x1_0000_0000_0000_0000) by (nonlinear_arith)
            requires
                hi.m < 0x20_0000_0000_0000,
                p <= 0x1_0000_0000_0000_0000,
        ;
        Self::round(hi.m as u128 * p + lo.m as u128, lo.e)
    }

    /// A weighted sum: `self` times `w`, and `b` times `v`, each rounded, and their sum
    /// rounded again. The weights have all their bits and are of ordinary size.
    pub fn blend(self, w: Double, b: Double, v: Double) -> (d: Double)
        requires
            self.wf(),
            b.wf(),
            w.wf(),
            v.wf(),
            w@.0 >= TOP / 2,
            v@.0 >= TOP / 2,
            w@.1 >= -60,
            v@.1 >= -60,
        ensures
            d.wf(),
            d@ == blended(self@, w@, b@, v@),
    {
        let d = self.times(w).plus(b.times(v));
        if d.e > MOST {
            Double { m: TOP - 1, e: MOST }
        } else {
            d
        }
    }

    /// `m` times two to the `e`-th.
    pub fn new(m: u64, e: i64) -> (d: Double)
        requires
            fits((m as nat, e as int)),
        ensures
            d@ == (m as nat, e as int),
    {
        Double { m, e }
    }

    pub fn is_zero(self) -> (r: bool)
        ensures
            r == (self@.0 == 0),
    {
        self.m == 0
    }

    /// A count, rounded.
    pub fn of(n: u64) -> (d: Double)
        ensures
            d@ == rounded(n as nat, 0),
            d.wf(),
            -53 <= d@.1 <= 140,
            n > 0 ==> d@.0 >= TOP / 2,
    {
        Self::round(n as u128, 0)
    }

    /// The smallest whole number that is no smaller, and one more, but at most `limit`.
    pub fn ceiling_and_one(self, limit: usize) -> (r: usize)
        requires
            self.wf(),
        ensures
            r == if ceiling(self@) + 1 <= limit {
                ceiling(self@) + 1
            } else {
                limit as nat
            },
    {
        let whole: u128 = if self.e >= 0 {
            if self.m == 0 {
                assert(0 * pow2(self.e as nat) == 0) by (nonlinear_arith);
                0
            } else if self.e > 64 {
                proof {
                    lemma2_to64();
                    lemma_pow2_strictly_increases(64, self.e as nat);
                    let p = pow2(self.e as nat);
                    assert(self.m * p >= p) by (nonlinear_arith)
                        requires
                            self.m >= 1,
                            p >= 0,
                    ;
                }
                return limit;
            } else {
                let p: u128 = two_to(self.e);
                assert(self.m * p <= 0x20_0000_0000_0000 * 0x1_0000_0000_0000_0000)
                    by (nonlinear_arith)
                    requires
                        self.m < 0x20_0000_0000_0000,
                        p <= 0x1_0000_0000_0000_0000,
                ;
                self.m as u128 * p
            }
        } else if self.e < -60 {
            proof {
                let p = pow2((-self.e) as nat) as int;
                lemma2_to64_rest();
                lemma_pow2_strictly_increases(60, (-self.e) as nat);
                if self.m == 0 {
                    lemma_basic_div(p - 1, p);
                } else {
                    lemma_fundamental_div_mod_converse(self.m + p - 1, p, 1, self.m - 1);
                }
            }
            if self.m == 0 {
                0
            } else {
                1
            }
        } else {
            let p: u128 = two_to(-self.e);
            (self.m as u128 + (p - 1)) / p
        };
        if whole < limit as u128 {
            whole as usize + 1
        } else {
            limit
        }
    }

    /// The largest whole number that is no larger, but at most `limit`.
    pub fn whole_at_most(self, limit: usize) -> (r: usize)
        requires
            self.wf(),
        ensures
            r == if whole(self@) <= limit {
                whole(self@)
            } else {
                limit as nat
            },
    {
        let w: u128 = if self.e >= 0 {
            if self.m == 0 {
                assert(0 * pow2(self.e as nat) == 0) by (nonlinear_arith);
                0
            } else if self.e > 64 {
                proof {
                    lemma2_to64();
                    lemma_pow2_strictly_increases(64, self.e as nat);
                    let p = pow2(self.e as nat);
                    assert(self.m * p >= p) by (nonlinear_arith)
                        requires
                            self.m >= 1,
                            p >= 0,
                    ;
                }
                return limit;
            } else {
                let p: u128 = two_to(self.e);
                assert(self.m * p <= 0x20_0000_0000_0000 * 0x1_0000_0000_0000_0000)
                    by (nonlinear_arith)
                    requires
                        self.m < 0x20_0000_0000_0000,
                        p <= 0x1_0000_0000_0000_0000,
                ;
                self.m as u128 * p
            }
        } else if self.e < -60 {
            proof {
                let p = pow2((-self.e) as nat) as int;
                lemma2_to64_rest();
                lemma_pow2_strictly_increases(60, (-self.e) as nat);
                lemma_basic_div(self.m as int, p);
            }
            0
        } else {
            self.m as u128 / two_to(-self.e)
        };
        if w < limit as u128 {
            w as usize
        } else {
            limit
        }
    }

    /// Smaller than `b`.
    pub fn is_below(self, b: Double) -> (r: bool)
        requires
            self.wf(),
            b.wf(),
        ensures
            r == below(self@, b@),
    {
        proof {
            lemma2_to64();
            assert(b.m as nat * 1 == b.m) by (nonlinear_arith);
            assert(self.m as nat * 1 == self.m) by (nonlinear_arith);
        }
        if self.m == 0 || b.m == 0 {
            proof {
                let (x, y) = (pow2((b.e - self.e) as nat), pow2((self.e - b.e) as nat));
                lemma_pow2_pos((b.e - self.e) as nat);
                assert(0 * x == 0 && 0 * y == 0) by (nonlinear_arith);
                assert(b.m > 0 ==> b.m * x > 0) by (nonlinear_arith)
                    requires
                        x > 0,
                        b.m >= 0,
                ;
                assert(self.m * y >= 0) by (nonlinear_arith);
            }
            return b.m > 0;
        }
        if self.e == b.e {
            return self.m < b.m;
        }
        proof {
            if self.e < b.e {
                larger_exponent_is_larger(self.m as nat, b.m as nat, (b.e - self.e) as nat);
            } else {
                larger_exponent_is_larger(b.m as nat, self.m as nat, (self.e - b.e) as nat);
            }
        }
        self.e < b.e
    }

    /// The quotient, rounded. Both numbers are of ordinary size.
    pub fn over(self, b: Double) -> (d: Double)
        requires
            self.wf(),
            b.wf(),
            -400 <= self@.1 <= 450,
            -400 <= b@.1 <= 400,
            b@.0 > 0,
        ensures
            d@ == quotient(self@, b@),
            d.wf(),
            d@.1 >= self@.1 - b@.1 - 64 || d@ == self@,
            d@.1 <= self@.1 - b@.1 + 76 || d@ == self@,
    {
        if self.m == 0 {
            return self;
        }
        assert(self.m * 0x1_0000_0000_0000_0000 < 0x20_0000_0000_0000_0000_0000_0000_0000);
        let n: u128 = self.m as u128 * 0x1_0000_0000_0000_0000;
        proof {
            lemma2_to64();
            ratio_has_bits(n as int, b.m as int);
        }
        Self::round_ratio(n, b.m, self.e - b.e - 64)
    }

    /// The whole part of `self / b`, rounded as the quotient is, but at least `lo` and at
    /// most `hi`, where `self` is no smaller than `b`.
    pub fn whole_ratio(self, b: Double, lo: usize, hi: usize) -> (r: usize)
        requires
            self.wf(),
            b.wf(),
            b@.0 > 0,
            !below(self@, b@),
            lo <= hi <= 1024,
        ensures
            r == if whole(quotient(self@, b@)) < lo {
                lo as nat
            } else if whole(quotient(self@, b@)) > hi {
                hi as nat
            } else {
                whole(quotient(self@, b@))
            },
    {
        let e: i64 = self.e - b.e;
        proof {
            if e < 0 {
                larger_exponent_is_larger(self.m as nat, b.m as nat, (-e) as nat);
            }
            let p = pow2(e as nat);
            lemma2_to64();
            assert(b.m as nat * 1 == b.m) by (nonlinear_arith);
            assert(0 * p == 0) by (nonlinear_arith);
        }
        assert(self.m * 0x1_0000_0000_0000_0000 < 0x20_0000_0000_0000_0000_0000_0000_0000);
        let n: u128 = self.m as u128 * 0x1_0000_0000_0000_0000;
        proof {
            if e > 0 {
                ratio_has_bits(n as int, b.m as int);
            } else {
                lemma_div_is_ordered(
                    b.m * 0x1_0000_0000_0000_0000,
                    n as int,
                    b.m as int,
                );
                lemma_div_multiples_vanish(0x1_0000_0000_0000_0000, b.m as int);
            }
        }
        let x = Self::round_ratio(n, b.m, e - 64);
        if x.e >= 0 {
            proof {
                let p = pow2(x.e as nat);
                lemma_pow2_pos(x.e as nat);
                assert(x.m * p >= x.m) by (nonlinear_arith)
                    requires
                        p >= 1,
                        x.m >= 0,
                ;
            }
            return hi;
        }
        let w: u128 = x.m as u128 / two_to(-x.e);
        if w < lo as u128 {
            lo
        } else if w > hi as u128 {
            hi
        } else {
            w as usize
        }
    }
}

/// A quotient carried this far has all its bits.
proof fn ratio_has_bits(n: int, d: int)
    requires
        n >= 0x10_0000_0000_0000 * 0x1_0000_0000_0000_0000,
        0 < d < TOP,
    ensures
        n / d >= 0x8000_0000_0000_0000,
{
    lemma_fundamental_div_mod(n, d);
    lemma_mod_bound(n, d);
    let (q, r) = (n / d, n % d);
    assert(q >= 0x8000_0000_0000_0000) by (nonlinear_arith)
        requires
            n == d * q + r,
            r < d,
            0 < d < 0x20_0000_0000_0000,
            n >= 0x10_0000_0000_0000 * 0x1_0000_0000_0000_0000,
    ;
}

/// Of two numbers with all their bits, that with the larger exponent is larger.
proof fn larger_exponent_is_larger(a: nat, b: nat, d: nat)
    requires
        a < TOP,
        b >= TOP / 2,
        d > 0,
    ensures
        a < b * pow2(d),
{
    lemma_pow2_pos((d - 1) as nat);
    lemma_pow2_unfold(d);
    let p = pow2(d);
    assert(b * p >= 2 * b) by (nonlinear_arith)
        requires
            p >= 2,
            b >= 0,
    ;
}

/// Two to the `k`-th.
fn two_to(k: i64) -> (p: u128)
    requires
        0 <= k <= 64,
    ensures
        p == pow2(k as nat),
        1 <= p <= 0x1_0000_0000_0000_0000,
{
    let mut p: u128 = 1;
    let mut i: i64 = 0;
    proof {
        lemma2_to64();
    }
    while i < k
        invariant
            0 <= i <= k <= 64,
            p == pow2(i as nat),
            1 <= p <= 0x1_0000_0000_0000_0000,
        decreases k - i,
    {
        proof {
            lemma_pow2_unfold((i + 1) as nat);
            lemma2_to64();
            if i + 1 < 64 {
                lemma_pow2_strictly_increases((i + 1) as nat, 64);
            }
        }
        p = p * 2;
        i = i + 1;
    }
    p
}

/// The least number that no double is near: halfway from the largest double to the next
/// power of two.
pub open spec fn endless() -> nat {
    (pow2(1024) - pow2(970)) as nat
}

/// Numbers of 53 bits are not endless, those of more than 1024 bits are.
pub(crate) proof fn doubles_end_later()
    ensures
        TOP < endless() <= pow2(1024),
{
    lemma2_to64();
    lemma_pow2_adds(970, 54);
    lemma_pow2_strictly_increases(64, 970);
    lemma2_to64_rest();
    let p = pow2(970);
    assert(p * 0x40_0000_0000_0000 >= 2 * p) by (nonlinear_arith)
        requires
            p >= 0,
    ;
}

/// What words of 32 bits come to, the lowest first.
spec fn words_value(v: Seq<u32>) -> nat
    decreases v.len(),
{
    if v.len() == 0 {
        0
    } else {
        words_value(v.drop_last()) + v.last() as nat * pow2((32 * (v.len() - 1)) as nat)
    }
}

/// So many words come to less than the next word would be.
proof fn words_are_bounded(v: Seq<u32>)
    ensures
        words_value(v) < pow2(32 * v.len()),
    decreases v.len(),
{
    lemma2_to64();
    if v.len() > 0 {
        let n = (32 * (v.len() - 1)) as nat;
        words_are_bounded(v.drop_last());
        lemma_pow2_adds(n, 32);
        lemma_pow2_pos(n);
        let (p, x) = (pow2(n), v.last() as nat);
        assert(x * p + p <= p * 0x1_0000_0000) by (nonlinear_arith)
            requires
                x < 0x1_0000_0000,
                p >= 0,
        ;
    }
}

/// Ten times as much and `d` more. What does not fit is handed back.
fn next_digit(v: &mut Vec<u32>, d: u32) -> (r: u32)
    requires
        d < 10,
        old(v)@.len() <= 32,
    ensures
        final(v)@.len() == old(v)@.len(),
        words_value(final(v)@) + r as nat * pow2(32 * old(v)@.len()) == 10 * words_value(old(v)@)
            + d,
{
    let mut carry: u32 = d;
    let mut i: usize = 0;
    let ghost before = v@;
    proof {
        lemma2_to64();
        assert(v@.take(0) =~= Seq::<u32>::empty());
        assert(carry as nat * 1 == carry);
    }
    while i < v.len()
        invariant
            i <= v@.len() == before.len() <= 32,
            carry < 10,
            forall|j: int| i <= j < before.len() ==> v@[j] == #[trigger] before[j],
            words_value(v@.take(i as int)) + carry as nat * pow2(32 * i as nat) == 10 * words_value(
                before.take(i as int),
            ) + d,
        decreases v@.len() - i,
    {
        let ghost now = v@;
        let ghost c = carry as nat;
        let x: u64 = v[i] as u64 * 10 + carry as u64;
        v.set(i, (x % 0x1_0000_0000) as u32);
        carry = (x / 0x1_0000_0000) as u32;
        proof {
            let n = 32 * i as nat;
            assert(before[i as int] == now[i as int]);
            assert(v@.take(i + 1).drop_last() =~= now.take(i as int));
            assert(before.take(i + 1).drop_last() =~= before.take(i as int));
            lemma2_to64();
            lemma_pow2_adds(n, 32);
            let p = pow2(n);
            let (low, high, b) = (v@[i as int] as nat, carry as nat, before[i as int] as nat);
            assert(low * p + high * (p * 0x1_0000_0000) == 10 * (b * p) + c * p)
                by (nonlinear_arith)
                requires
                    low + high * 0x1_0000_0000 == b * 10 + c,
            ;
        }
        i += 1;
    }
    assert(v@.take(i as int) =~= v@);
    assert(before.take(i as int) =~= before);
    carry
}

/// The two highest words tell whether a number is endless.
proof fn highest_words_decide(v: Seq<u32>)
    requires
        v.len() == 32,
    ensures
        words_value(v) >= endless() <==> v[31] == 0xffff_ffff && v[30] >= 0xffff_fc00,
        words_value(v) < pow2(1024),
{
    let low = v.take(30);
    assert(v.drop_last().drop_last() =~= low);
    reveal_with_fuel(words_value, 3);
    words_are_bounded(v);
    words_are_bounded(low);
    lemma2_to64();
    lemma_pow2_adds(960, 64);
    lemma_pow2_adds(960, 10);
    lemma_pow2_adds(960, 32);
    let (p, w, a, b) = (pow2(960), words_value(low), v[30] as nat, v[31] as nat);
    assert(words_value(v) == w + a * p + b * (p * 0x1_0000_0000));
    let h = a + b * 0x1_0000_0000;
    assert(a * p + b * (p * 0x1_0000_0000) == h * p) by (nonlinear_arith)
        requires
            h == a + b * 0x1_0000_0000,
    ;
    let x: nat = 0xffff_ffff_ffff_fc00;
    assert(endless() == x * p) by {
        assert(p * 0x1_0000_0000_0000_0000 - p * 1024 == x * p) by (nonlinear_arith)
            requires
                x == 0xffff_ffff_ffff_fc00,
        ;
    }
    if h >= x {
        assert(h * p >= x * p) by (nonlinear_arith)
            requires
                h >= x,
                p >= 0,
        ;
    } else {
        assert(h * p + p <= x * p) by (nonlinear_arith)
            requires
                h + 1 <= x,
                p >= 0,
        ;
    }
}

/// Whether digits come to more than any double is near.
pub fn is_endless(d: &[char]) -> (r: bool)
    requires
        text::all_digits(d@),
    ensures
        r == (text::digits_value(d@) >= endless()),
{
    let mut v: Vec<u32> = Vec::new();
    while v.len() < 32
        invariant
            v@.len() <= 32,
            words_value(v@) == 0,
        decreases 32 - v@.len(),
    {
        proof {
            assert(v@.push(0).drop_last() =~= v@);
            assert(0 * pow2(32 * v@.len()) == 0) by (nonlinear_arith);
        }
        v.push(0);
    }
    let mut i: usize = 0;
    assert(d@.take(0) =~= Seq::<char>::empty());
    while i < d.len()
        invariant
            i <= d@.len(),
            text::all_digits(d@),
            v@.len() == 32,
            words_value(v@) == text::digits_value(d@.take(i as int)),
        decreases d@.len() - i,
    {
        assert(d@.take(i + 1).drop_last() =~= d@.take(i as int));
        assert(text::is_digit(d@[i as int]));
        let c: char = d[i];
        let over: u32 = next_digit(&mut v, c as u32 - 48);
        if over > 0 {
            proof {
                let p = pow2(1024);
                assert(over as nat * p >= p) by (nonlinear_arith)
                    requires
                        over >= 1,
                        p >= 0,
                ;
                text::digits_value_grows(d@, i + 1);
                doubles_end_later();
            }
            return true;
        }
        assert(0 * pow2(1024) == 0) by (nonlinear_arith);
        i += 1;
    }
    proof {
        assert(d@.take(i as int) =~= d@);
        highest_words_decide(v@);
    }
    v[31] == 0xffff_ffff && v[30] >= 0xffff_fc00
}

} // verus!
