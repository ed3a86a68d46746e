//! The integer kernel that a quantised matrix product is built on.

use vstd::prelude::*;

verus! {

/// The sum of the products of two equally long vectors.
pub open spec fn dot(a: Seq<int>, b: Seq<int>) -> int
    decreases a.len(),
{
    if a.len() == 0 {
        0
    } else {
        dot(a.drop_last(), b.drop_last()) + a.last() * b.last()
    }
}

/// The numbers that a vector of bytes holds.
pub open spec fn ints(a: Seq<i8>) -> Seq<int> {
    Seq::new(a.len(), |i: int| a[i] as int)
}

/// The sum of a vector.
pub open spec fn total(a: Seq<int>) -> int
    decreases a.len(),
{
    if a.len() == 0 {
        0
    } else {
        total(a.drop_last()) + a.last()
    }
}

/// A product of two vectors grows by the product of what is appended to them, wherever it
/// starts: nothing is left out and nothing counts twice. A sum grows by what is appended.
pub proof fn sums_grow_by_what_is_appended(a: Seq<int>, b: Seq<int>, x: int, y: int)
    ensures
        dot(a.push(x), b.push(y)) == dot(a, b) + x * y,
        total(a.push(x)) == total(a) + x,
        dot(Seq::empty(), Seq::empty()) == 0,
        total(Seq::empty()) == 0,
{
    assert(a.push(x).drop_last() =~= a);
    assert(b.push(y).drop_last() =~= b);
}

/// The exact sum of a vector of bytes.
pub fn sum_i8(a: &[i8]) -> (r: i32)
    requires
        a@.len() <= ALWAYS_FITS,
    ensures
        r == total(ints(a@)),
{
    let mut sum: i32 = 0;
    let mut i: usize = 0;
    while i < a.len()
        invariant
            i <= a@.len() <= ALWAYS_FITS,
            sum == total(ints(a@.take(i as int))),
            -128 * i <= sum <= 127 * i,
        decreases a@.len() - i,
    {
        proof {
            assert(ints(a@.take(i + 1)).drop_last() =~= ints(a@.take(i as int)));
        }
        sum += a[i] as i32;
        i += 1;
    }
    assert(a@.take(a@.len() as int) =~= a@);
    sum
}

/// Every sum of leading products fits an `i32`.
pub open spec fn sums_fit(a: Seq<i8>, b: Seq<i8>) -> bool {
    forall|k: int|
        0 <= k <= a.len() ==> i32::MIN <= #[trigger] dot(ints(a.take(k)), ints(b.take(k)))
            <= i32::MAX
}

/// Up to this many products fit, whatever the bytes hold.
pub const ALWAYS_FITS: usize = 131_071;

pub(crate) proof fn dot_bounds(a: Seq<i8>, b: Seq<i8>)
    requires
        a.len() == b.len(),
    ensures
        -16384 * a.len() <= dot(ints(a), ints(b)) <= 16384 * a.len(),
    decreases a.len(),
{
    if a.len() > 0 {
        dot_bounds(a.drop_last(), b.drop_last());
        assert(ints(a).drop_last() =~= ints(a.drop_last()));
        assert(ints(b).drop_last() =~= ints(b.drop_last()));
        let (x, y) = (a.last(), b.last());
        assert(-16384 <= x * y <= 16384) by (nonlinear_arith)
            requires
                -128 <= x <= 127,
                -128 <= y <= 127,
        ;
    }
}

/// Short vectors never overflow, whatever they hold.
pub proof fn short_sums_fit(a: Seq<i8>, b: Seq<i8>)
    requires
        a.len() == b.len(),
        a.len() <= ALWAYS_FITS,
    ensures
        sums_fit(a, b),
{
    assert forall|k: int| 0 <= k <= a.len() implies i32::MIN <= #[trigger] dot(
        ints(a.take(k)),
        ints(b.take(k)),
    ) <= i32::MAX by {
        dot_bounds(a.take(k), b.take(k));
    }
}

/// Integer dot product of two equal-length vectors of bytes, the exact sum.
pub fn dot_i8(a: &[i8], b: &[i8]) -> (r: i32)
    requires
        a@.len() == b@.len(),
        sums_fit(a@, b@),
    ensures
        r == dot(ints(a@), ints(b@)),
{
    let mut sum: i32 = 0;
    let mut i: usize = 0;
    while i < a.len()
        invariant
            i <= a@.len() == b@.len(),
            sums_fit(a@, b@),
            sum == dot(ints(a@.take(i as int)), ints(b@.take(i as int))),
        decreases a@.len() - i,
    {
        proof {
            let (x, y) = (a@.take(i + 1), b@.take(i + 1));
            assert(ints(x).drop_last() =~= ints(a@.take(i as int)));
            assert(ints(y).drop_last() =~= ints(b@.take(i as int)));
            assert(i32::MIN <= dot(ints(x), ints(y)) <= i32::MAX);
            let (p, q) = (a@[i as int], b@[i as int]);
            assert(-16384 <= p * q <= 16384) by (nonlinear_arith)
                requires
                    -128 <= p <= 127,
                    -128 <= q <= 127,
            ;
        }
        sum += a[i] as i32 * b[i] as i32;
        i += 1;
    }
    assert(a@.take(a@.len() as int) =~= a@);
    assert(b@.take(b@.len() as int) =~= b@);
    sum
}

} // verus!
