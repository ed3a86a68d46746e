//! What taking quantised blocks apart promises: the numbers that were packed into a block
//! come out of it again.
//!
//! The types are named by the numbers that files have for them.

use crate::number_laws;
use crate::quant;
use crate::quant::{Element, Partial};
use crate::sampling;
use crate::simd;
use vstd::arithmetic::div_mod::*;
use vstd::arithmetic::power2::*;
use vstd::prelude::*;

verus! {

/// A half-precision number as a file has it, the low byte first.
pub open spec fn half_bytes(h: u16) -> Seq<u8> {
    seq![(h % 256) as u8, (h / 256) as u8]
}

/// A signed number as a byte.
pub open spec fn signed_byte(x: int) -> u8 {
    if x < 0 {
        (x + 256) as u8
    } else {
        x as u8
    }
}

/// Four numbers below four in a byte, the first lowest.
pub open spec fn four_in_a_byte(a: int, b: int, c: int, d: int) -> u8 {
    (a + 4 * b + 16 * c + 64 * d) as u8
}

/// Eight bits in a byte, the first lowest.
pub open spec fn eight_in_a_byte(x: spec_fn(int) -> int) -> u8 {
    (x(0) + 2 * x(1) + 4 * x(2) + 8 * x(3) + 16 * x(4) + 32 * x(5) + 64 * x(6) + 128 * x(7)) as u8
}

/// Two numbers below sixteen in a byte, the first lowest.
pub open spec fn two_in_a_byte(a: int, b: int) -> u8 {
    (a + 16 * b) as u8
}

/// Every number of `q` is from `lo` to before `hi`.
pub open spec fn all_within(q: Seq<int>, lo: int, hi: int) -> bool {
    forall|i: int| 0 <= i < q.len() ==> lo <= #[trigger] q[i] < hi
}

proof fn pairs_come_apart(a: int, b: int, c: int, d: int)
    requires
        0 <= a < 4,
        0 <= b < 4,
        0 <= c < 4,
        0 <= d < 4,
    ensures
        ({
            let x = four_in_a_byte(a, b, c, d);
            &&& quant::two_bits(x, 0) == a
            &&& quant::two_bits(x, 1) == b
            &&& quant::two_bits(x, 2) == c
            &&& quant::two_bits(x, 3) == d
        }),
{
}

proof fn bits_come_apart(x: spec_fn(int) -> int, j: int)
    requires
        forall|i: int| 0 <= i < 8 ==> 0 <= #[trigger] x(i) < 2,
        0 <= j < 8,
    ensures
        quant::bit(eight_in_a_byte(x), j) == x(j),
{
    let (a, b, c, d) = (x(0), x(1), x(2), x(3));
    let (e, f, g, h) = (x(4), x(5), x(6), x(7));
    let n = a + 2 * b + 4 * c + 8 * d + 16 * e + 32 * f + 64 * g + 128 * h;
    assert(eight_in_a_byte(x) as int == n);
    if j == 0 {
        assert(n / 1 % 2 == a);
    } else if j == 1 {
        assert(n / 2 % 2 == b);
    } else if j == 2 {
        assert(n / 4 % 2 == c);
    } else if j == 3 {
        assert(n / 8 % 2 == d);
    } else if j == 4 {
        assert(n / 16 % 2 == e);
    } else if j == 5 {
        assert(n / 32 % 2 == f);
    } else if j == 6 {
        assert(n / 64 % 2 == g);
    } else {
        assert(n / 128 % 2 == h);
    }
}

proof fn nibbles_come_apart(a: int, b: int)
    requires
        0 <= a < 16,
        0 <= b < 16,
    ensures
        two_in_a_byte(a, b) as int % 16 == a,
        two_in_a_byte(a, b) as int / 16 == b,
{
}

proof fn signed_comes_back(x: int)
    requires
        -128 <= x < 128,
    ensures
        quant::signed(signed_byte(x)) == x,
{
}

proof fn half_comes_back(b: Seq<u8>, at: int, h: u16)
    requires
        b[at] == half_bytes(h)[0],
        b[at + 1] == half_bytes(h)[1],
    ensures
        quant::half_at(b, at) == h,
{
}

/// Blocks lie one after the other: element `k` of block `j` is read out of the bytes of that
/// block.
proof fn blocks_follow(t: u32, elems: int, size: int, raw: Seq<u8>, j: int, k: int)
    requires
        quant::layout(t) == Some((elems as usize, size as usize)),
        0 < elems <= 256,
        0 < size <= 256,
        0 <= j,
        0 <= k < elems,
    ensures
        quant::element(t, raw, j * elems + k) == quant::in_block(
            t,
            raw.subrange(j * size, (j + 1) * size),
            k,
        ),
{
    lemma_fundamental_div_mod_converse(j * elems + k, elems, j, k);
}

/// Block `j` of a tensor is `block`.
pub open spec fn has_block(raw: Seq<u8>, j: int, block: Seq<u8>) -> bool {
    raw.subrange(j * block.len(), (j + 1) * block.len()) == block
}

/// Single precision: four bytes, the lowest first.
pub proof fn singles_come_back(raw: Seq<u8>, j: int, bits: u32)
    requires
        0 <= j,
        has_block(
            raw,
            j,
            seq![
                (bits % 256) as u8,
                (bits / 256 % 256) as u8,
                (bits / 0x1_0000 % 256) as u8,
                (bits / 0x100_0000) as u8,
            ],
        ),
    ensures
        quant::layout(0) == Some((1usize, 4usize)),
        quant::element(0, raw, j) == Element::Plain(bits),
{
    let block = seq![
        (bits % 256) as u8,
        (bits / 256 % 256) as u8,
        (bits / 0x1_0000 % 256) as u8,
        (bits / 0x100_0000) as u8,
    ];
    blocks_follow(0, 1, 4, raw, j, 0);
    assert(block.subrange(0, 4) =~= block);
    four_bytes(block);
    digits_add_up(bits);
}

proof fn digits_add_up(x: u32)
    ensures
        x == x % 256 + 256 * (x / 256 % 256) + 0x1_0000 * (x / 0x1_0000 % 256) + 0x100_0000 * (x
            / 0x100_0000),
        x / 0x100_0000 < 256,
{
}

/// Four bytes have the value that their places say.
proof fn four_bytes(b: Seq<u8>)
    requires
        b.len() == 4,
    ensures
        crate::bytes::value(b) == b[0] + 256 * b[1] + 0x1_0000 * b[2] + 0x100_0000 * b[3],
{
    reveal_with_fuel(crate::bytes::value, 5);
}

/// Half precision: two bytes, the lowest first, widened without a change of value.
pub proof fn halves_come_back(raw: Seq<u8>, j: int, h: u16)
    requires
        0 <= j,
        has_block(raw, j, half_bytes(h)),
    ensures
        quant::layout(1) == Some((1usize, 2usize)),
        quant::element(1, raw, j) is Plain,
        ({
            let bits = quant::element(1, raw, j)->Plain_0;
            &&& (bits >= 0x8000_0000) == (h >= 0x8000)
            &&& h % 0x8000 < 0x7C00 ==> quant::single_units(bits) == quant::half_units(h) * pow2(125)
            &&& h % 0x8000 == 0x7C00 ==> bits % 0x8000_0000 == 0x7F80_0000
            &&& h % 0x8000 > 0x7C00 ==> sampling::is_nan(bits)
        }),
{
    blocks_follow(1, 1, 2, raw, j, 0);
    assert(quant::half_at(half_bytes(h), 0) == h);
    if h % 0x8000 < 0x7C00 {
        assert(h as int % 0x8000 / 1024 != 31);
        quant::widening_is_exact(h);
    } else {
        assert(h as int % 0x8000 / 1024 == 31);
    }
}

/// A `Q4_0` block: a scale, and 32 numbers below sixteen in sixteen bytes. The first half of
/// them has the low nibbles.
pub open spec fn q4_0_block(d: u16, q: Seq<int>) -> Seq<u8> {
    half_bytes(d) + Seq::new(16, |i: int| two_in_a_byte(q[i], q[i + 16]))
}

/// What was packed into a `Q4_0` block comes out of it, centred by eight.
pub proof fn q4_0_blocks_come_apart(raw: Seq<u8>, j: int, d: u16, q: Seq<int>, k: int)
    requires
        q.len() == 32,
        all_within(q, 0, 16),
        0 <= j,
        0 <= k < 32,
        has_block(raw, j, q4_0_block(d, q)),
    ensures
        quant::layout(2) == Some((32usize, q4_0_block(d, q).len() as usize)),
        quant::element(2, raw, j * 32 + k) == (Element::Scaled {
            d,
            scale: 1,
            quant: (q[k] - 8) as i32,
            dmin: 0,
            min: 0,
        }),
{
    blocks_follow(2, 32, 18, raw, j, k);
    let b = q4_0_block(d, q);
    half_comes_back(b, 0, d);
    let i = if k < 16 {
        k
    } else {
        k - 16
    };
    assert(b[2 + i] == two_in_a_byte(q[i], q[i + 16]));
    nibbles_come_apart(q[i], q[i + 16]);
}

/// A `Q8_0` block: a scale and 32 signed bytes.
pub open spec fn q8_0_block(d: u16, q: Seq<int>) -> Seq<u8> {
    half_bytes(d) + Seq::new(32, |i: int| signed_byte(q[i]))
}

/// What was packed into a `Q8_0` block comes out of it.
pub proof fn q8_0_blocks_come_apart(raw: Seq<u8>, j: int, d: u16, q: Seq<int>, k: int)
    requires
        q.len() == 32,
        all_within(q, -128, 128),
        0 <= j,
        0 <= k < 32,
        has_block(raw, j, q8_0_block(d, q)),
    ensures
        quant::layout(8) == Some((32usize, q8_0_block(d, q).len() as usize)),
        quant::element(8, raw, j * 32 + k) == (Element::Scaled {
            d,
            scale: 1,
            quant: q[k] as i32,
            dmin: 0,
            min: 0,
        }),
{
    blocks_follow(8, 32, 34, raw, j, k);
    let b = q8_0_block(d, q);
    half_comes_back(b, 0, d);
    assert(b[2 + k] == signed_byte(q[k]));
    signed_comes_back(q[k]);
}

/// The pairs of bits of 256 numbers below four: every byte has those of four numbers that are
/// 32 apart, within one half of the block.
#[verifier::opaque]
pub open spec fn pair_bytes(q: Seq<int>) -> Seq<u8> {
    Seq::new(
        64,
        |i: int|
            {
                let at = i / 32 * 128 + i % 32;
                four_in_a_byte(q[at], q[at + 32], q[at + 64], q[at + 96])
            },
    )
}

proof fn pair_bytes_come_apart(q: Seq<int>, k: int)
    requires
        q.len() == 256,
        all_within(q, 0, 4),
        0 <= k < 256,
    ensures
        pair_bytes(q).len() == 64,
        quant::two_bits(pair_bytes(q)[k / 128 * 32 + k % 32], k % 128 / 32) == q[k],
{
    reveal(pair_bytes);
    let i = k / 128 * 32 + k % 32;
    assert(i / 32 == k / 128 && i % 32 == k % 32 && 0 <= i < 64);
    let at = i / 32 * 128 + i % 32;
    let p = k % 128 / 32;
    assert(k == at + 32 * p);
    assert(pair_bytes(q)[i] == four_in_a_byte(q[at], q[at + 32], q[at + 64], q[at + 96]));
    pairs_come_apart(q[at], q[at + 32], q[at + 64], q[at + 96]);
}

/// Single bits of 256 numbers: every byte has those of eight numbers that are 32 apart.
#[verifier::opaque]
pub open spec fn bit_bytes(q: Seq<int>) -> Seq<u8> {
    Seq::new(32, |l: int| eight_in_a_byte(|j: int| q[j * 32 + l]))
}

proof fn bit_bytes_come_apart(q: Seq<int>, k: int)
    requires
        q.len() == 256,
        all_within(q, 0, 2),
        0 <= k < 256,
    ensures
        bit_bytes(q).len() == 32,
        quant::bit(bit_bytes(q)[k % 32], k / 32) == q[k],
{
    reveal(bit_bytes);
    let l = k % 32;
    let x = |j: int| q[j * 32 + l];
    assert(bit_bytes(q)[l] == eight_in_a_byte(x));
    assert forall|i: int| 0 <= i < 8 implies 0 <= #[trigger] x(i) < 2 by {
        assert(0 <= q[i * 32 + l] < 2);
    }
    bits_come_apart(x, k / 32);
    assert(k / 32 * 32 + l == k);
}

/// The nibbles of 256 numbers below sixteen: every byte has those of two numbers that are 32
/// apart.
#[verifier::opaque]
pub open spec fn nibble_bytes(q: Seq<int>) -> Seq<u8> {
    Seq::new(
        128,
        |i: int|
            {
                let at = i / 32 * 64 + i % 32;
                two_in_a_byte(q[at], q[at + 32])
            },
    )
}

proof fn nibble_bytes_come_apart(q: Seq<int>, k: int)
    requires
        q.len() == 256,
        all_within(q, 0, 16),
        0 <= k < 256,
    ensures
        nibble_bytes(q).len() == 128,
        ({
            let byte = nibble_bytes(q)[k / 64 * 32 + k % 32] as int;
            q[k] == if k % 64 < 32 {
                byte % 16
            } else {
                byte / 16
            }
        }),
{
    reveal(nibble_bytes);
    let i = k / 64 * 32 + k % 32;
    assert(i / 32 == k / 64 && i % 32 == k % 32 && 0 <= i < 128);
    let at = i / 32 * 64 + i % 32;
    assert(k == at || k == at + 32);
    assert(nibble_bytes(q)[i] == two_in_a_byte(q[at], q[at + 32]));
    nibbles_come_apart(q[at], q[at + 32]);
}

/// The numbers of `q` divided by `n`, and what is left of them.
pub open spec fn quotients(q: Seq<int>, n: int) -> Seq<int> {
    q.map_values(|x: int| x / n)
}

pub open spec fn remainders(q: Seq<int>, n: int) -> Seq<int> {
    q.map_values(|x: int| x % n)
}

proof fn halves_within(q: Seq<int>, n: int, m: int)
    requires
        n == 4 || n == 16,
        m == 2 || m == 4,
        all_within(q, 0, n * m),
    ensures
        quotients(q, n).len() == q.len(),
        remainders(q, n).len() == q.len(),
        all_within(quotients(q, n), 0, m),
        all_within(remainders(q, n), 0, n),
{
    assert forall|i: int| 0 <= i < q.len() implies 0 <= #[trigger] quotients(q, n)[i] < m by {
        assert(0 <= q[i] < n * m);
    }
}

/// A `Q2_K` block: sixteen nibbles of scale and sixteen of minimum, 256 numbers below four,
/// and the factors of both.
pub open spec fn q2_k_block(
    d: u16,
    dmin: u16,
    scales: Seq<int>,
    mins: Seq<int>,
    q: Seq<int>,
) -> Seq<u8> {
    Seq::new(16, |i: int| two_in_a_byte(scales[i], mins[i])) + pair_bytes(q) + half_bytes(d)
        + half_bytes(dmin)
}

proof fn q2_k_bytes(d: u16, dmin: u16, scales: Seq<int>, mins: Seq<int>, q: Seq<int>, k: int)
    requires
        q.len() == 256,
        all_within(q, 0, 4),
        0 <= k < 256,
    ensures
        ({
            let b = q2_k_block(d, dmin, scales, mins, q);
            let i = k / 128 * 32 + k % 32;
            &&& b.len() == 84
            &&& b[k / 16] == two_in_a_byte(scales[k / 16], mins[k / 16])
            &&& b[16 + i] == pair_bytes(q)[i]
            &&& b[80] == half_bytes(d)[0] && b[81] == half_bytes(d)[1]
            &&& b[82] == half_bytes(dmin)[0] && b[83] == half_bytes(dmin)[1]
        }),
{
    pair_bytes_come_apart(q, k);
    let i = k / 128 * 32 + k % 32;
    assert(0 <= i < 64 && 0 <= k / 16 < 16);
}

proof fn reads_q2_k(b: Seq<u8>, k: int, s: int, m: int, x: int)
    requires
        b[k / 16] as int % 16 == s,
        b[k / 16] as int / 16 == m,
        quant::two_bits(b[16 + (k / 128 * 32 + k % 32)], k % 128 / 32) == x,
    ensures
        quant::in_block(10, b, k) == (Element::Scaled {
            d: quant::half_at(b, 80),
            scale: s as i32,
            quant: x as i32,
            dmin: quant::half_at(b, 82),
            min: m as i32,
        }),
{
    assert(16 + k / 128 * 32 + k % 32 == 16 + (k / 128 * 32 + k % 32));
}

/// What was packed into a `Q2_K` block comes out of it.
pub proof fn q2_k_blocks_come_apart(
    raw: Seq<u8>,
    j: int,
    d: u16,
    dmin: u16,
    scales: Seq<int>,
    mins: Seq<int>,
    q: Seq<int>,
    k: int,
)
    requires
        q.len() == 256,
        all_within(q, 0, 4),
        scales.len() == 16,
        all_within(scales, 0, 16),
        mins.len() == 16,
        all_within(mins, 0, 16),
        0 <= j,
        0 <= k < 256,
        has_block(raw, j, q2_k_block(d, dmin, scales, mins, q)),
    ensures
        quant::layout(10) == Some(
            (256usize, q2_k_block(d, dmin, scales, mins, q).len() as usize),
        ),
        quant::element(10, raw, j * 256 + k) == (Element::Scaled {
            d,
            scale: scales[k / 16] as i32,
            quant: q[k] as i32,
            dmin,
            min: mins[k / 16] as i32,
        }),
{
    let b = q2_k_block(d, dmin, scales, mins, q);
    q2_k_bytes(d, dmin, scales, mins, q, k);
    pair_bytes_come_apart(q, k);
    let s = k / 16;
    nibbles_come_apart(scales[s], mins[s]);
    half_comes_back(b, 80, d);
    half_comes_back(b, 82, dmin);
    blocks_follow(10, 256, 84, raw, j, k);
    reads_q2_k(b, k, scales[s], mins[s], q[k]);
}

/// Sixteen numbers below 64 in twelve bytes: eight bytes with their nibbles, the last eight of
/// them high, and four with their upper pairs of bits.
pub open spec fn sixteen_scales(s: Seq<int>) -> Seq<u8> {
    Seq::new(8, |i: int| two_in_a_byte(s[i] % 16, s[i + 8] % 16)) + Seq::new(
        4,
        |i: int| four_in_a_byte(s[i] / 16, s[i + 4] / 16, s[i + 8] / 16, s[i + 12] / 16),
    )
}

proof fn sixteen_scales_come_apart(s: Seq<int>, k: int)
    requires
        s.len() == 16,
        all_within(s, 0, 64),
        0 <= k < 16,
    ensures
        sixteen_scales(s).len() == 12,
        quant::scale_k3(k, sixteen_scales(s)) == s[k],
{
    let b = sixteen_scales(s);
    let i = if k < 8 {
        k
    } else {
        k - 8
    };
    assert(0 <= s[i] < 64 && 0 <= s[i + 8] < 64);
    assert(b[i] == two_in_a_byte(s[i] % 16, s[i + 8] % 16));
    nibbles_come_apart(s[i] % 16, s[i + 8] % 16);
    let h = k % 4;
    assert(0 <= s[h] < 64 && 0 <= s[h + 4] < 64 && 0 <= s[h + 8] < 64 && 0 <= s[h + 12] < 64);
    assert(b[8 + h] == four_in_a_byte(
        s[h] / 16,
        s[h + 4] / 16,
        s[h + 8] / 16,
        s[h + 12] / 16,
    ));
    pairs_come_apart(s[h] / 16, s[h + 4] / 16, s[h + 8] / 16, s[h + 12] / 16);
    assert(k == h + 4 * (k / 4));
}

/// A `Q3_K` block: the upper bits of 256 numbers below eight, their lower pairs, sixteen
/// scales below 64, and a factor.
pub open spec fn q3_k_block(d: u16, scales: Seq<int>, q: Seq<int>) -> Seq<u8> {
    bit_bytes(quotients(q, 4)) + pair_bytes(remainders(q, 4)) + sixteen_scales(scales)
        + half_bytes(d)
}

proof fn q3_k_bytes(d: u16, scales: Seq<int>, q: Seq<int>, k: int)
    requires
        q.len() == 256,
        all_within(q, 0, 8),
        0 <= k < 256,
    ensures
        ({
            let b = q3_k_block(d, scales, q);
            let i = k / 128 * 32 + k % 32;
            &&& b.len() == 110
            &&& b[k % 32] == bit_bytes(quotients(q, 4))[k % 32]
            &&& b[32 + i] == pair_bytes(remainders(q, 4))[i]
            &&& b.subrange(96, 108) == sixteen_scales(scales)
            &&& b[108] == half_bytes(d)[0] && b[109] == half_bytes(d)[1]
        }),
{
    halves_within(q, 4, 2);
    pair_bytes_come_apart(remainders(q, 4), k);
    bit_bytes_come_apart(quotients(q, 4), k);
    let i = k / 128 * 32 + k % 32;
    assert(0 <= i < 64);
    assert(q3_k_block(d, scales, q).subrange(96, 108) =~= sixteen_scales(scales));
}

proof fn reads_q3_k(b: Seq<u8>, k: int, s: int, high: int, low: int)
    requires
        quant::bit(b[k % 32], k / 32) == high,
        quant::two_bits(b[32 + (k / 128 * 32 + k % 32)], k % 128 / 32) == low,
        quant::scale_k3(k / 16, b.subrange(96, 108)) == s,
    ensures
        quant::in_block(11, b, k) == (Element::Scaled {
            d: quant::half_at(b, 108),
            scale: (s - 32) as i32,
            quant: (4 * high + low - 4) as i32,
            dmin: 0,
            min: 0,
        }),
{
    assert(32 + k / 128 * 32 + k % 32 == 32 + (k / 128 * 32 + k % 32));
}

/// What was packed into a `Q3_K` block comes out of it: numbers centred by four, scales by 32.
pub proof fn q3_k_blocks_come_apart(
    raw: Seq<u8>,
    j: int,
    d: u16,
    scales: Seq<int>,
    q: Seq<int>,
    k: int,
)
    requires
        q.len() == 256,
        all_within(q, 0, 8),
        scales.len() == 16,
        all_within(scales, 0, 64),
        0 <= j,
        0 <= k < 256,
        has_block(raw, j, q3_k_block(d, scales, q)),
    ensures
        quant::layout(11) == Some((256usize, q3_k_block(d, scales, q).len() as usize)),
        quant::element(11, raw, j * 256 + k) == (Element::Scaled {
            d,
            scale: (scales[k / 16] - 32) as i32,
            quant: (q[k] - 4) as i32,
            dmin: 0,
            min: 0,
        }),
{
    let b = q3_k_block(d, scales, q);
    let (high, low) = (quotients(q, 4), remainders(q, 4));
    halves_within(q, 4, 2);
    bit_bytes_come_apart(high, k);
    pair_bytes_come_apart(low, k);
    sixteen_scales_come_apart(scales, k / 16);
    q3_k_bytes(d, scales, q, k);
    half_comes_back(b, 108, d);
    blocks_follow(11, 256, 110, raw, j, k);
    reads_q3_k(b, k, scales[k / 16], high[k], low[k]);
    assert(0 <= q[k] < 8 && q[k] == 4 * high[k] + low[k]);
}

/// Eight scales and eight minima below 64 in twelve bytes: the first four of each in a byte of
/// their own, the nibbles of the others in four more, and their upper pairs of bits above the
/// first eight.
pub open spec fn eight_scales(s: Seq<int>, m: Seq<int>) -> Seq<u8> {
    Seq::new(4, |i: int| (s[i] + 64 * (s[i + 4] / 16)) as u8) + Seq::new(
        4,
        |i: int| (m[i] + 64 * (m[i + 4] / 16)) as u8,
    ) + Seq::new(4, |i: int| two_in_a_byte(s[i + 4] % 16, m[i + 4] % 16))
}

proof fn eight_scales_come_apart(s: Seq<int>, m: Seq<int>, k: int)
    requires
        s.len() == 8,
        all_within(s, 0, 64),
        m.len() == 8,
        all_within(m, 0, 64),
        0 <= k < 8,
    ensures
        eight_scales(s, m).len() == 12,
        quant::scale_min(k, eight_scales(s, m)) == (s[k], m[k]),
{
    let i = if k < 4 {
        k
    } else {
        k - 4
    };
    let b = eight_scales(s, m);
    assert(0 <= s[i] < 64 && 0 <= s[i + 4] < 64 && 0 <= m[i] < 64 && 0 <= m[i + 4] < 64);
    assert(b[i] == (s[i] + 64 * (s[i + 4] / 16)) as u8);
    assert(b[i + 4] == (m[i] + 64 * (m[i + 4] / 16)) as u8);
    assert(b[i + 8] == two_in_a_byte(s[i + 4] % 16, m[i + 4] % 16));
    nibbles_come_apart(s[i + 4] % 16, m[i + 4] % 16);
}

/// A `Q4_K` block: the factors of scales and minima, eight of each below 64, and 256 numbers
/// below sixteen.
pub open spec fn q4_k_block(
    d: u16,
    dmin: u16,
    scales: Seq<int>,
    mins: Seq<int>,
    q: Seq<int>,
) -> Seq<u8> {
    half_bytes(d) + half_bytes(dmin) + eight_scales(scales, mins) + nibble_bytes(q)
}

proof fn q4_k_bytes(d: u16, dmin: u16, scales: Seq<int>, mins: Seq<int>, q: Seq<int>, k: int)
    requires
        q.len() == 256,
        all_within(q, 0, 16),
        0 <= k < 256,
    ensures
        ({
            let b = q4_k_block(d, dmin, scales, mins, q);
            let i = k / 64 * 32 + k % 32;
            &&& b.len() == 144
            &&& b[0] == half_bytes(d)[0] && b[1] == half_bytes(d)[1]
            &&& b[2] == half_bytes(dmin)[0] && b[3] == half_bytes(dmin)[1]
            &&& b.subrange(4, 16) == eight_scales(scales, mins)
            &&& b[16 + i] == nibble_bytes(q)[i]
        }),
{
    nibble_bytes_come_apart(q, k);
    let i = k / 64 * 32 + k % 32;
    assert(0 <= i < 128);
    assert(q4_k_block(d, dmin, scales, mins, q).subrange(4, 16) =~= eight_scales(scales, mins));
}

proof fn reads_q4_k(b: Seq<u8>, k: int, s: int, m: int, x: int)
    requires
        quant::scale_min(k / 32, b.subrange(4, 16)) == (s, m),
        ({
            let byte = b[16 + (k / 64 * 32 + k % 32)] as int;
            x == if k % 64 < 32 {
                byte % 16
            } else {
                byte / 16
            }
        }),
    ensures
        quant::in_block(12, b, k) == (Element::Scaled {
            d: quant::half_at(b, 0),
            scale: s as i32,
            quant: x as i32,
            dmin: quant::half_at(b, 2),
            min: m as i32,
        }),
{
    assert(16 + k / 64 * 32 + k % 32 == 16 + (k / 64 * 32 + k % 32));
}

/// What was packed into a `Q4_K` block comes out of it.
pub proof fn q4_k_blocks_come_apart(
    raw: Seq<u8>,
    j: int,
    d: u16,
    dmin: u16,
    scales: Seq<int>,
    mins: Seq<int>,
    q: Seq<int>,
    k: int,
)
    requires
        q.len() == 256,
        all_within(q, 0, 16),
        scales.len() == 8,
        all_within(scales, 0, 64),
        mins.len() == 8,
        all_within(mins, 0, 64),
        0 <= j,
        0 <= k < 256,
        has_block(raw, j, q4_k_block(d, dmin, scales, mins, q)),
    ensures
        quant::layout(12) == Some(
            (256usize, q4_k_block(d, dmin, scales, mins, q).len() as usize),
        ),
        quant::element(12, raw, j * 256 + k) == (Element::Scaled {
            d,
            scale: scales[k / 32] as i32,
            quant: q[k] as i32,
            dmin,
            min: mins[k / 32] as i32,
        }),
{
    let b = q4_k_block(d, dmin, scales, mins, q);
    eight_scales_come_apart(scales, mins, k / 32);
    nibble_bytes_come_apart(q, k);
    q4_k_bytes(d, dmin, scales, mins, q, k);
    half_comes_back(b, 0, d);
    half_comes_back(b, 2, dmin);
    blocks_follow(12, 256, 144, raw, j, k);
    reads_q4_k(b, k, scales[k / 32], mins[k / 32], q[k]);
}

/// A `Q5_K` block: as `Q4_K`, for 256 numbers below 32 whose fifth bits stand before their
/// nibbles.
pub open spec fn q5_k_block(
    d: u16,
    dmin: u16,
    scales: Seq<int>,
    mins: Seq<int>,
    q: Seq<int>,
) -> Seq<u8> {
    half_bytes(d) + half_bytes(dmin) + eight_scales(scales, mins) + bit_bytes(quotients(q, 16))
        + nibble_bytes(remainders(q, 16))
}

proof fn q5_k_bytes(d: u16, dmin: u16, scales: Seq<int>, mins: Seq<int>, q: Seq<int>, k: int)
    requires
        q.len() == 256,
        all_within(q, 0, 32),
        0 <= k < 256,
    ensures
        ({
            let b = q5_k_block(d, dmin, scales, mins, q);
            let i = k / 64 * 32 + k % 32;
            &&& b.len() == 176
            &&& b[0] == half_bytes(d)[0] && b[1] == half_bytes(d)[1]
            &&& b[2] == half_bytes(dmin)[0] && b[3] == half_bytes(dmin)[1]
            &&& b.subrange(4, 16) == eight_scales(scales, mins)
            &&& b[16 + k % 32] == bit_bytes(quotients(q, 16))[k % 32]
            &&& b[48 + i] == nibble_bytes(remainders(q, 16))[i]
        }),
{
    halves_within(q, 16, 2);
    bit_bytes_come_apart(quotients(q, 16), k);
    nibble_bytes_come_apart(remainders(q, 16), k);
    let i = k / 64 * 32 + k % 32;
    assert(0 <= i < 128);
    assert(q5_k_block(d, dmin, scales, mins, q).subrange(4, 16) =~= eight_scales(scales, mins));
}

proof fn reads_q5_k(b: Seq<u8>, k: int, s: int, m: int, high: int, low: int)
    requires
        quant::scale_min(k / 32, b.subrange(4, 16)) == (s, m),
        quant::bit(b[16 + k % 32], k / 32) == high,
        ({
            let byte = b[48 + (k / 64 * 32 + k % 32)] as int;
            low == if k % 64 < 32 {
                byte % 16
            } else {
                byte / 16
            }
        }),
    ensures
        quant::in_block(13, b, k) == (Element::Scaled {
            d: quant::half_at(b, 0),
            scale: s as i32,
            quant: (16 * high + low) as i32,
            dmin: quant::half_at(b, 2),
            min: m as i32,
        }),
{
    assert(48 + k / 64 * 32 + k % 32 == 48 + (k / 64 * 32 + k % 32));
}

/// What was packed into a `Q5_K` block comes out of it.
pub proof fn q5_k_blocks_come_apart(
    raw: Seq<u8>,
    j: int,
    d: u16,
    dmin: u16,
    scales: Seq<int>,
    mins: Seq<int>,
    q: Seq<int>,
    k: int,
)
    requires
        q.len() == 256,
        all_within(q, 0, 32),
        scales.len() == 8,
        all_within(scales, 0, 64),
        mins.len() == 8,
        all_within(mins, 0, 64),
        0 <= j,
        0 <= k < 256,
        has_block(raw, j, q5_k_block(d, dmin, scales, mins, q)),
    ensures
        quant::layout(13) == Some(
            (256usize, q5_k_block(d, dmin, scales, mins, q).len() as usize),
        ),
        quant::element(13, raw, j * 256 + k) == (Element::Scaled {
            d,
            scale: scales[k / 32] as i32,
            quant: q[k] as i32,
            dmin,
            min: mins[k / 32] as i32,
        }),
{
    let b = q5_k_block(d, dmin, scales, mins, q);
    let (high, low) = (quotients(q, 16), remainders(q, 16));
    halves_within(q, 16, 2);
    eight_scales_come_apart(scales, mins, k / 32);
    bit_bytes_come_apart(high, k);
    nibble_bytes_come_apart(low, k);
    q5_k_bytes(d, dmin, scales, mins, q, k);
    half_comes_back(b, 0, d);
    half_comes_back(b, 2, dmin);
    blocks_follow(13, 256, 176, raw, j, k);
    reads_q5_k(b, k, scales[k / 32], mins[k / 32], high[k], low[k]);
    assert(0 <= q[k] < 32 && q[k] == 16 * high[k] + low[k]);
}

/// The nibbles of 256 numbers below sixteen as `Q6_K` has them: every byte has those of two
/// numbers that are 64 apart, within one half of the block.
#[verifier::opaque]
pub open spec fn wide_nibble_bytes(q: Seq<int>) -> Seq<u8> {
    Seq::new(
        128,
        |i: int|
            {
                let at = i / 64 * 128 + i % 64;
                two_in_a_byte(q[at], q[at + 64])
            },
    )
}

proof fn wide_nibble_bytes_come_apart(q: Seq<int>, k: int)
    requires
        q.len() == 256,
        all_within(q, 0, 16),
        0 <= k < 256,
    ensures
        wide_nibble_bytes(q).len() == 128,
        ({
            let quarter = k % 128 / 32;
            let byte = wide_nibble_bytes(q)[k / 128 * 64 + quarter % 2 * 32 + k % 32] as int;
            q[k] == if quarter < 2 {
                byte % 16
            } else {
                byte / 16
            }
        }),
{
    reveal(wide_nibble_bytes);
    let quarter = k % 128 / 32;
    let n = k / 128 * 64 + quarter % 2 * 32 + k % 32;
    let at = n / 64 * 128 + n % 64;
    assert(0 <= n < 128 && n / 64 == k / 128 && n % 64 == quarter % 2 * 32 + k % 32);
    assert(k == if quarter < 2 {
        at
    } else {
        at + 64
    });
    assert(wide_nibble_bytes(q)[n] == two_in_a_byte(q[at], q[at + 64]));
    nibbles_come_apart(q[at], q[at + 64]);
}

/// A `Q6_K` block: the nibbles of 256 numbers below 64, their upper pairs of bits, sixteen
/// signed scales, and a factor.
pub open spec fn q6_k_block(d: u16, scales: Seq<int>, q: Seq<int>) -> Seq<u8> {
    wide_nibble_bytes(remainders(q, 16)) + pair_bytes(quotients(q, 16)) + Seq::new(
        16,
        |i: int| signed_byte(scales[i]),
    ) + half_bytes(d)
}

proof fn q6_k_bytes(d: u16, scales: Seq<int>, q: Seq<int>, k: int)
    requires
        q.len() == 256,
        all_within(q, 0, 64),
        0 <= k < 256,
    ensures
        ({
            let b = q6_k_block(d, scales, q);
            let n = k / 128 * 64 + k % 128 / 32 % 2 * 32 + k % 32;
            let i = k / 128 * 32 + k % 32;
            &&& b.len() == 210
            &&& b[n] == wide_nibble_bytes(remainders(q, 16))[n]
            &&& b[128 + i] == pair_bytes(quotients(q, 16))[i]
            &&& b[192 + k / 16] == signed_byte(scales[k / 16])
            &&& b[208] == half_bytes(d)[0] && b[209] == half_bytes(d)[1]
        }),
{
    halves_within(q, 16, 4);
    pair_bytes_come_apart(quotients(q, 16), k);
    wide_nibble_bytes_come_apart(remainders(q, 16), k);
    let n = k / 128 * 64 + k % 128 / 32 % 2 * 32 + k % 32;
    let i = k / 128 * 32 + k % 32;
    assert(0 <= i < 64 && 0 <= n < 128 && 0 <= k / 16 < 16);
}

proof fn reads_q6_k(b: Seq<u8>, k: int, s: int, high: int, low: int)
    requires
        ({
            let byte = b[k / 128 * 64 + k % 128 / 32 % 2 * 32 + k % 32] as int;
            low == if k % 128 / 32 < 2 {
                byte % 16
            } else {
                byte / 16
            }
        }),
        quant::two_bits(b[128 + (k / 128 * 32 + k % 32)], k % 128 / 32) == high,
        quant::signed(b[192 + k / 16]) == s,
    ensures
        quant::in_block(14, b, k) == (Element::Scaled {
            d: quant::half_at(b, 208),
            scale: s as i32,
            quant: (16 * high + low - 32) as i32,
            dmin: 0,
            min: 0,
        }),
{
    assert(128 + k / 128 * 32 + k % 32 == 128 + (k / 128 * 32 + k % 32));
}

/// What was packed into a `Q6_K` block comes out of it, centred by 32.
pub proof fn q6_k_blocks_come_apart(
    raw: Seq<u8>,
    j: int,
    d: u16,
    scales: Seq<int>,
    q: Seq<int>,
    k: int,
)
    requires
        q.len() == 256,
        all_within(q, 0, 64),
        scales.len() == 16,
        all_within(scales, -128, 128),
        0 <= j,
        0 <= k < 256,
        has_block(raw, j, q6_k_block(d, scales, q)),
    ensures
        quant::layout(14) == Some((256usize, q6_k_block(d, scales, q).len() as usize)),
        quant::element(14, raw, j * 256 + k) == (Element::Scaled {
            d,
            scale: scales[k / 16] as i32,
            quant: (q[k] - 32) as i32,
            dmin: 0,
            min: 0,
        }),
{
    let b = q6_k_block(d, scales, q);
    let (high, low) = (quotients(q, 16), remainders(q, 16));
    halves_within(q, 16, 4);
    pair_bytes_come_apart(high, k);
    wide_nibble_bytes_come_apart(low, k);
    q6_k_bytes(d, scales, q, k);
    signed_comes_back(scales[k / 16]);
    half_comes_back(b, 208, d);
    blocks_follow(14, 256, 210, raw, j, k);
    reads_q6_k(b, k, scales[k / 16], high[k], low[k]);
    assert(0 <= q[k] < 64 && q[k] == 16 * high[k] + low[k]);
}

/// No other type decodes.
pub proof fn these_types_decode(t: u32)
    ensures
        quant::layout(t) is Some <==> t <= 2 || t == 8 || 10 <= t <= 14,
{
}

/// So many whole blocks take so many times the bytes of one, and what is no whole number of
/// blocks is refused.
pub proof fn whole_blocks_add_up(t: u32, n: nat, blocks: nat)
    requires
        quant::layout(t) is Some,
    ensures
        ({
            let (elems, bytes) = quant::layout(t).unwrap();
            &&& n == blocks * elems ==> quant::size_of(t, n) == Ok::<nat, Seq<char>>(
                blocks * bytes as nat,
            )
            &&& quant::size_of(t, n) is Ok ==> exists|m: nat| n == #[trigger] (m * elems as nat)
        }),
{
    let (elems, bytes) = quant::layout(t).unwrap();
    let e = elems as int;
    if n == blocks * elems {
        lemma_fundamental_div_mod_converse(n as int, e, blocks as int, 0);
    }
    if quant::size_of(t, n) is Ok {
        lemma_fundamental_div_mod(n as int, e);
        let m = n / elems as nat;
        assert(n == m * elems as nat) by (nonlinear_arith)
            requires
                n as int == e * m,
                e == elems,
        ;
    }
}

/// An element is finite exactly where every number it is made of is.
pub proof fn elements_are_finite_where_their_parts_are(e: Element)
    ensures
        match e {
            Element::Plain(bits) => e.finite() <==> number_laws::exponent_of(bits) < 255,
            Element::Scaled { d, dmin, .. } => e.finite() <==> d as int % 0x8000 / 1024 < 31
                && dmin as int % 0x8000 / 1024 < 31,
        },
{
}

/// The sum of the first `n` values of `f`.
pub open spec fn summed(f: spec_fn(int) -> int, n: nat) -> int
    decreases n,
{
    if n == 0 {
        0
    } else {
        summed(f, (n - 1) as nat) + f(n - 1)
    }
}

proof fn summed_alike(f: spec_fn(int) -> int, g: spec_fn(int) -> int, n: nat)
    requires
        forall|i: int| 0 <= i < n ==> #[trigger] f(i) == g(i),
    ensures
        summed(f, n) == summed(g, n),
    decreases n,
{
    if n > 0 {
        summed_alike(f, g, (n - 1) as nat);
        assert(f(n - 1) == g(n - 1));
    }
}

proof fn sums_are_summed(a: Seq<int>, b: Seq<int>, n: nat)
    requires
        a.len() == b.len(),
        n <= a.len(),
    ensures
        simd::dot(a.take(n as int), b.take(n as int)) == summed(|i: int| a[i] * b[i], n),
        simd::total(b.take(n as int)) == summed(|i: int| b[i], n),
    decreases n,
{
    if n > 0 {
        let m = n - 1;
        sums_are_summed(a, b, m as nat);
        assert(a.take(n as int) =~= a.take(m).push(a[m]));
        assert(b.take(n as int) =~= b.take(m).push(b[m]));
        simd::sums_grow_by_what_is_appended(a.take(m), b.take(m), a[m], b[m]);
        simd::sums_grow_by_what_is_appended(b.take(m), b.take(m), b[m], b[m]);
    }
}

/// What a stretch of 32 contributes to a product is the sum over its places of what the row
/// holds there times what the vector holds there; beside it stands the sum of the vector alone,
/// and the scales that the whole stretch shares.
pub proof fn stretches_are_summed_up(p: Partial, qtype: u32, row: Seq<u8>, xq: Seq<i8>, sb: int)
    requires
        p.is_of(qtype, row, xq, sb),
        0 <= sb,
        32 * sb + 32 <= xq.len(),
    ensures
        p.dot == summed(
            |j: int| quant::element(qtype, row, 32 * sb + j)->quant * xq[32 * sb + j],
            32,
        ),
        p.sum == summed(|j: int| xq[32 * sb + j] as int, 32),
        forall|j: int|
            0 <= j < 32 ==> (#[trigger] quant::element(qtype, row, 32 * sb + j) matches Element::Scaled {
                d,
                scale,
                dmin,
                min,
                ..
            } && p.d == d && p.scale == scale && p.dmin == dmin && p.min == min),
{
    let (a, b) = (quant::quants(qtype, row, sb), quant::facing(xq, sb));
    assert(a.take(32) =~= a && b.take(32) =~= b);
    sums_are_summed(a, b, 32);
    summed_alike(
        |i: int| a[i] * b[i],
        |j: int| quant::element(qtype, row, 32 * sb + j)->quant * xq[32 * sb + j],
        32,
    );
    summed_alike(|i: int| b[i], |j: int| xq[32 * sb + j] as int, 32);
}

/// A half that is no number widens to a single that is none, and an infinite one to an infinite
/// one, of the same sign.
pub proof fn what_is_not_finite_stays_so(h: u16)
    requires
        h as int % 0x8000 >= 0x7C00,
    ensures
        h as int % 0x8000 == 0x7C00 ==> quant::half_to_single(h) as int % 0x8000_0000
            == 0x7F80_0000,
        h as int % 0x8000 > 0x7C00 ==> sampling::is_nan(quant::half_to_single(h)),
        (quant::half_to_single(h) >= 0x8000_0000) == (h >= 0x8000),
        !sampling::is_finite(quant::half_to_single(h)),
{
    assert(h as int % 0x8000 / 1024 == 31);
}

proof fn one_is_the_first(t: u32, raw: Seq<u8>, n: nat, i: int)
    requires
        0 <= i < n,
        !quant::element(t, raw, i).finite(),
    ensures
        exists|at: int| quant::is_first_nonfinite(t, raw, n, at),
    decreases i,
{
    if forall|k: int| 0 <= k < i ==> (#[trigger] quant::element(t, raw, k)).finite() {
        assert(quant::is_first_nonfinite(t, raw, n, i));
    } else {
        let k = choose|k: int| 0 <= k < i && !(#[trigger] quant::element(t, raw, k)).finite();
        one_is_the_first(t, raw, n, k);
    }
}

/// Values decode exactly where there are as many bytes as they take and all of them are finite.
pub proof fn finite_values_decode(t: u32, raw: Seq<u8>, n: nat)
    ensures
        quant::values_fault(t, raw, n) is None <==> quant::size_of(t, n) == Ok::<nat, Seq<char>>(
            raw.len(),
        ) && forall|i: int| 0 <= i < n ==> (#[trigger] quant::element(t, raw, i)).finite(),
{
    if exists|i: int| 0 <= i < n && !(#[trigger] quant::element(t, raw, i)).finite() {
        let i = choose|i: int| 0 <= i < n && !(#[trigger] quant::element(t, raw, i)).finite();
        one_is_the_first(t, raw, n, i);
    }
}

} // verus!
