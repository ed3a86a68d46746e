//! Quantised checkpoint weights.
//!
//! Quantised tensors are stored in fixed-size blocks: a scale (and sometimes a
//! minimum) shared by a run of low-bit integers. This module takes those blocks apart.
//! An element comes out as the integers and the half-precision factors it is made of,
//! [`Element`]; its value is `d * scale * quant - dmin * min`.
//!
//! Supported: `F32`, `F16`, the linear quants `Q4_0`/`Q8_0`, and the k-quants
//! `Q2_K`/`Q3_K`/`Q4_K`/`Q5_K`/`Q6_K`. For every other type [`block_layout`] is `None`,
//! so that a loader errors clearly rather than producing garbage.

use crate::bytes;
use crate::simd;
use crate::text;
use crate::text::{push_number, push_size, push_wide};
use crate::types::{Fault, GarudaError};
use vstd::arithmetic::power2::*;
use vstd::prelude::*;
use vstd::slice::slice_subrange;
use vstd::string::*;

verus! {

pub const F32: u32 = 0;

pub const F16: u32 = 1;

pub const Q4_0: u32 = 2;

pub const Q8_0: u32 = 8;

pub const Q2_K: u32 = 10;

pub const Q3_K: u32 = 11;

pub const Q4_K: u32 = 12;

pub const Q5_K: u32 = 13;

pub const Q6_K: u32 = 14;

/// Elements per block for the linear quants.
pub const QK: usize = 32;

/// Elements per super-block for the k-quants.
pub const QK_K: usize = 256;

/// What [`block_layout`] gives.
pub open spec fn layout(ggml_type: u32) -> Option<(usize, usize)> {
    if ggml_type == F32 {
        Some((1, 4))
    } else if ggml_type == F16 {
        Some((1, 2))
    } else if ggml_type == Q4_0 {
        Some((32, 18))
    } else if ggml_type == Q8_0 {
        Some((32, 34))
    } else if ggml_type == Q2_K {
        Some((256, 84))
    } else if ggml_type == Q3_K {
        Some((256, 110))
    } else if ggml_type == Q4_K {
        Some((256, 144))
    } else if ggml_type == Q5_K {
        Some((256, 176))
    } else if ggml_type == Q6_K {
        Some((256, 210))
    } else {
        None
    }
}

/// `(elements_per_block, bytes_per_block)` for a supported type, or `None`.
///
/// `F32` and `F16` are one-element blocks, so that the same length arithmetic covers
/// every supported type.
pub fn block_layout(ggml_type: u32) -> (r: Option<(usize, usize)>)
    ensures
        r == layout(ggml_type),
{
    match ggml_type {
        F32 => Some((1, 4)),
        F16 => Some((1, 2)),
        // An f16 scale and 32 4-bit quants packed into 16 bytes.
        Q4_0 => Some((QK, 2 + QK / 2)),
        // An f16 scale and 32 int8 quants.
        Q8_0 => Some((QK, 2 + QK)),
        // 16 packed 4-bit scale and min pairs, 64 bytes of 2-bit quants, two f16.
        Q2_K => Some((QK_K, QK_K / 16 + QK_K / 4 + 2 + 2)),
        // 32 bytes of high bits, 64 of low bits, 12 of packed 6-bit scales, an f16.
        Q3_K => Some((QK_K, QK_K / 8 + QK_K / 4 + 12 + 2)),
        // Two f16, 12 bytes of packed 6-bit scales and mins, 128 of 4-bit quants.
        Q4_K => Some((QK_K, 2 + 2 + 12 + QK_K / 2)),
        // As before, with 32 bytes of high bits.
        Q5_K => Some((QK_K, 2 + 2 + 12 + QK_K / 8 + QK_K / 2)),
        // 128 bytes of low nibbles, 64 of high bits, 16 int8 scales, an f16.
        Q6_K => Some((QK_K, QK_K / 2 + QK_K / 4 + QK_K / 16 + 2)),
        _ => None,
    }
}

pub fn is_supported(ggml_type: u32) -> (r: bool)
    ensures
        r == layout(ggml_type) is Some,
{
    block_layout(ggml_type).is_some()
}

/// What [`name_of_type`] gives.
pub open spec fn name(ggml_type: u32) -> Seq<char> {
    match ggml_type {
        0 => "F32"@,
        1 => "F16"@,
        2 => "Q4_0"@,
        3 => "Q4_1"@,
        6 => "Q5_0"@,
        7 => "Q5_1"@,
        8 => "Q8_0"@,
        10 => "Q2_K"@,
        11 => "Q3_K"@,
        12 => "Q4_K"@,
        13 => "Q5_K"@,
        14 => "Q6_K"@,
        _ => "unknown"@,
    }
}

/// Human name for a type, for error messages.
pub fn name_of_type(ggml_type: u32) -> (r: &'static str)
    ensures
        r@ == name(ggml_type),
        ggml_type == F32 ==> r@ == "F32"@,
        ggml_type == F16 ==> r@ == "F16"@,
        ggml_type == Q4_0 ==> r@ == "Q4_0"@,
        ggml_type == Q8_0 ==> r@ == "Q8_0"@,
        ggml_type == Q2_K ==> r@ == "Q2_K"@,
        ggml_type == Q3_K ==> r@ == "Q3_K"@,
        ggml_type == Q4_K ==> r@ == "Q4_K"@,
        ggml_type == Q5_K ==> r@ == "Q5_K"@,
        ggml_type == Q6_K ==> r@ == "Q6_K"@,
        ggml_type == 4 || ggml_type == 5 || ggml_type == 9 || ggml_type > 14 ==> r@ == "unknown"@,
{
    match ggml_type {
        0 => "F32",
        1 => "F16",
        2 => "Q4_0",
        3 => "Q4_1",
        6 => "Q5_0",
        7 => "Q5_1",
        8 => "Q8_0",
        10 => "Q2_K",
        11 => "Q3_K",
        12 => "Q4_K",
        13 => "Q5_K",
        14 => "Q6_K",
        _ => "unknown",
    }
}

pub open spec fn unsupported_message(ggml_type: u32) -> Seq<char> {
    "tensor type "@ + name(ggml_type) + " ("@ + text::decimal(ggml_type as nat)
        + ") is not supported; F32, F16, Q4_0/Q8_0 and the k-quants Q2_K/Q3_K/Q4_K/Q5_K/Q6_K decode today (the *_1 linear quants and the IQ imatrix quants need their own decoders)"@
}

/// The error for a type that cannot be decoded.
pub fn unsupported(ggml_type: u32) -> (e: GarudaError)
    ensures
        e matches GarudaError::Model(m) && m@ == unsupported_message(ggml_type),
{
    let mut m = "tensor type ".to_owned();
    m.append(name_of_type(ggml_type));
    m.append(" (");
    push_number(&mut m, ggml_type as u64);
    m.append(
        ") is not supported; F32, F16, Q4_0/Q8_0 and the k-quants Q2_K/Q3_K/Q4_K/Q5_K/Q6_K decode today (the *_1 linear quants and the IQ imatrix quants need their own decoders)",
    );
    GarudaError::Model(m)
}

pub open spec fn ragged_message(ggml_type: u32, n: nat) -> Seq<char> {
    name(ggml_type) + " tensor has "@ + text::decimal(n)
        + " elements, not a multiple of the block size "@ + text::decimal(
        layout(ggml_type).unwrap().0 as nat,
    )
}

/// What `n` elements of `ggml_type` occupy, or why that has no answer.
pub open spec fn size_of(ggml_type: u32, n: nat) -> Result<nat, Seq<char>> {
    match layout(ggml_type) {
        None => Err(unsupported_message(ggml_type)),
        Some((elems, bytes)) => if n % (elems as nat) != 0 {
            Err(ragged_message(ggml_type, n))
        } else {
            Ok(n / (elems as nat) * bytes as nat)
        },
    }
}

/// The bytes that `n` elements of `ggml_type` occupy, however many that is.
pub(crate) fn wide_size_of(ggml_type: u32, n: u64) -> (r: Result<u128, GarudaError>)
    ensures
        match r {
            Ok(len) => size_of(ggml_type, n as nat) == Ok::<nat, Seq<char>>(len as nat) && len
                <= 0x100_0000_0000_0000_0000,
            Err(e) => e matches GarudaError::Model(m) && size_of(ggml_type, n as nat) == Err::<
                nat,
                Seq<char>,
            >(m@),
        },
{
    match block_layout(ggml_type) {
        None => Err(unsupported(ggml_type)),
        Some((elems, bytes)) => {
            if n % elems as u64 != 0 {
                let mut m = name_of_type(ggml_type).to_owned();
                m.append(" tensor has ");
                push_number(&mut m, n);
                m.append(" elements, not a multiple of the block size ");
                push_size(&mut m, elems);
                return Err(GarudaError::Model(m));
            }
            let blocks: u128 = (n / elems as u64) as u128;
            assert(blocks * bytes <= 0x1_0000_0000_0000_0000 * 210) by (nonlinear_arith)
                requires
                    blocks <= 0x1_0000_0000_0000_0000,
                    bytes <= 210,
            ;
            Ok(blocks * bytes as u128)
        },
    }
}

pub(crate) fn wide_size(ggml_type: u32, n: usize) -> (r: Result<u128, GarudaError>)
    ensures
        match r {
            Ok(len) => size_of(ggml_type, n as nat) == Ok::<nat, Seq<char>>(len as nat),
            Err(e) => e matches GarudaError::Model(m) && size_of(ggml_type, n as nat) == Err::<
                nat,
                Seq<char>,
            >(m@),
        },
{
    wide_size_of(ggml_type, n as u64)
}

/// The exact number of bytes `n` elements of `ggml_type` occupy on disk.
///
/// Errors if `ggml_type` is unsupported, or if `n` is not a whole number of blocks.
pub fn byte_size(ggml_type: u32, n: usize) -> (r: Result<usize, GarudaError>)
    requires
        size_of(ggml_type, n as nat) matches Ok(len) ==> len <= usize::MAX,
    ensures
        match r {
            Ok(len) => size_of(ggml_type, n as nat) == Ok::<nat, Seq<char>>(len as nat),
            Err(e) => e matches GarudaError::Model(m) && size_of(ggml_type, n as nat) == Err::<
                nat,
                Seq<char>,
            >(m@),
        },
{
    match wide_size(ggml_type, n) {
        Ok(len) => Ok(len as usize),
        Err(e) => Err(e),
    }
}

/// One weight, taken apart.
#[derive(Debug, Clone, Copy, PartialEq, Eq, Structural)]
pub enum Element {
    /// The bit pattern of an `f32`.
    Plain(u32),
    /// `d * scale * quant - dmin * min`, where `d` and `dmin` are the bit patterns of
    /// half-precision numbers.
    Scaled { d: u16, scale: i32, quant: i32, dmin: u16, min: i32 },
}

/// The half-precision number at `at`, as a bit pattern.
pub open spec fn half_at(b: Seq<u8>, at: int) -> u16 {
    (b[at] + 256 * b[at + 1]) as u16
}

fn read_half(b: &[u8], at: usize) -> (h: u16)
    requires
        at + 2 <= b@.len(),
    ensures
        h == half_at(b@, at as int),
{
    b[at] as u16 + 256 * (b[at + 1] as u16)
}

/// Two to the `j`-th, within a byte.
pub open spec fn place_value(j: int) -> int {
    if j <= 0 {
        1
    } else if j == 1 {
        2
    } else if j == 2 {
        4
    } else if j == 3 {
        8
    } else if j == 4 {
        16
    } else if j == 5 {
        32
    } else if j == 6 {
        64
    } else {
        128
    }
}

fn power(j: usize) -> (w: u8)
    requires
        j < 8,
    ensures
        w == place_value(j as int),
        w > 0,
{
    if j == 0 {
        1
    } else if j == 1 {
        2
    } else if j == 2 {
        4
    } else if j == 3 {
        8
    } else if j == 4 {
        16
    } else if j == 5 {
        32
    } else if j == 6 {
        64
    } else {
        128
    }
}

/// Bit `j` of a byte.
pub open spec fn bit(b: u8, j: int) -> int {
    b as int / place_value(j) % 2
}

/// The pair of bits of a byte that starts at bit `2 * p`.
pub open spec fn two_bits(b: u8, p: int) -> int {
    b as int / place_value(2 * p) % 4
}

/// A byte read as a signed number.
pub open spec fn signed(b: u8) -> int {
    if b < 128 {
        b as int
    } else {
        b - 256
    }
}

fn read_bit(b: u8, j: usize) -> (r: i32)
    requires
        j < 8,
    ensures
        r == bit(b, j as int),
{
    (b / power(j) % 2) as i32
}

fn read_two_bits(b: u8, p: usize) -> (r: i32)
    requires
        p < 4,
    ensures
        r == two_bits(b, p as int),
{
    (b / power(2 * p) % 4) as i32
}

fn read_signed(b: u8) -> (r: i32)
    ensures
        r == signed(b),
{
    if b < 128 {
        b as i32
    } else {
        b as i32 - 256
    }
}

/// The 6-bit scale and the 6-bit minimum of sub-block `j`.
///
/// Eight scales and eight minima are packed into twelve bytes: the first four of each
/// sit in their own byte, the last four borrow the top two bits of an earlier one.
pub open spec fn scale_min(j: int, s: Seq<u8>) -> (int, int) {
    if j < 4 {
        (s[j] as int % 64, s[j + 4] as int % 64)
    } else {
        (
            s[j + 4] as int % 16 + 16 * (s[j - 4] as int / 64),
            s[j + 4] as int / 16 + 16 * (s[j] as int / 64),
        )
    }
}

/// Unpacks one 6-bit scale and minimum from the twelve packed bytes of a block.
pub fn get_scale_min_k4(j: usize, s: &[u8]) -> (r: (u8, u8))
    requires
        j < 8,
        s@.len() >= 12,
    ensures
        r.0 == scale_min(j as int, s@).0,
        r.1 == scale_min(j as int, s@).1,
{
    if j < 4 {
        (s[j] % 64, s[j + 4] % 64)
    } else {
        (s[j + 4] % 16 + 16 * (s[j - 4] / 64), s[j + 4] / 16 + 16 * (s[j] / 64))
    }
}

/// Twelve bytes that eight 6-bit scales and eight 6-bit minima are packed into.
pub open spec fn packed(scales: Seq<int>, mins: Seq<int>) -> Seq<u8> {
    Seq::new(
        12,
        |i: int|
            if i < 4 {
                (scales[i] + 64 * (scales[4 + i] / 16)) as u8
            } else if i < 8 {
                (mins[i - 4] + 64 * (mins[i] / 16)) as u8
            } else {
                (scales[i - 4] % 16 + 16 * (mins[i - 4] % 16)) as u8
            },
    )
}

/// Unpacking gives back the scales and minima that were packed.
pub proof fn packed_scales_unpack(scales: Seq<int>, mins: Seq<int>, j: int)
    requires
        scales.len() == 8,
        mins.len() == 8,
        forall|i: int| 0 <= i < 8 ==> 0 <= #[trigger] scales[i] < 64,
        forall|i: int| 0 <= i < 8 ==> 0 <= #[trigger] mins[i] < 64,
        0 <= j < 8,
    ensures
        scale_min(j, packed(scales, mins)) == (scales[j], mins[j]),
{
    let s = packed(scales, mins);
    let at = if j < 4 {
        j
    } else {
        j - 4
    };
    let (a, b, c, d) = (scales[at], scales[at + 4], mins[at], mins[at + 4]);
    byte_parts(a, b / 16);
    byte_parts(c, d / 16);
    nibble_parts(b % 16, d % 16);
    assert(s[at] == (a + 64 * (b / 16)) as u8);
    assert(s[at + 4] == (c + 64 * (d / 16)) as u8);
    assert(s[at + 8] == (b % 16 + 16 * (d % 16)) as u8);
}

proof fn byte_parts(low: int, high: int)
    requires
        0 <= low < 64,
        0 <= high < 4,
    ensures
        ((low + 64 * high) as u8) as int % 64 == low,
        ((low + 64 * high) as u8) as int / 64 == high,
{
}

proof fn nibble_parts(low: int, high: int)
    requires
        0 <= low < 16,
        0 <= high < 16,
    ensures
        ((low + 16 * high) as u8) as int % 16 == low,
        ((low + 16 * high) as u8) as int / 16 == high,
{
}

/// The 6-bit scale of sub-block `k` among the sixteen that are packed into twelve
/// bytes: the low nibbles two to a byte in the first eight, the high bits four to a
/// byte in the last four.
pub open spec fn scale_k3(k: int, s: Seq<u8>) -> int {
    (if k < 8 {
        s[k] as int % 16
    } else {
        s[k - 8] as int / 16
    }) + 16 * two_bits(s[8 + k % 4], k / 4)
}

fn read_scale_k3(k: usize, s: &[u8]) -> (r: i32)
    requires
        k < 16,
        s@.len() >= 12,
    ensures
        r == scale_k3(k as int, s@),
        0 <= r < 64,
{
    let low: u8 = if k < 8 {
        s[k] % 16
    } else {
        s[k - 8] / 16
    };
    low as i32 + 16 * read_two_bits(s[8 + k % 4], k / 4)
}

/// A scale and sixteen bytes: the low nibbles are the first sixteen elements, the high
/// ones the rest, each centred by eight.
pub open spec fn in_q4_0(b: Seq<u8>, k: int) -> Element {
    let nibble = if k < 16 {
        b[2 + k] as int % 16
    } else {
        b[2 + k - 16] as int / 16
    };
    Element::Scaled {
        d: half_at(b, 0),
        scale: 1,
        quant: (nibble - 8) as i32,
        dmin: 0,
        min: 0,
    }
}

/// A scale and 32 signed bytes.
pub open spec fn in_q8_0(b: Seq<u8>, k: int) -> Element {
    Element::Scaled {
        d: half_at(b, 0),
        scale: 1,
        quant: signed(b[2 + k]) as i32,
        dmin: 0,
        min: 0,
    }
}

/// Sixteen sub-blocks of sixteen, each with a nibble of scale and one of min.
pub open spec fn in_q2_k(b: Seq<u8>, k: int) -> Element {
    let half = k / 128;
    let l = k % 32;
    Element::Scaled {
        d: half_at(b, 80),
        scale: (b[k / 16] as int % 16) as i32,
        quant: two_bits(b[16 + half * 32 + l], k % 128 / 32) as i32,
        dmin: half_at(b, 82),
        min: (b[k / 16] as int / 16) as i32,
    }
}

/// Sixteen sub-blocks of sixteen with a 6-bit scale each. A set high bit means that
/// four is not taken off.
pub open spec fn in_q3_k(b: Seq<u8>, k: int) -> Element {
    let half = k / 128;
    let l = k % 32;
    Element::Scaled {
        d: half_at(b, 108),
        scale: (scale_k3(k / 16, b.subrange(96, 108)) - 32) as i32,
        quant: (two_bits(b[32 + half * 32 + l], k % 128 / 32) - 4 * (1 - bit(
            b[l],
            k / 32,
        ))) as i32,
        dmin: 0,
        min: 0,
    }
}

/// Eight sub-blocks of 32 with a 6-bit scale and min each; two neighbours share 32
/// bytes, a nibble each.
pub open spec fn in_q4_k(b: Seq<u8>, k: int) -> Element {
    let l = k % 32;
    let byte = b[16 + k / 64 * 32 + l];
    let (scale, min) = scale_min(k / 32, b.subrange(4, 16));
    Element::Scaled {
        d: half_at(b, 0),
        scale: scale as i32,
        quant: (if k % 64 < 32 {
            byte as int % 16
        } else {
            byte as int / 16
        }) as i32,
        dmin: half_at(b, 2),
        min: min as i32,
    }
}

/// Like `Q4_K`, with a fifth bit per element.
pub open spec fn in_q5_k(b: Seq<u8>, k: int) -> Element {
    let l = k % 32;
    let byte = b[48 + k / 64 * 32 + l];
    let (scale, min) = scale_min(k / 32, b.subrange(4, 16));
    Element::Scaled {
        d: half_at(b, 0),
        scale: scale as i32,
        quant: ((if k % 64 < 32 {
            byte as int % 16
        } else {
            byte as int / 16
        }) + 16 * bit(b[16 + l], k / 32)) as i32,
        dmin: half_at(b, 2),
        min: min as i32,
    }
}

/// Sixteen sub-blocks of sixteen with a signed scale each; four low bits and two high
/// ones per element, centred by 32.
pub open spec fn in_q6_k(b: Seq<u8>, k: int) -> Element {
    let half = k / 128;
    let l = k % 32;
    let quarter = k % 128 / 32;
    let byte = b[half * 64 + quarter % 2 * 32 + l];
    Element::Scaled {
        d: half_at(b, 208),
        scale: signed(b[192 + k / 16]) as i32,
        quant: ((if quarter < 2 {
            byte as int % 16
        } else {
            byte as int / 16
        }) + 16 * two_bits(b[128 + half * 32 + l], quarter) - 32) as i32,
        dmin: 0,
        min: 0,
    }
}

/// Element `k` of one block of `ggml_type`.
pub open spec fn in_block(ggml_type: u32, b: Seq<u8>, k: int) -> Element {
    if ggml_type == F32 {
        Element::Plain(bytes::value(b.subrange(0, 4)) as u32)
    } else if ggml_type == F16 {
        Element::Plain(half_to_single(half_at(b, 0)))
    } else if ggml_type == Q4_0 {
        in_q4_0(b, k)
    } else if ggml_type == Q8_0 {
        in_q8_0(b, k)
    } else if ggml_type == Q2_K {
        in_q2_k(b, k)
    } else if ggml_type == Q3_K {
        in_q3_k(b, k)
    } else if ggml_type == Q4_K {
        in_q4_k(b, k)
    } else if ggml_type == Q5_K {
        in_q5_k(b, k)
    } else {
        in_q6_k(b, k)
    }
}

/// Element `i` of a tensor of `ggml_type` stored in `raw`.
pub open spec fn element(ggml_type: u32, raw: Seq<u8>, i: int) -> Element {
    let (elems, size) = layout(ggml_type).unwrap();
    let block = i / (elems as int);
    in_block(ggml_type, raw.subrange(block * size, (block + 1) * size), i % (elems as int))
}

/// A half-precision number widened to single precision, which is exact. Both are bit
/// patterns.
pub open spec fn half_to_single(h: u16) -> u32 {
    let sign: int = if h >= 0x8000 {
        0x8000_0000
    } else {
        0
    };
    let exponent = h as int % 0x8000 / 1024;
    let mantissa = h as int % 1024;
    (sign + if exponent == 31 {
        if mantissa == 0 {
            0x7F80_0000
        } else {
            0x7FC0_0000
        }
    } else if exponent > 0 {
        (exponent + 112) * 0x80_0000 + mantissa * 0x2000
    } else if mantissa == 0 {
        0
    } else {
        // Subnormal: the leading one becomes the hidden one.
        let k = top_bit(mantissa);
        (k + 103) * 0x80_0000 + (mantissa - pow2(k as nat)) * pow2((23 - k) as nat)
    }) as u32
}

/// The place of the highest bit of a mantissa.
pub open spec fn top_bit(m: int) -> int
    decreases m,
{
    if m <= 1 {
        0
    } else {
        1 + top_bit(m / 2)
    }
}


/// The place of the highest bit, by halving.
fn highest_bit(m: u32) -> (k: u32)
    requires
        m < 1024,
    ensures
        k == top_bit(m as int),
        k < 10,
        m > 0 ==> pow2(k as nat) <= m < 2 * pow2(k as nat),
    decreases m,
{
    proof {
        lemma2_to64();
        top_bit_bounds(m as int, 10);
    }
    if m <= 1 {
        0
    } else {
        1 + highest_bit(m / 2)
    }
}

/// A mantissa lies between its highest bit and twice that.
proof fn top_bit_bounds(m: int, n: nat)
    requires
        0 <= m < pow2(n),
        n > 0,
    ensures
        0 <= top_bit(m) < n,
        m > 0 ==> pow2(top_bit(m) as nat) <= m < 2 * pow2(top_bit(m) as nat),
    decreases n,
{
    lemma_pow2_unfold(n);
    lemma2_to64();
    if m > 1 {
        if n > 1 {
            top_bit_bounds(m / 2, (n - 1) as nat);
            lemma_pow2_unfold(top_bit(m) as nat);
        }
    }
}

/// Half to single precision, bit pattern to bit pattern.
pub fn f16_to_f32(h: u16) -> (bits: u32)
    ensures
        bits == half_to_single(h),
{
    let sign: u32 = if h >= 0x8000 {
        0x8000_0000
    } else {
        0
    };
    let exponent: u32 = (h % 0x8000 / 1024) as u32;
    let mantissa: u32 = (h % 1024) as u32;
    if exponent == 31 {
        if mantissa == 0 {
            sign + 0x7F80_0000
        } else {
            sign + 0x7FC0_0000
        }
    } else if exponent > 0 {
        sign + (exponent + 112) * 0x80_0000 + mantissa * 0x2000
    } else if mantissa == 0 {
        sign
    } else {
        let k: u32 = highest_bit(mantissa);
        let unit: u32 = two_to(k);
        let shift: u32 = two_to(23 - k);
        proof {
            fraction_fits(mantissa as int, k as nat);
        }
        sign + (k + 103) * 0x80_0000 + (mantissa - unit) * shift
    }
}

/// Two to the `k`-th.
fn two_to(k: u32) -> (r: u32)
    requires
        k < 24,
    ensures
        r == pow2(k as nat),
        r <= 0x80_0000,
    decreases k,
{
    proof {
        lemma2_to64();
        if k > 0 {
            lemma_pow2_unfold(k as nat);
        }
        if k < 23 {
            lemma_pow2_strictly_increases(k as nat, 23);
        }
    }
    if k == 0 {
        1
    } else {
        let half: u32 = two_to(k - 1);
        half + half
    }
}

/// What a normalised subnormal leaves for the fraction fits the 23 bits it has.
proof fn fraction_fits(m: int, k: nat)
    requires
        k < 10,
        pow2(k) <= m < 2 * pow2(k),
    ensures
        0 <= (m - pow2(k)) * pow2((23 - k) as nat) < 0x80_0000,
{
    lemma2_to64();
    lemma_pow2_adds(k, (23 - k) as nat);
    let (a, b) = (pow2(k) as int, pow2((23 - k) as nat) as int);
    assert(a * b == 0x80_0000);
    assert(0 <= (m - a) * b < a * b) by (nonlinear_arith)
        requires
            a <= m < 2 * a,
            b > 0,
    ;
}

/// The magnitude of a finite half-precision number, in units of two to the minus 24.
pub open spec fn half_units(h: u16) -> nat {
    let exponent = h as int % 0x8000 / 1024;
    let mantissa = h as int % 1024;
    if exponent == 0 {
        mantissa as nat
    } else {
        ((1024 + mantissa) as nat) * pow2((exponent - 1) as nat)
    }
}

/// The magnitude of a finite single-precision number, in units of two to the minus 149.
pub open spec fn single_units(bits: u32) -> nat {
    let exponent = bits as int % 0x8000_0000 / 0x80_0000;
    let mantissa = bits as int % 0x80_0000;
    if exponent == 0 {
        mantissa as nat
    } else {
        ((0x80_0000 + mantissa) as nat) * pow2((exponent - 1) as nat)
    }
}

/// Widening is exact: a finite half-precision number keeps its value and its sign.
pub proof fn widening_is_exact(h: u16)
    requires
        h as int % 0x8000 / 1024 != 31,
    ensures
        single_units(half_to_single(h)) == half_units(h) * pow2(125),
        (half_to_single(h) >= 0x8000_0000) == (h >= 0x8000),
{
    let exponent = h as int % 0x8000 / 1024;
    let mantissa = h as int % 1024;
    lemma2_to64();
    if exponent > 0 {
        let (e, m) = (exponent + 112, mantissa * 0x2000);
        parts_read_back(h >= 0x8000, e, m);
        lemma_pow2_adds((exponent - 1) as nat, 112);
        lemma_pow2_adds(13, 112);
        let (p, q) = (pow2((exponent - 1) as nat) as int, pow2(112) as int);
        assert((0x80_0000 + m) * (p * q) == ((1024 + mantissa) * p) * (0x2000 * q))
            by (nonlinear_arith)
            requires
                m == mantissa * 0x2000,
        ;
    } else if mantissa > 0 {
        let k = top_bit(mantissa);
        top_bit_bounds(mantissa, 10);
        let shift = pow2((23 - k) as nat) as int;
        let unit = pow2(k as nat) as int;
        let m = (mantissa - unit) * shift;
        fraction_fits(mantissa, k as nat);
        parts_read_back(h >= 0x8000, k + 103, m);
        lemma_pow2_adds(k as nat, (23 - k) as nat);
        lemma_pow2_adds((23 - k) as nat, (k + 102) as nat);
        let q = pow2((k + 102) as nat) as int;
        assert((0x80_0000 + m) * q == mantissa * (shift * q)) by (nonlinear_arith)
            requires
                m == (mantissa - unit) * shift,
                unit * shift == 0x80_0000,
        ;
    } else {
        assert(0 * pow2(125) == 0);
    }
}

/// Sign, exponent and fraction come out of a bit pattern as they went in.
proof fn parts_read_back(negative: bool, e: int, m: int)
    requires
        0 <= e < 255,
        0 <= m < 0x80_0000,
    ensures
        ({
            let bits = (if negative {
                0x8000_0000
            } else {
                0int
            }) + (e * 0x80_0000 + m);
            &&& 0 <= bits <= u32::MAX
            &&& bits % 0x8000_0000 / 0x80_0000 == e
            &&& bits % 0x80_0000 == m
            &&& (bits >= 0x8000_0000) == negative
        }),
{
}

impl Element {
    /// True when the value the element stands for is finite: of a half-precision
    /// factor that is not, no product and no difference is.
    pub open spec fn finite(self) -> bool {
        match self {
            Element::Plain(bits) => bits as int % 0x8000_0000 < 0x7F80_0000,
            Element::Scaled { d, dmin, .. } => half_finite(d) && half_finite(dmin),
        }
    }

    pub fn is_finite(&self) -> (r: bool)
        ensures
            r == self.finite(),
    {
        match self {
            Element::Plain(bits) => *bits % 0x8000_0000 < 0x7F80_0000,
            Element::Scaled { d, dmin, .. } => *d % 0x8000 < 0x7C00 && *dmin % 0x8000 < 0x7C00,
        }
    }
}

pub open spec fn half_finite(h: u16) -> bool {
    h as int % 0x8000 < 0x7C00
}

fn read_q4_0(b: &[u8], k: usize) -> (e: Element)
    requires
        k < 32,
        b@.len() == 18,
    ensures
        e == in_q4_0(b@, k as int),
{
    let nibble: u8 = if k < 16 {
        b[2 + k] % 16
    } else {
        b[2 + k - 16] / 16
    };
    Element::Scaled {
        d: read_half(b, 0),
        scale: 1,
        quant: nibble as i32 - 8,
        dmin: 0,
        min: 0,
    }
}

fn read_q8_0(b: &[u8], k: usize) -> (e: Element)
    requires
        k < 32,
        b@.len() == 34,
    ensures
        e == in_q8_0(b@, k as int),
{
    Element::Scaled {
        d: read_half(b, 0),
        scale: 1,
        quant: read_signed(b[2 + k]),
        dmin: 0,
        min: 0,
    }
}

fn read_q2_k(b: &[u8], k: usize) -> (e: Element)
    requires
        k < 256,
        b@.len() == 84,
    ensures
        e == in_q2_k(b@, k as int),
{
    let half: usize = k / 128;
    let l: usize = k % 32;
    Element::Scaled {
        d: read_half(b, 80),
        scale: (b[k / 16] % 16) as i32,
        quant: read_two_bits(b[16 + half * 32 + l], k % 128 / 32),
        dmin: read_half(b, 82),
        min: (b[k / 16] / 16) as i32,
    }
}

fn read_q3_k(b: &[u8], k: usize) -> (e: Element)
    requires
        k < 256,
        b@.len() == 110,
    ensures
        e == in_q3_k(b@, k as int),
{
    let half: usize = k / 128;
    let l: usize = k % 32;
    let high: i32 = read_bit(b[l], k / 32);
    Element::Scaled {
        d: read_half(b, 108),
        scale: read_scale_k3(k / 16, slice_subrange(b, 96, 108)) - 32,
        quant: read_two_bits(b[32 + half * 32 + l], k % 128 / 32) - 4 * (1 - high),
        dmin: 0,
        min: 0,
    }
}

fn read_q4_k(b: &[u8], k: usize) -> (e: Element)
    requires
        k < 256,
        b@.len() == 144,
    ensures
        e == in_q4_k(b@, k as int),
{
    let l: usize = k % 32;
    let byte: u8 = b[16 + k / 64 * 32 + l];
    let (scale, min) = get_scale_min_k4(k / 32, slice_subrange(b, 4, 16));
    Element::Scaled {
        d: read_half(b, 0),
        scale: scale as i32,
        quant: (if k % 64 < 32 {
            byte % 16
        } else {
            byte / 16
        }) as i32,
        dmin: read_half(b, 2),
        min: min as i32,
    }
}

fn read_q5_k(b: &[u8], k: usize) -> (e: Element)
    requires
        k < 256,
        b@.len() == 176,
    ensures
        e == in_q5_k(b@, k as int),
{
    let l: usize = k % 32;
    let byte: u8 = b[48 + k / 64 * 32 + l];
    let (scale, min) = get_scale_min_k4(k / 32, slice_subrange(b, 4, 16));
    let nibble: u8 = if k % 64 < 32 {
        byte % 16
    } else {
        byte / 16
    };
    Element::Scaled {
        d: read_half(b, 0),
        scale: scale as i32,
        quant: nibble as i32 + 16 * read_bit(b[16 + l], k / 32),
        dmin: read_half(b, 2),
        min: min as i32,
    }
}

fn read_q6_k(b: &[u8], k: usize) -> (e: Element)
    requires
        k < 256,
        b@.len() == 210,
    ensures
        e == in_q6_k(b@, k as int),
{
    let half: usize = k / 128;
    let l: usize = k % 32;
    let quarter: usize = k % 128 / 32;
    let byte: u8 = b[half * 64 + quarter % 2 * 32 + l];
    let nibble: u8 = if quarter < 2 {
        byte % 16
    } else {
        byte / 16
    };
    Element::Scaled {
        d: read_half(b, 208),
        scale: read_signed(b[192 + k / 16]),
        quant: nibble as i32 + 16 * read_two_bits(b[128 + half * 32 + l], quarter) - 32,
        dmin: 0,
        min: 0,
    }
}

/// Reads element `k` out of one block.
fn read_in_block(ggml_type: u32, b: &[u8], k: usize) -> (e: Element)
    requires
        layout(ggml_type) matches Some((elems, size)) && k < elems && b@.len() == size,
    ensures
        e == in_block(ggml_type, b@, k as int),
{
    match ggml_type {
        F32 => Element::Plain(bytes::read_u32(b, 0)),
        F16 => Element::Plain(f16_to_f32(read_half(b, 0))),
        Q4_0 => read_q4_0(b, k),
        Q8_0 => read_q8_0(b, k),
        Q2_K => read_q2_k(b, k),
        Q3_K => read_q3_k(b, k),
        Q4_K => read_q4_k(b, k),
        Q5_K => read_q5_k(b, k),
        _ => read_q6_k(b, k),
    }
}

pub open spec fn length_message(ggml_type: u32, expected: nat, n: nat, got: nat) -> Seq<char> {
    name(ggml_type) + " tensor: expected "@ + text::decimal(expected) + " bytes for "@
        + text::decimal(n) + " elements, got "@ + text::decimal(got)
}

/// Why `got` bytes do not hold `n` elements of `ggml_type`, if they do not.
pub open spec fn decode_fault(ggml_type: u32, got: nat, n: nat) -> Option<Seq<char>> {
    match size_of(ggml_type, n) {
        Err(m) => Some(m),
        Ok(expected) => if got != expected {
            Some(length_message(ggml_type, expected, n, got))
        } else {
            None
        },
    }
}

/// Takes exactly `n` elements of `ggml_type` apart. No check for finiteness.
///
/// `raw` must be exactly [`byte_size`] long.
pub fn dequant_into(ggml_type: u32, raw: &[u8], n: usize) -> (r: Result<Vec<Element>, GarudaError>)
    ensures
        match r {
            Ok(out) => {
                &&& decode_fault(ggml_type, raw@.len(), n as nat) is None
                &&& out@ == Seq::new(n as nat, |i: int| element(ggml_type, raw@, i))
            },
            Err(e) => e matches GarudaError::Model(m) && decode_fault(
                ggml_type,
                raw@.len(),
                n as nat,
            ) == Some(m@),
        },
{
    let expected: u128 = match wide_size(ggml_type, n) {
        Ok(len) => len,
        Err(e) => {
            return Err(e);
        },
    };
    if raw.len() as u128 != expected {
        let mut m = name_of_type(ggml_type).to_owned();
        m.append(" tensor: expected ");
        push_wide(&mut m, expected);
        m.append(" bytes for ");
        push_size(&mut m, n);
        m.append(" elements, got ");
        push_size(&mut m, raw.len());
        return Err(GarudaError::Model(m));
    }
    let mut out: Vec<Element> = Vec::new();
    if let Some((elems, size)) = block_layout(ggml_type) {
        let mut block: usize = 0;
        let blocks: usize = n / elems;
        assert(raw@.len() == blocks * size);
        assert(n == blocks * elems) by {
            vstd::arithmetic::div_mod::lemma_fundamental_div_mod(n as int, elems as int);
            vstd::arithmetic::mul::lemma_mul_is_commutative(elems as int, blocks as int);
        }
        while block < blocks
            invariant
                layout(ggml_type) == Some((elems, size)),
                elems > 0,
                n == blocks * elems,
                block <= blocks,
                raw@.len() == blocks * size,
                raw@.len() <= usize::MAX,
                out@.len() == block * elems,
                forall|i: int|
                    0 <= i < out@.len() ==> #[trigger] out@[i] == element(ggml_type, raw@, i),
            decreases blocks - block,
        {
            assert((block + 1) * size <= blocks * size && (block + 1) * elems <= blocks * elems
                && block * size >= 0 && block * elems >= 0) by (nonlinear_arith)
                requires
                    block < blocks,
            ;
            assert((block + 1) * size == block * size + size) by (nonlinear_arith);
            assert((block + 1) * elems == block * elems + elems) by (nonlinear_arith);
            let b = slice_subrange(raw, block * size, (block + 1) * size);
            let mut k: usize = 0;
            while k < elems
                invariant
                    layout(ggml_type) == Some((elems, size)),
                    k <= elems,
                    b@ == raw@.subrange(block * size, (block + 1) * size),
                    b@.len() == size,
                    out@.len() == block * elems + k,
                    out@.len() <= usize::MAX,
                    block * elems + elems <= n,
                    forall|i: int|
                        0 <= i < out@.len() ==> #[trigger] out@[i] == element(ggml_type, raw@, i),
                decreases elems - k,
            {
                proof {
                    let i = block * elems + k;
                    vstd::arithmetic::div_mod::lemma_fundamental_div_mod_converse(
                        i,
                        elems as int,
                        block as int,
                        k as int,
                    );
                }
                out.push(read_in_block(ggml_type, b, k));
                k += 1;
            }
            block += 1;
        }
        assert(out@ =~= Seq::new(n as nat, |i: int| element(ggml_type, raw@, i)));
    }
    Ok(out)
}

pub open spec fn nonfinite_message(ggml_type: u32, at: nat) -> Seq<char> {
    name(ggml_type) + " tensor produced a non-finite value at index "@ + text::decimal(at)
}

/// The first of `n` elements that is not finite is the one at `at`.
pub open spec fn is_first_nonfinite(ggml_type: u32, raw: Seq<u8>, n: nat, at: int) -> bool {
    &&& 0 <= at < n
    &&& !element(ggml_type, raw, at).finite()
    &&& forall|i: int| 0 <= i < at ==> (#[trigger] element(ggml_type, raw, i)).finite()
}

/// What [`dequantize`] finds wrong with `n` elements, if anything.
pub open spec fn values_fault(ggml_type: u32, raw: Seq<u8>, n: nat) -> Option<Seq<char>> {
    match decode_fault(ggml_type, raw.len(), n) {
        Some(m) => Some(m),
        None => if exists|at: int| is_first_nonfinite(ggml_type, raw, n, at) {
            let at = choose|at: int| is_first_nonfinite(ggml_type, raw, n, at);
            Some(nonfinite_message(ggml_type, at as nat))
        } else {
            None
        },
    }
}

/// What taking `n` elements apart gives, where every one of them must be finite.
pub open spec fn decoded(
    ggml_type: u32,
    raw: Seq<u8>,
    n: nat,
    r: Result<Vec<Element>, GarudaError>,
) -> bool {
    match r {
        Ok(out) => {
            &&& values_fault(ggml_type, raw, n) is None
            &&& out@ == Seq::new(n, |i: int| element(ggml_type, raw, i))
            &&& forall|i: int| 0 <= i < n ==> #[trigger] element(ggml_type, raw, i).finite()
        },
        Err(e) => values_fault(ggml_type, raw, n) matches Some(m) && Fault::Model(m).is(e),
    }
}

/// Takes exactly `n` elements of `ggml_type` apart and rejects what is not finite, so
/// that a corrupt block is an error rather than a value that silently poisons
/// inference.
pub fn dequantize(ggml_type: u32, raw: &[u8], n: usize) -> (r: Result<Vec<Element>, GarudaError>)
    ensures
        decoded(ggml_type, raw@, n as nat, r),
        r is Ok <==> size_of(ggml_type, n as nat) == Ok::<nat, Seq<char>>(raw@.len()) && forall|
            i: int,
        |
            0 <= i < n ==> #[trigger] element(ggml_type, raw@, i).finite(),
        r matches Ok(out) ==> out@.len() == n && forall|i: int|
            0 <= i < n ==> #[trigger] out@[i] == element(ggml_type, raw@, i),
        r is Err ==> r->Err_0 is Model,
{
    let out = match dequant_into(ggml_type, raw, n) {
        Ok(out) => out,
        Err(e) => {
            return Err(e);
        },
    };
    let mut i: usize = 0;
    while i < out.len()
        invariant
            i <= out@.len(),
            out@.len() == n,
            decode_fault(ggml_type, raw@.len(), n as nat) is None,
            forall|k: int| 0 <= k < n ==> #[trigger] out@[k] == element(ggml_type, raw@, k),
            forall|k: int| 0 <= k < i ==> #[trigger] element(ggml_type, raw@, k).finite(),
        decreases out@.len() - i,
    {
        assert(out@[i as int] == element(ggml_type, raw@, i as int));
        if !out[i].is_finite() {
            let mut m = name_of_type(ggml_type).to_owned();
            m.append(" tensor produced a non-finite value at index ");
            push_size(&mut m, i);
            proof {
                assert(is_first_nonfinite(ggml_type, raw@, n as nat, i as int));
                let at = choose|at: int| is_first_nonfinite(ggml_type, raw@, n as nat, at);
                assert(at == i) by {
                    if at < i {
                        assert(element(ggml_type, raw@, at).finite());
                    } else if i < at {
                        assert(element(ggml_type, raw@, i as int).finite());
                    }
                }
            }
            return Err(GarudaError::Model(m));
        }
        i += 1;
    }
    Ok(out)
}

pub open spec fn weight_message(
    qtype: u32,
    got: nat,
    expected: nat,
    rows: nat,
    row_bytes: nat,
) -> Seq<char> {
    name(qtype) + " matvec: weight is "@ + text::decimal(got) + " bytes, expected "@
        + text::decimal(expected) + " ("@ + text::decimal(rows) + " rows \u{d7} "@ + text::decimal(
        row_bytes,
    ) + ")"@
}

pub open spec fn mismatch_message(x: nat, out: nat, cols: nat, rows: nat) -> Seq<char> {
    "matvec dimension mismatch: x="@ + text::decimal(x) + ", out="@ + text::decimal(out)
        + ", expected cols="@ + text::decimal(cols) + ", rows="@ + text::decimal(rows)
}

/// What stands in the way of multiplying a packed `rows` by `cols` matrix with a
/// vector, if anything; otherwise the bytes of a row.
pub open spec fn matvec_check(
    qtype: u32,
    weight: nat,
    rows: nat,
    cols: nat,
    x: nat,
    out: nat,
) -> Result<nat, Fault> {
    match size_of(qtype, cols) {
        Err(m) => Err(Fault::Model(m)),
        Ok(row_bytes) => if weight != rows * row_bytes {
            Err(
                Fault::Model(
                    weight_message(qtype, weight, rows * row_bytes, rows, row_bytes),
                ),
            )
        } else if x != cols || out != rows {
            Err(Fault::Inference(mismatch_message(x, out, cols, rows)))
        } else {
            Ok(row_bytes)
        },
    }
}

/// Checks the lengths that a product of a packed matrix with a vector goes by, and
/// gives the bytes of a row.
pub fn check_matvec(
    qtype: u32,
    weight_len: usize,
    rows: usize,
    cols: usize,
    x_len: usize,
    out_len: usize,
) -> (r: Result<usize, GarudaError>)
    requires
        size_of(qtype, cols as nat) matches Ok(b) ==> b <= usize::MAX && rows * b <= usize::MAX,
    ensures
        match r {
            Ok(row_bytes) => matvec_check(
                qtype,
                weight_len as nat,
                rows as nat,
                cols as nat,
                x_len as nat,
                out_len as nat,
            ) == Ok::<nat, Fault>(row_bytes as nat),
            Err(e) => matvec_check(
                qtype,
                weight_len as nat,
                rows as nat,
                cols as nat,
                x_len as nat,
                out_len as nat,
            ) matches Err(f) && f.is(e),
        },
        r matches Ok(b) ==> size_of(qtype, cols as nat) == Ok::<nat, Seq<char>>(b as nat),
        r is Ok <==> (size_of(qtype, cols as nat) matches Ok(b) && weight_len == rows * b && x_len
            == cols && out_len == rows),
{
    let row_bytes: usize = match byte_size(qtype, cols) {
        Ok(n) => n,
        Err(e) => {
            return Err(e);
        },
    };
    if weight_len != rows * row_bytes {
        let mut m = name_of_type(qtype).to_owned();
        m.append(" matvec: weight is ");
        push_size(&mut m, weight_len);
        m.append(" bytes, expected ");
        push_size(&mut m, rows * row_bytes);
        m.append(" (");
        push_size(&mut m, rows);
        m.append(" rows \u{d7} ");
        push_size(&mut m, row_bytes);
        m.append(")");
        return Err(GarudaError::Model(m));
    }
    if x_len != cols || out_len != rows {
        let mut m = "matvec dimension mismatch: x=".to_owned();
        push_size(&mut m, x_len);
        m.append(", out=");
        push_size(&mut m, out_len);
        m.append(", expected cols=");
        push_size(&mut m, cols);
        m.append(", rows=");
        push_size(&mut m, rows);
        return Err(GarudaError::Inference(m));
    }
    Ok(row_bytes)
}

/// What 32 neighbouring weights of a row contribute to its product with a vector of
/// bytes: `d * scale * dot - dmin * min * sum`, with everything but the factors summed
/// up in integers.
#[derive(Debug, Clone, Copy, PartialEq, Eq)]
pub struct Partial {
    pub d: u16,
    pub scale: i32,
    pub dot: i32,
    pub dmin: u16,
    pub min: i32,
    pub sum: i32,
}

/// The quants of sub-block `sb` of a row.
pub open spec fn quants(qtype: u32, row: Seq<u8>, sb: int) -> Seq<int> {
    Seq::new(32, |j: int| element(qtype, row, 32 * sb + j)->quant as int)
}

/// The bytes of a vector that face sub-block `sb`.
pub open spec fn facing(xq: Seq<i8>, sb: int) -> Seq<int> {
    simd::ints(xq.subrange(32 * sb, 32 * sb + 32))
}

impl Partial {
    /// This is what sub-block `sb` contributes: its elements share the factors, and
    /// the sums run over them.
    pub open spec fn is_of(self, qtype: u32, row: Seq<u8>, xq: Seq<i8>, sb: int) -> bool {
        &&& forall|j: int|
            0 <= j < 32 ==> (#[trigger] element(qtype, row, 32 * sb + j) matches Element::Scaled {
                d,
                scale,
                dmin,
                min,
                ..
            } && d == self.d && scale == self.scale && dmin == self.dmin && min == self.min)
        &&& self.dot == simd::dot(quants(qtype, row, sb), facing(xq, sb))
        &&& self.sum == simd::total(facing(xq, sb))
    }
}

/// The types whose rows are multiplied without being expanded.
pub open spec fn integer_kernel(qtype: u32) -> bool {
    qtype == Q8_0 || qtype == Q4_K
}

pub fn has_integer_kernel(qtype: u32) -> (r: bool)
    ensures
        r == integer_kernel(qtype),
        r == (qtype == 8 || qtype == 12),
{
    qtype == Q8_0 || qtype == Q4_K
}

/// What 32 elements of a block, from `first` on, contribute.
fn block_partial(qtype: u32, b: &[u8], first: usize, x: &[i8]) -> (p: Partial)
    requires
        integer_kernel(qtype),
        layout(qtype) matches Some((elems, size)) && first + 32 <= elems && b@.len() == size,
        first % 32 == 0,
        x@.len() == 32,
    ensures
        forall|j: int|
            0 <= j < 32 ==> (#[trigger] in_block(qtype, b@, first + j) matches Element::Scaled {
                d,
                scale,
                dmin,
                min,
                ..
            } && d == p.d && scale == p.scale && dmin == p.dmin && min == p.min),
        p.dot == simd::dot(
            Seq::new(32, |j: int| in_block(qtype, b@, first + j)->quant as int),
            simd::ints(x@),
        ),
        p.sum == simd::total(simd::ints(x@)),
{
    let mut qs: Vec<i8> = Vec::new();
    let mut j: usize = 0;
    while j < QK
        invariant
            integer_kernel(qtype),
            layout(qtype) matches Some((elems, size)) && first + 32 <= elems && b@.len() == size,
            j <= 32,
            qs@.len() == j,
            forall|k: int|
                0 <= k < j ==> #[trigger] qs@[k] == in_block(qtype, b@, first + k)->quant,
        decreases 32 - j,
    {
        if let Element::Scaled { quant, .. } = read_in_block(qtype, b, first + j) {
            qs.push(quant as i8);
        } else {
            qs.push(0);
        }
        j += 1;
    }
    proof {
        assert(simd::ints(qs@) =~= Seq::new(
            32,
            |j: int| in_block(qtype, b@, first + j)->quant as int,
        ));
        simd::short_sums_fit(qs@, x@);
    }
    let dot: i32 = simd::dot_i8(qs.as_slice(), x);
    let sum: i32 = simd::sum_i8(x);
    if qtype == Q8_0 {
        Partial { d: read_half(b, 0), scale: 1, dot, dmin: 0, min: 0, sum }
    } else {
        let (scale, min) = get_scale_min_k4(first / 32, slice_subrange(b, 4, 16));
        Partial {
            d: read_half(b, 0),
            scale: scale as i32,
            dot,
            dmin: read_half(b, 2),
            min: min as i32,
            sum,
        }
    }
}

/// Sub-block `sb` of a row lies in block `sb / per`, from element `sb % per * 32` on.
proof fn sub_block_place(qtype: u32, row: Seq<u8>, sb: int, per: int, size: int, j: int)
    requires
        layout(qtype) == Some(((32 * per) as usize, size as usize)),
        per == 1 || per == 8,
        0 <= size <= 144,
        0 <= sb,
        0 <= j < 32,
    ensures
        element(qtype, row, 32 * sb + j) == in_block(
            qtype,
            row.subrange(sb / per * size, sb / per * size + size),
            sb % per * 32 + j,
        ),
{
    let i = 32 * sb + j;
    assert(i / (32 * per) == sb / per && i % (32 * per) == sb % per * 32 + j);
    assert((sb / per + 1) * size == sb / per * size + size) by (nonlinear_arith);
}

/// One packed row against a vector of bytes, 32 elements at a time.
#[verifier::spinoff_prover]
#[verifier::rlimit(40)]
pub fn row_partials(qtype: u32, row: &[u8], xq: &[i8]) -> (out: Vec<Partial>)
    requires
        integer_kernel(qtype),
        size_of(qtype, xq@.len()) == Ok::<nat, Seq<char>>(row@.len()),
    ensures
        out@.len() == xq@.len() / 32,
        forall|sb: int| 0 <= sb < out@.len() ==> (#[trigger] out@[sb]).is_of(qtype, row@, xq@, sb),
{
    let mut out: Vec<Partial> = Vec::new();
    let n: usize = xq.len() / QK;
    let (per, size): (usize, usize) = if qtype == Q8_0 {
        (1, 34)
    } else {
        (8, 144)
    };
    assert(xq@.len() == 32 * n);
    assert(n % per == 0 && row@.len() == n / per * size);
    assert(row@.len() == row.len());
    while out.len() < n
        invariant
            integer_kernel(qtype),
            per == 1 || per == 8,
            size <= 144,
            layout(qtype) == Some(((32 * per) as usize, size)),
            n % per == 0,
            row@.len() == n / per * size,
            row@.len() <= usize::MAX,
            xq@.len() == 32 * n,
            xq@.len() <= usize::MAX,
            out@.len() <= n,
            forall|sb: int|
                0 <= sb < out@.len() ==> (#[trigger] out@[sb]).is_of(qtype, row@, xq@, sb),
        decreases n - out@.len(),
    {
        let sb: usize = out.len();
        let block: usize = sb / per;
        assert(block < n / per);
        assert(block * size + size <= row@.len()) by (nonlinear_arith)
            requires
                block < n / per,
                row@.len() == n / per * size,
        ;
        let b = slice_subrange(row, block * size, block * size + size);
        let x = slice_subrange(xq, sb * QK, sb * QK + QK);
        let partial = block_partial(qtype, b, sb % per * QK, x);
        proof {
            let first = sb % per * 32;
            assert forall|j: int| 0 <= j < 32 implies #[trigger] element(
                qtype,
                row@,
                32 * sb + j,
            ) == in_block(qtype, b@, first + j) by {
                sub_block_place(qtype, row@, sb as int, per as int, size as int, j);
            }
            assert(Seq::new(32, |j: int| in_block(qtype, b@, first + j)->quant as int) =~= quants(
                qtype,
                row@,
                sb as int,
            ));
            assert(partial.is_of(qtype, row@, xq@, sb as int));
        }
        out.push(partial);
    }
    out
}

} // verus!
