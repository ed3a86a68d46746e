//! What comparing numbers by their bit patterns promises of the numbers themselves.

use crate::quant;
use crate::routing;
use crate::sampling;
use crate::sampling::{Candidate, SamplingParams};
use vstd::arithmetic::power2::*;
use vstd::prelude::*;

verus! {

/// The exponent field of a single-precision number.
pub open spec fn exponent_of(bits: u32) -> int {
    bits as int % 0x8000_0000 / 0x80_0000
}

/// The fraction field of a single-precision number.
pub open spec fn fraction_of(bits: u32) -> int {
    bits as int % 0x80_0000
}

/// The value of a finite single-precision number, in units of two to the minus 149.
pub open spec fn amount(bits: u32) -> int {
    if bits >= 0x8000_0000 {
        -(quant::single_units(bits) as int)
    } else {
        quant::single_units(bits) as int
    }
}

/// What is finite, what is infinite and what is not a number is told by the exponent and the
/// fraction.
pub proof fn numbers_are_told_by_their_fields(bits: u32)
    ensures
        sampling::is_finite(bits) <==> exponent_of(bits) < 255,
        sampling::is_nan(bits) <==> exponent_of(bits) == 255 && fraction_of(bits) != 0,
{
}

/// A larger pattern without its sign is a larger magnitude.
proof fn magnitudes_grow(a: u32, b: u32)
    requires
        a < b < 0x7F80_0000,
    ensures
        quant::single_units(a) < quant::single_units(b),
{
    let (e, f) = (exponent_of(a), exponent_of(b));
    let (x, y) = (fraction_of(a), fraction_of(b));
    lemma2_to64();
    if e == f {
        if e > 0 {
            let p = pow2((e - 1) as nat) as int;
            lemma_pow2_pos((e - 1) as nat);
            assert((0x80_0000 + x) * p < (0x80_0000 + y) * p) by (nonlinear_arith)
                requires
                    x < y,
                    p > 0,
            ;
        }
    } else {
        assert(e < f);
        let q = pow2((f - 1) as nat) as int;
        lemma_pow2_pos((f - 1) as nat);
        assert((0x80_0000 + y) * q >= 0x80_0000 * q) by (nonlinear_arith)
            requires
                y >= 0,
                q > 0,
        ;
        if e == 0 {
            assert(0x80_0000 * q >= 0x80_0000) by (nonlinear_arith)
                requires
                    q >= 1,
            ;
        } else {
            let p = pow2((e - 1) as nat) as int;
            lemma_pow2_unfold(e as nat);
            if e < f - 1 {
                lemma_pow2_strictly_increases(e as nat, (f - 1) as nat);
            }
            assert(2 * p <= q);
            lemma_pow2_pos((e - 1) as nat);
            assert((0x80_0000 + x) * p < 0x80_0000 * q) by (nonlinear_arith)
                requires
                    0 <= x < 0x80_0000,
                    2 * p <= q,
                    p > 0,
            ;
        }
    }
}

/// One finite number exceeds another exactly where its value does.
pub proof fn numbers_compare_by_value(a: u32, b: u32)
    requires
        sampling::is_finite(a),
        sampling::is_finite(b),
    ensures
        sampling::greater(a, b) <==> amount(a) > amount(b),
{
    let m = sampling::magnitude(a) as u32;
    let n = sampling::magnitude(b) as u32;
    assert(quant::single_units(m) == quant::single_units(a));
    assert(quant::single_units(n) == quant::single_units(b));
    assert(quant::single_units(0) == 0);
    if m < n {
        magnitudes_grow(m, n);
    } else if n < m {
        magnitudes_grow(n, m);
    }
    if m > 0 {
        magnitudes_grow(0, m);
    }
    if n > 0 {
        magnitudes_grow(0, n);
    }
}

/// Infinity exceeds every finite number, and each of those exceeds negative infinity. What is
/// not a number neither exceeds nor is exceeded.
pub proof fn infinities_are_outermost(a: u32)
    ensures
        sampling::is_finite(a) ==> sampling::greater(0x7F80_0000, a) && sampling::greater(
            a,
            0xFF80_0000,
        ),
        sampling::greater(0x7F80_0000, 0xFF80_0000),
        forall|b: u32|
            sampling::is_nan(a) ==> !#[trigger] sampling::greater(a, b) && !sampling::greater(b, a),
{
}

/// The key of a score follows the number it stands for: the greater number has the greater
/// key. What is not a number goes outermost, and no two patterns share a key.
pub proof fn keys_follow_the_numbers(a: u32, b: u32)
    ensures
        sampling::greater(a, b) ==> routing::total_key(a) > routing::total_key(b),
        sampling::is_finite(a) && sampling::is_finite(b) && amount(a) > amount(b)
            ==> routing::total_key(a) > routing::total_key(b),
        a != b ==> routing::total_key(a) != routing::total_key(b),
        sampling::is_nan(a) && a < 0x8000_0000 && !sampling::is_nan(b) ==> routing::total_key(a)
            > routing::total_key(b),
        sampling::is_nan(a) && a >= 0x8000_0000 && !sampling::is_nan(b) ==> routing::total_key(a)
            < routing::total_key(b),
        routing::total_key(0) > routing::total_key(0x8000_0000),
{
    if sampling::is_finite(a) && sampling::is_finite(b) {
        numbers_compare_by_value(a, b);
    }
}

/// The candidates that sampling chooses between come most likely first: none exceeds one
/// before it, and none that was left out exceeds one that was kept.
pub proof fn candidates_come_most_likely_first(out: Seq<Candidate>, probs: Seq<u32>, top_k: nat)
    requires
        probs.len() <= u32::MAX,
        forall|t: int| 0 <= t < probs.len() ==> !sampling::is_nan(#[trigger] probs[t]),
        sampling::is_most_likely(out, probs, top_k),
    ensures
        top_k == 0 || top_k >= probs.len() ==> out.len() == probs.len(),
        0 < top_k < probs.len() ==> out.len() == top_k,
        forall|i: int|
            0 <= i < out.len() ==> (#[trigger] out[i]).0 < probs.len() && out[i].1
                == probs[out[i].0 as int],
        forall|i: int, j: int|
            0 <= i < j < out.len() ==> (#[trigger] out[i]).0 != (#[trigger] out[j]).0
                && !sampling::greater(out[j].1, out[i].1) && (sampling::greater(out[i].1, out[j].1)
                || out[i].0 < out[j].0),
        forall|t: int, i: int|
            #![trigger probs[t], out[i]]
            0 <= t < probs.len() && 0 <= i < out.len() && (forall|j: int|
                0 <= j < out.len() ==> (#[trigger] out[j]).0 != t) ==> !sampling::greater(
                probs[t],
                out[i].1,
            ),
{
    assert forall|t: int, i: int|
        #![trigger probs[t], out[i]]
        0 <= t < probs.len() && 0 <= i < out.len() && (forall|j: int|
            0 <= j < out.len() ==> (#[trigger] out[j]).0 != t) implies !sampling::greater(
        probs[t],
        out[i].1,
    ) by {
        let c = sampling::candidate(probs, t);
        if out.contains(c) {
            let j = choose|j: int| 0 <= j < out.len() && out[j] == c;
            assert(out[j].0 == t);
        }
        assert(sampling::before(out[i], c));
    }
    assert forall|i: int, j: int| 0 <= i < j < out.len() implies (#[trigger] out[i]).0 != (
    #[trigger] out[j]).0 && !sampling::greater(out[j].1, out[i].1) && (sampling::greater(
        out[i].1,
        out[j].1,
    ) || out[i].0 < out[j].0) by {
        assert(sampling::before(out[i], out[j]));
        assert(out[i] == sampling::candidate(probs, out[i].0 as int));
        assert(out[j] == sampling::candidate(probs, out[j].0 as int));
        assert(!sampling::is_nan(probs[out[i].0 as int]));
        assert(!sampling::is_nan(probs[out[j].0 as int]));
    }
}

/// Greedy sampling takes a token that no other exceeds, the first such, where any logit is a
/// number above negative infinity.
pub proof fn greedy_takes_the_greatest(logits: Seq<u32>, i: int, j: int)
    requires
        sampling::is_argmax(logits, i),
        0 <= j < logits.len(),
    ensures
        !sampling::greater(logits[j], logits[i]),
        j < i ==> sampling::greater(logits[i], logits[j]) || sampling::is_nan(logits[j])
            || !sampling::greater(logits[j], 0xFF80_0000),
        sampling::greater(logits[j], 0xFF80_0000) ==> sampling::greater(logits[i], 0xFF80_0000),
        (forall|k: int|
            0 <= k < logits.len() ==> !sampling::greater(#[trigger] logits[k], 0xFF80_0000))
            ==> i == 0,
{
    if forall|k: int|
        0 <= k < logits.len() ==> !sampling::greater(#[trigger] logits[k], 0xFF80_0000) {
        assert forall|k: int| 0 <= k < logits.len() implies !sampling::counts(
            #[trigger] logits[k],
        ) by {
            assert(!sampling::greater(logits[k], 0xFF80_0000));
        }
    }
    if sampling::greater(logits[j], 0xFF80_0000) {
        assert(sampling::counts(logits[j]));
    }
    if !(exists|k: int| 0 <= k < logits.len() && sampling::counts(#[trigger] logits[k])) {
        assert(!sampling::counts(logits[j]));
        assert(!sampling::counts(logits[i]));
    }
}

/// Sampling parameters are refused exactly where the temperature is below zero or no finite
/// number, where the share is not above zero or exceeds one, or where no token is asked for;
/// in this order.
pub proof fn parameters_are_in_range(p: SamplingParams)
    ensures
        p.fault() is None <==> {
            &&& exponent_of(p.temperature_bits) < 255
            &&& amount(p.temperature_bits) >= 0
            &&& exponent_of(p.top_p_bits) < 255
            &&& 0 < amount(p.top_p_bits) <= amount(sampling::ONE_BITS)
            &&& p.max_tokens > 0
        },
        p.fault() == Some(sampling::SamplingFault::Temperature) <==> exponent_of(
            p.temperature_bits,
        ) == 255 || amount(p.temperature_bits) < 0,
        p.fault() == Some(sampling::SamplingFault::MaxTokens) ==> p.max_tokens == 0,
        p.fault() == Some(sampling::SamplingFault::TopP) ==> exponent_of(p.top_p_bits) == 255
            || amount(p.top_p_bits) <= 0 || amount(p.top_p_bits) > amount(sampling::ONE_BITS),
        p.fault() is None ==> (p.greedy() <==> amount(p.temperature_bits) == 0),
{
    numbers_are_told_by_their_fields(p.temperature_bits);
    numbers_are_told_by_their_fields(p.top_p_bits);
    assert(amount(0) == 0);
    if sampling::is_finite(p.temperature_bits) {
        numbers_compare_by_value(p.temperature_bits, 0);
        numbers_compare_by_value(0, p.temperature_bits);
    }
    if sampling::is_finite(p.top_p_bits) {
        numbers_compare_by_value(p.top_p_bits, 0);
        numbers_compare_by_value(p.top_p_bits, sampling::ONE_BITS);
    }
}

/// The pattern of one stands for one.
pub proof fn one_is_one()
    ensures
        amount(sampling::ONE_BITS) == pow2(149),
{
    lemma2_to64();
    lemma_pow2_adds(23, 126);
}

/// The experts that are chosen are as many as were asked for, or all there are, each once, and
/// in the order of their scores as numbers. None that is left out scores more than one that is
/// chosen.
pub proof fn the_chosen_score_the_most(out: Seq<usize>, scores: Seq<u32>, k: nat, i: int, j: int)
    requires
        routing::is_top(out, routing::total_keys(scores), k),
        0 <= i < out.len(),
        0 <= j < scores.len(),
    ensures
        k <= scores.len() ==> out.len() == k,
        k > scores.len() ==> out.len() == scores.len(),
        out[i] < scores.len(),
        !out.contains(j as usize) && j <= usize::MAX ==> !sampling::greater(
            scores[j],
            scores[out[i] as int],
        ),
        i < j < out.len() ==> out[i] != out[j] && !sampling::greater(
            scores[out[j] as int],
            scores[out[i] as int],
        ),
        i < j < out.len() && scores[out[i] as int] == scores[out[j] as int] ==> out[i] < out[j],
{
    let keys = routing::total_keys(scores);
    let a = out[i] as int;
    if !out.contains(j as usize) && j <= usize::MAX {
        assert(keys[j] == routing::total_key(scores[j]));
        keys_follow_the_numbers(scores[j], scores[a]);
        assert(routing::ranked_before(keys, a, j));
    }
    if i < j < out.len() {
        let b = out[j] as int;
        keys_follow_the_numbers(scores[b], scores[a]);
        assert(routing::ranked_before(keys, a, b));
    }
}

} // verus!
