//! Sampling parameters, the random generator, and the part of sampling that only
//! compares numbers.
//!
//! Logits and probabilities are `f32`s, carried as bit patterns. Ordering two of them
//! needs no arithmetic: a pattern without its sign bit grows with the magnitude.

use crate::types::Token;
use vstd::prelude::*;
use vstd::string::*;

verus! {

/// The pattern of positive infinity; a larger magnitude is not a number.
pub const INFINITY_BITS: u32 = 0x7F80_0000;

/// The pattern of one.
pub const ONE_BITS: u32 = 0x3F80_0000;

/// A pattern without its sign bit.
pub open spec fn magnitude(bits: u32) -> int {
    if bits >= 0x8000_0000 {
        bits - 0x8000_0000
    } else {
        bits as int
    }
}

/// Where a number stands among all others; both zeros stand at zero.
pub open spec fn rank(bits: u32) -> int {
    if bits >= 0x8000_0000 {
        -magnitude(bits)
    } else {
        magnitude(bits)
    }
}

pub open spec fn is_nan(bits: u32) -> bool {
    magnitude(bits) > INFINITY_BITS
}

pub open spec fn is_finite(bits: u32) -> bool {
    magnitude(bits) < INFINITY_BITS
}

/// `a > b` as `f32` compares them: false wherever one of them is not a number.
pub open spec fn greater(a: u32, b: u32) -> bool {
    !is_nan(a) && !is_nan(b) && rank(a) > rank(b)
}

fn magnitude_of(bits: u32) -> (m: u32)
    ensures
        m == magnitude(bits),
{
    if bits >= 0x8000_0000 {
        bits - 0x8000_0000
    } else {
        bits
    }
}

fn rank_of(bits: u32) -> (r: i64)
    ensures
        r == rank(bits),
{
    let m: i64 = magnitude_of(bits) as i64;
    if bits >= 0x8000_0000 {
        -m
    } else {
        m
    }
}

/// `a > b` as `f32` compares them.
pub fn exceeds(a: u32, b: u32) -> (r: bool)
    ensures
        r == greater(a, b),
{
    magnitude_of(a) <= INFINITY_BITS && magnitude_of(b) <= INFINITY_BITS && rank_of(a) > rank_of(b)
}

/// How to turn logits into a token.
#[derive(Debug, Clone, Copy, PartialEq, Eq)]
pub struct SamplingParams {
    /// Zero means greedy; the other knobs are then ignored. An `f32` bit pattern.
    pub temperature_bits: u32,
    /// Nucleus sampling: keep the smallest set of tokens whose probability sums to
    /// `top_p`; one disables it. An `f32` bit pattern.
    pub top_p_bits: u32,
    /// Keep only the `top_k` most likely tokens. Zero disables it.
    pub top_k: usize,
    pub max_tokens: usize,
    /// `None` draws a seed from the sequence id.
    pub seed: Option<u64>,
}

/// The pattern of 0.8.
pub const DEFAULT_TEMPERATURE_BITS: u32 = 0x3F4C_CCCD;

/// The pattern of 0.95.
pub const DEFAULT_TOP_P_BITS: u32 = 0x3F73_3333;

impl Default for SamplingParams {
    fn default() -> (p: Self)
        ensures
            p.temperature_bits == DEFAULT_TEMPERATURE_BITS,
            p.temperature_bits == 0x3F4C_CCCD,
            p.top_p_bits == DEFAULT_TOP_P_BITS,
            p.top_p_bits == 0x3F73_3333,
            p.top_k == 40,
            p.max_tokens == 128,
            p.seed is None,
    {
        SamplingParams {
            temperature_bits: DEFAULT_TEMPERATURE_BITS,
            top_p_bits: DEFAULT_TOP_P_BITS,
            top_k: 40,
            max_tokens: 128,
            seed: None,
        }
    }
}

/// What is wrong with sampling parameters.
#[derive(Debug, Clone, Copy, PartialEq, Eq)]
pub enum SamplingFault {
    Temperature,
    TopP,
    MaxTokens,
}

impl SamplingFault {
    pub open spec fn text(self, shown: Seq<char>) -> Seq<char> {
        match self {
            SamplingFault::Temperature => "temperature must be a non-negative number, got "@
                + shown,
            SamplingFault::TopP => "top_p must be in (0, 1], got "@ + shown,
            SamplingFault::MaxTokens => "max_tokens must be at least 1"@,
        }
    }

    /// The fault as a user reads it. `shown` is the offending number as text.
    pub fn message(&self, shown: &str) -> (s: String)
        ensures
            s@ == self.text(shown@),
            self is MaxTokens || exists|head: Seq<char>| s@ == #[trigger] (head + shown@),
    {
        match self {
            SamplingFault::Temperature => {
                let mut s = "temperature must be a non-negative number, got ".to_owned();
                s.append(shown);
                s
            },
            SamplingFault::TopP => {
                let mut s = "top_p must be in (0, 1], got ".to_owned();
                s.append(shown);
                s
            },
            SamplingFault::MaxTokens => "max_tokens must be at least 1".to_owned(),
        }
    }
}

impl SamplingParams {
    /// A finite number that is not below zero.
    pub open spec fn temperature_ok(self) -> bool {
        is_finite(self.temperature_bits) && rank(self.temperature_bits) >= 0
    }

    /// A number above zero and at most one.
    pub open spec fn top_p_ok(self) -> bool {
        is_finite(self.top_p_bits) && 0 < rank(self.top_p_bits) <= ONE_BITS
    }

    pub open spec fn fault(self) -> Option<SamplingFault> {
        if !self.temperature_ok() {
            Some(SamplingFault::Temperature)
        } else if !self.top_p_ok() {
            Some(SamplingFault::TopP)
        } else if self.max_tokens == 0 {
            Some(SamplingFault::MaxTokens)
        } else {
            None
        }
    }

    /// True for greedy decoding.
    pub open spec fn greedy(self) -> bool {
        rank(self.temperature_bits) == 0
    }

    pub fn validate(&self) -> (r: Result<(), SamplingFault>)
        ensures
            match r {
                Ok(_) => self.fault() is None,
                Err(f) => self.fault() == Some(f),
            },
    {
        if magnitude_of(self.temperature_bits) >= INFINITY_BITS || rank_of(self.temperature_bits)
            < 0 {
            return Err(SamplingFault::Temperature);
        }
        let p: i64 = rank_of(self.top_p_bits);
        if magnitude_of(self.top_p_bits) >= INFINITY_BITS || p <= 0 || p > ONE_BITS as i64 {
            return Err(SamplingFault::TopP);
        }
        if self.max_tokens == 0 {
            return Err(SamplingFault::MaxTokens);
        }
        Ok(())
    }

    pub fn is_greedy(&self) -> (b: bool)
        ensures
            b == self.greedy(),
    {
        rank_of(self.temperature_bits) == 0
    }
}

/// The increment of the generator's state.
pub const GOLDEN_GAMMA: u64 = 0x9E37_79B9_7F4A_7C15;

/// The output function of the generator.
pub open spec fn mixed(state: u64) -> u64 {
    let a = (state ^ (state >> 30)).wrapping_mul(0xBF58_476D_1CE4_E5B9u64);
    let b = (a ^ (a >> 27)).wrapping_mul(0x94D0_49BB_1331_11EBu64);
    b ^ (b >> 31)
}

/// Small deterministic generator, so a seeded request replays exactly.
#[derive(Debug, Clone, Copy, PartialEq, Eq)]
pub struct Rng(u64);

impl Rng {
    pub closed spec fn state(self) -> u64 {
        self.0
    }

    pub fn new(seed: u64) -> (r: Self)
        ensures
            r.state() == seed ^ GOLDEN_GAMMA,
            r.state() == seed ^ 0x9E37_79B9_7F4A_7C15,
    {
        Rng(seed ^ GOLDEN_GAMMA)
    }

    pub fn next_u64(&mut self) -> (x: u64)
        ensures
            final(self).state() == old(self).state().wrapping_add(GOLDEN_GAMMA),
            x == mixed(final(self).state()),
            final(self).state() == old(self).state().wrapping_add(0x9E37_79B9_7F4A_7C15),
            ({
                let z = final(self).state();
                let a = (z ^ (z >> 30)).wrapping_mul(0xBF58_476D_1CE4_E5B9u64);
                let b = (a ^ (a >> 27)).wrapping_mul(0x94D0_49BB_1331_11EBu64);
                x == b ^ (b >> 31)
            }),
    {
        self.0 = self.0.wrapping_add(GOLDEN_GAMMA);
        let z: u64 = self.0;
        let a: u64 = (z ^ (z >> 30)).wrapping_mul(0xBF58_476D_1CE4_E5B9);
        let b: u64 = (a ^ (a >> 27)).wrapping_mul(0x94D0_49BB_1331_11EB);
        b ^ (b >> 31)
    }

    /// The numerator of a uniform fraction in `[0, 1)` whose denominator is two to the
    /// twenty-fourth: the high bits of the next number.
    pub fn next_fraction(&mut self) -> (n: u32)
        ensures
            final(self).state() == old(self).state().wrapping_add(GOLDEN_GAMMA),
            n == mixed(final(self).state()) >> 40u64,
            n < 0x100_0000,
            ({
                let z = final(self).state();
                let a = (z ^ (z >> 30)).wrapping_mul(0xBF58_476D_1CE4_E5B9u64);
                let b = (a ^ (a >> 27)).wrapping_mul(0x94D0_49BB_1331_11EBu64);
                n == (b ^ (b >> 31)) >> 40u64
            }),
    {
        let x: u64 = self.next_u64();
        assert((x >> 40u64) < 0x100_0000) by (bit_vector);
        (x >> 40) as u32
    }
}

/// Index `i` is what greedy sampling takes: the first of the greatest logits, numbers
/// only, and the first one where no logit is a number above negative infinity.
pub open spec fn is_argmax(logits: Seq<u32>, i: int) -> bool {
    &&& 0 <= i < logits.len()
    &&& if exists|j: int| 0 <= j < logits.len() && counts(#[trigger] logits[j]) {
        &&& counts(logits[i])
        &&& forall|j: int| 0 <= j < logits.len() ==> !greater(#[trigger] logits[j], logits[i])
        &&& forall|j: int| 0 <= j < i ==> greater(logits[i], #[trigger] logits[j]) || !counts(
            logits[j],
        )
    } else {
        i == 0
    }
}

/// A number above negative infinity.
pub open spec fn counts(bits: u32) -> bool {
    !is_nan(bits) && rank(bits) > -(INFINITY_BITS as int)
}

/// The index that greedy sampling takes.
pub open spec fn greedy_choice(logits: Seq<u32>) -> int {
    choose|i: int| is_argmax(logits, i)
}

/// Greedy sampling leaves nothing open: only one index can be taken.
pub proof fn argmax_is_unique(logits: Seq<u32>, i: int)
    requires
        is_argmax(logits, i),
    ensures
        greedy_choice(logits) == i,
{
    let j = greedy_choice(logits);
    assert(is_argmax(logits, j));
    if exists|k: int| 0 <= k < logits.len() && counts(#[trigger] logits[k]) {
        assert(!greater(logits[i], logits[j]));
        assert(!greater(logits[j], logits[i]));
    }
}

/// The token greedy sampling takes. `None` where there are no logits.
pub fn argmax(logits: &[u32]) -> (r: Option<usize>)
    ensures
        match r {
            Some(i) => is_argmax(logits@, i as int),
            None => logits@.len() == 0,
        },
        r matches Some(i) ==> forall|j: int|
            0 <= j < logits@.len() ==> !greater(#[trigger] logits@[j], logits@[i as int]),
        r matches Some(i) ==> forall|j: int|
            0 <= j < i ==> !counts(#[trigger] logits@[j]) || greater(logits@[i as int], logits@[j]),
{
    if logits.len() == 0 {
        return None;
    }
    let mut best: usize = 0;
    let mut best_bits: u32 = 0xFF80_0000;
    let mut i: usize = 0;
    while i < logits.len()
        invariant
            i <= logits@.len(),
            logits@.len() > 0,
            best < logits@.len(),
            best_bits == 0xFF80_0000u32 ==> best == 0 && forall|j: int|
                0 <= j < i ==> !counts(#[trigger] logits@[j]),
            best_bits != 0xFF80_0000u32 ==> {
                &&& best < i
                &&& best_bits == logits@[best as int]
                &&& counts(best_bits)
                &&& forall|j: int| 0 <= j < i ==> !greater(#[trigger] logits@[j], best_bits)
                &&& forall|j: int|
                    0 <= j < best ==> greater(best_bits, #[trigger] logits@[j]) || !counts(
                        logits@[j],
                    )
            },
        decreases logits@.len() - i,
    {
        if exceeds(logits[i], best_bits) {
            best = i;
            best_bits = logits[i];
        }
        i += 1;
    }
    assert(best_bits == 0xFF80_0000u32 ==> forall|j: int|
        0 <= j < logits@.len() ==> !greater(#[trigger] logits@[j], logits@[0]));
    Some(best)
}

/// A token with its probability, as an `f32` bit pattern.
pub type Candidate = (Token, u32);

/// The more likely candidate comes first; ties break on the token, so the order is
/// strict.
pub open spec fn before(a: Candidate, b: Candidate) -> bool {
    rank(a.1) > rank(b.1) || (rank(a.1) == rank(b.1) && a.0 < b.0)
}

/// The candidate of token `t`.
pub open spec fn candidate(probs: Seq<u32>, t: int) -> Candidate {
    (t as Token, probs[t])
}

/// How many candidates survive: `top_k` of them, or all where it is off or more.
pub open spec fn survivors(n: nat, top_k: nat) -> nat {
    if 0 < top_k < n {
        top_k
    } else {
        n
    }
}

/// `out` is the front of what sorting every candidate would give.
pub open spec fn is_most_likely(out: Seq<Candidate>, probs: Seq<u32>, top_k: nat) -> bool {
    &&& out.len() == survivors(probs.len(), top_k)
    &&& all_candidates(out, probs, probs.len() as int)
    &&& in_order(out)
    &&& forall|t: int|
        0 <= t < probs.len() ==> out.contains(#[trigger] candidate(probs, t)) || forall|i: int|
            0 <= i < out.len() ==> before(#[trigger] out[i], candidate(probs, t))
}

pub open spec fn all_candidates(out: Seq<Candidate>, probs: Seq<u32>, n: int) -> bool {
    forall|i: int|
        0 <= i < out.len() ==> (#[trigger] out[i]).0 < n && out[i] == candidate(
            probs,
            out[i].0 as int,
        )
}

pub open spec fn in_order(out: Seq<Candidate>) -> bool {
    forall|i: int, j: int| 0 <= i < j < out.len() ==> before(#[trigger] out[i], #[trigger] out[j])
}

/// The candidates that sampling chooses between under `top_k`, most likely first.
///
/// Only the survivors are kept in order on the way, which picks the same tokens, in
/// the same order, as sorting the whole vocabulary would.
pub fn most_likely(probs: &[u32], top_k: usize) -> (out: Vec<Candidate>)
    requires
        probs@.len() <= u32::MAX,
        forall|t: int| 0 <= t < probs@.len() ==> !is_nan(#[trigger] probs@[t]),
    ensures
        is_most_likely(out@, probs@, top_k as nat),
{
    let n: usize = probs.len();
    let keep: usize = if 0 < top_k && top_k < n {
        top_k
    } else {
        n
    };
    let mut out: Vec<Candidate> = Vec::new();
    let mut t: usize = 0;
    while t < n
        invariant
            t <= n,
            n == probs@.len(),
            n <= u32::MAX,
            keep == survivors(n as nat, top_k as nat),
            n > 0 ==> keep > 0,
            out@.len() == if t < keep {
                t
            } else {
                keep
            },
            all_candidates(out@, probs@, t as int),
            in_order(out@),
            t <= keep ==> forall|u: int|
                0 <= u < t ==> out@.contains(#[trigger] candidate(probs@, u)),
            forall|u: int|
                0 <= u < t ==> out@.contains(#[trigger] candidate(probs@, u)) || forall|i: int|
                    0 <= i < out@.len() ==> before(#[trigger] out@[i], candidate(probs@, u)),
        decreases n - t,
    {
        let new: Candidate = (t as u32, probs[t]);
        let ghost was = out@;
        // The place of the new candidate: behind every one that is at least as likely.
        let mut at: usize = 0;
        while at < out.len() && rank_of(out[at].1) >= rank_of(new.1)
            invariant
                at <= out@.len(),
                out@ == was,
                t < n,
                n <= u32::MAX,
                new == candidate(probs@, t as int),
                all_candidates(was, probs@, t as int),
                forall|i: int| 0 <= i < at ==> before(#[trigger] was[i], new),
            decreases out@.len() - at,
        {
            at += 1;
        }
        proof {
            assert forall|i: int| at <= i < was.len() implies before(new, #[trigger] was[i]) by {
                if i > at {
                    assert(before(was[at as int], was[i]));
                }
            }
        }
        out.insert(at, new);
        let ghost grown = was.insert(at as int, new);
        proof {
            assert forall|i: int, j: int| 0 <= i < j < grown.len() implies before(
                #[trigger] grown[i],
                #[trigger] grown[j],
            ) by {
                if j < at {
                    assert(before(was[i], was[j]));
                } else if j == at {
                } else if i < at {
                    assert(before(was[i], was[j - 1]));
                } else if i > at {
                    assert(before(was[i - 1], was[j - 1]));
                }
            }
            assert forall|u: int| 0 <= u < t + 1 && t < keep implies grown.contains(
                #[trigger] candidate(probs@, u),
            ) by {
                if u == t {
                    assert(grown[at as int] == candidate(probs@, u));
                } else {
                    assert(was.contains(candidate(probs@, u)));
                    let i = choose|i: int| 0 <= i < was.len() && was[i] == candidate(probs@, u);
                    if i < at {
                        assert(grown[i] == candidate(probs@, u));
                    } else {
                        assert(grown[i + 1] == candidate(probs@, u));
                    }
                }
            }
        }
        if out.len() > keep {
            let last: usize = out.len() - 1;
            proof {
                let cut = grown.take(last as int);
                assert forall|u: int| 0 <= u < t + 1 implies cut.contains(
                    #[trigger] candidate(probs@, u),
                ) || forall|i: int| 0 <= i < cut.len() ==> before(
                    #[trigger] cut[i],
                    candidate(probs@, u),
                ) by {
                    let c = candidate(probs@, u);
                    if u == t {
                        assert(grown[at as int] == c);
                        if at < last {
                            assert(cut[at as int] == c);
                        } else {
                            assert forall|i: int| 0 <= i < cut.len() implies before(
                                #[trigger] cut[i],
                                c,
                            ) by {
                                assert(cut[i] == grown[i]);
                            }
                        }
                    } else if was.contains(c) {
                        let i = choose|i: int| 0 <= i < was.len() && was[i] == c;
                        let g = if i < at {
                            i
                        } else {
                            i + 1
                        };
                        assert(grown[g] == c);
                        if g < last {
                            assert(cut[g] == c);
                        } else {
                            assert forall|k: int| 0 <= k < cut.len() implies before(
                                #[trigger] cut[k],
                                c,
                            ) by {
                                assert(cut[k] == grown[k]);
                                assert(before(grown[k], grown[g]));
                            }
                        }
                    } else {
                        assert forall|i: int| 0 <= i < cut.len() implies before(
                            #[trigger] cut[i],
                            c,
                        ) by {
                            assert(cut[i] == grown[i]);
                            if i < at {
                                assert(before(was[i], c));
                            } else if i > at {
                                assert(before(was[i - 1], c));
                            } else {
                                assert(at < was.len());
                                assert(before(new, was[at as int]));
                                assert(before(was[at as int], c));
                            }
                        }
                    }
                }
            }
            out.truncate(last);
        }
        t += 1;
    }
    out
}

} // verus!
