use garuda::backend::{InferenceBackend, Sampler};
use garuda::batch::Batch;
use garuda::cache::kv::KvConfig;
use garuda::cache::sequence::SeqState;
use garuda::decode::{settle_batch, Ends};
use garuda::runtime::{
    draft_from_context, settled_token, InferenceRuntime, Session, StartError, StopReason,
};
use garuda::sampling::{argmax, exceeds, most_likely, Rng, SamplingFault, SamplingParams};
use garuda::types::{GarudaError, ModelDims, StorageBackend, Token};
use std::cell::Cell;
use std::collections::{HashMap, HashSet};
use std::sync::{Arc, Mutex};

const EOS: Token = 2;

fn greedy(max_tokens: usize) -> SamplingParams {
    SamplingParams {
        temperature_bits: 0.0f32.to_bits(),
        top_p_bits: 1.0f32.to_bits(),
        top_k: 0,
        max_tokens,
        seed: Some(7),
    }
}

fn sampled(temperature: f32, top_p: f32, top_k: usize) -> SamplingParams {
    SamplingParams {
        temperature_bits: temperature.to_bits(),
        top_p_bits: top_p.to_bits(),
        top_k,
        max_tokens: 1,
        seed: None,
    }
}

fn bits(v: &[f32]) -> Vec<u32> {
    v.iter().map(|x| x.to_bits()).collect()
}

/// What sampling chooses between: probabilities, most likely first, cut to the nucleus.
fn candidates(logits: &[f32], p: &SamplingParams) -> Vec<(Token, f32)> {
    let t = f32::from_bits(p.temperature_bits);
    let scaled: Vec<f32> = logits.iter().map(|x| x / t).collect();
    let top = scaled.iter().cloned().fold(f32::NEG_INFINITY, f32::max);
    let exps: Vec<f32> = scaled.iter().map(|x| (x - top).exp()).collect();
    let total: f32 = exps.iter().sum();
    let probs: Vec<f32> = exps.iter().map(|x| x / total).collect();
    let mut kept = Vec::new();
    let mut mass = 0.0;
    for (token, b) in most_likely(&bits(&probs), p.top_k) {
        let prob = f32::from_bits(b);
        kept.push((token, prob));
        mass += prob;
        if mass >= f32::from_bits(p.top_p_bits) {
            break;
        }
    }
    kept.iter().map(|&(t, p)| (t, p / mass)).collect()
}

fn draw(dist: &[(Token, f32)], rng: &mut Rng) -> Token {
    let mut r = rng.next_fraction() as f32 / (1u32 << 24) as f32;
    for &(t, p) in dist {
        if r < p {
            return t;
        }
        r -= p;
    }
    dist[dist.len() - 1].0
}

fn sample(logits: &[f32], p: &SamplingParams, rng: &mut Rng) -> Token {
    if p.is_greedy() {
        return argmax(&bits(logits)).unwrap() as Token;
    }
    draw(&candidates(logits, p), rng)
}

/// Keeps a guess with the probability the caller's distribution gives it, and otherwise
/// draws from what is left.
fn verify_drafted(dist: &[(Token, f32)], drafted: Token, rng: &mut Rng) -> (bool, Token) {
    let mass = dist
        .iter()
        .find(|(t, _)| *t == drafted)
        .map_or(0.0, |(_, p)| *p);
    let r = rng.next_fraction() as f32 / (1u32 << 24) as f32;
    if r < mass {
        return (true, drafted);
    }
    let rest: Vec<(Token, f32)> = dist
        .iter()
        .filter(|(t, _)| *t != drafted)
        .map(|&(t, p)| (t, p / (1.0 - mass)))
        .collect();
    if rest.is_empty() {
        return (true, drafted);
    }
    (false, draw(&rest, rng))
}

#[test]
fn greedy_sampling_takes_the_argmax() {
    let mut rng = Rng::new(1);
    assert_eq!(sample(&[0.1, 5.0, -2.0, 4.9], &greedy(1), &mut rng), 1);
}

#[test]
fn top_k_of_one_is_deterministic_regardless_of_seed() {
    let p = sampled(1.0, 1.0, 1);
    for seed in 0..20 {
        let mut rng = Rng::new(seed);
        assert_eq!(sample(&[0.1, 5.0, -2.0, 4.9], &p, &mut rng), 1);
    }
}

#[test]
fn top_k_selection_picks_the_same_tokens_a_full_sort_would() {
    // The surviving set, and the order within it, must be exactly what a full sort gives.
    let vocab = 4096;
    let logits: Vec<f32> = (0..vocab)
        .map(|i| ((i * 7919 % 1000) as f32 / 100.0).sin() * 6.0)
        .collect();
    let probs: Vec<f32> = logits.iter().map(|x| x.exp()).collect();
    let mut sorted: Vec<(Token, f32)> = probs
        .iter()
        .enumerate()
        .map(|(i, &p)| (i as Token, p))
        .collect();
    sorted.sort_by(|a, b| b.1.total_cmp(&a.1).then(a.0.cmp(&b.0)));

    // top_k = 1 is the head of that ordering, whatever the seed.
    let p = sampled(1.0, 1.0, 1);
    for seed in 0..50 {
        let mut rng = Rng::new(seed);
        assert_eq!(sample(&logits, &p, &mut rng), sorted[0].0);
    }

    // With a wider k, every token the sampler can reach must be inside the true top-k.
    let k = 40;
    let allowed: HashSet<Token> = sorted[..k].iter().map(|&(t, _)| t).collect();
    let p = sampled(1.0, 1.0, k);
    for seed in 0..500 {
        let mut rng = Rng::new(seed);
        let t = sample(&logits, &p, &mut rng);
        assert!(
            allowed.contains(&t),
            "sampled {t}, outside the true top-{k}"
        );
    }
    let all: Vec<Token> = most_likely(&bits(&probs), 0).iter().map(|c| c.0).collect();
    let want: Vec<Token> = sorted.iter().map(|c| c.0).collect();
    assert_eq!(all, want);
}

#[test]
fn sampling_never_returns_a_token_outside_the_vocabulary() {
    let logits: Vec<f32> = (0..260).map(|i| (i as f32 * 0.01).sin()).collect();
    let p = sampled(1.5, 0.9, 40);
    for seed in 0..200 {
        let mut rng = Rng::new(seed);
        let t = sample(&logits, &p, &mut rng);
        assert!((t as usize) < 260, "sampled {t}");
    }
}

#[test]
fn the_generator_is_splitmix() {
    // The stream of splitmix64 from the state that a seed of zero starts in.
    let mut state = 0x9E37_79B9_7F4A_7C15u64;
    let mut rng = Rng::new(0);
    for _ in 0..5 {
        state = state.wrapping_add(0x9E37_79B9_7F4A_7C15);
        let mut z = state;
        z = (z ^ (z >> 30)).wrapping_mul(0xBF58_476D_1CE4_E5B9);
        z = (z ^ (z >> 27)).wrapping_mul(0x94D0_49BB_1331_11EB);
        assert_eq!(rng.next_u64(), z ^ (z >> 31));
    }
}

#[test]
fn comparisons_of_patterns_follow_the_numbers() {
    let xs = [-2.0f32, -0.0, 0.0, 1e-40, 0.5, 3.0, f32::INFINITY];
    for &a in &xs {
        for &b in &xs {
            assert_eq!(exceeds(a.to_bits(), b.to_bits()), a > b, "{a} {b}");
        }
    }
    assert_eq!(argmax(&[]), None);
    assert_eq!(
        argmax(&bits(&[f32::NAN, 1.0, 1.0])),
        Some(1),
        "the first of equals, numbers only"
    );
}

/// Draws as the requests of these tests ask.
struct Floats;

impl Sampler for Floats {
    fn draw(&self, logits: &[u32], p: &SamplingParams, rng: &mut Rng) -> Option<Token> {
        Some(draw(&candidates(&floats(logits), p), rng))
    }

    fn verify(
        &self,
        logits: &[u32],
        p: &SamplingParams,
        guess: Token,
        rng: &mut Rng,
    ) -> Option<(bool, Token)> {
        Some(verify_drafted(&candidates(&floats(logits), p), guess, rng))
    }
}

fn floats(v: &[u32]) -> Vec<f32> {
    v.iter().map(|x| f32::from_bits(*x)).collect()
}

/// A model whose next token is a fixed function of the last.
struct Cyclic {
    dims: ModelDims,
    /// Answers a shared pass, or refuses one.
    batches: bool,
    /// A token that no pass takes.
    poison: Option<Token>,
    passes: Cell<usize>,
}

impl Cyclic {
    fn next(&self, last: Token) -> Token {
        8 + (last.wrapping_add(1) % 8)
    }
}

impl InferenceBackend for Cyclic {
    fn dims(&self) -> ModelDims {
        self.dims
    }

    fn hidden(&self, context: &[Token], seq: &mut SeqState) -> Result<Vec<u32>, GarudaError> {
        self.logits(context, seq)
    }

    fn logits(&self, context: &[Token], seq: &mut SeqState) -> Result<Vec<u32>, GarudaError> {
        Ok(self.logits_multi(context, seq, 1)?.remove(0))
    }

    fn speculation_supported(&self) -> bool {
        true
    }

    /// The logits of the last `n` new positions; one cache position per new token.
    fn logits_multi(
        &self,
        context: &[Token],
        seq: &mut SeqState,
        n: usize,
    ) -> Result<Vec<Vec<u32>>, GarudaError> {
        self.passes.set(self.passes.get() + 1);
        if let Some(&t) = context.iter().find(|t| self.poison == Some(**t)) {
            return Err(GarudaError::InvalidToken(t));
        }
        let zero = vec![0u32; self.dims.d_model];
        for _ in seq.len()..context.len() {
            seq.kv().append(&zero, &zero)?;
        }
        Ok(context[context.len() - n..]
            .iter()
            .map(|&t| {
                let mut v = vec![0.0; self.dims.vocab_size];
                v[self.next(t) as usize] = 1.0;
                bits(&v)
            })
            .collect())
    }

    fn logits_batch(
        &self,
        sessions: &mut Vec<Session>,
        live: &[usize],
    ) -> Result<Vec<Vec<u32>>, GarudaError> {
        if !self.batches {
            return Err(GarudaError::Inference("no batches here".into()));
        }
        live.iter()
            .map(|&i| {
                let (context, seq) = sessions[i].pass();
                self.logits(context, seq)
            })
            .collect()
    }
}

struct Rt {
    model: Cyclic,
    rt: InferenceRuntime,
}

fn runtime(positions: usize) -> Rt {
    let dims = ModelDims::default();
    Rt {
        model: Cyclic {
            dims,
            batches: true,
            poison: None,
            passes: Cell::new(0),
        },
        rt: InferenceRuntime::new(KvConfig::mha(dims, positions, 64, None, None), 8, 64 << 20),
    }
}

const ENDS: Ends = Ends {
    eos: EOS,
    turn_end: None,
};

impl Rt {
    fn start_in_chunks(
        &mut self,
        prompt: &[Token],
        p: &SamplingParams,
        chunk: usize,
    ) -> Result<(Session, usize), StartError> {
        let mut pending = self.rt.start_incremental(prompt, p)?;
        let mut rounds = 1;
        while !self
            .rt
            .advance_prefill(&self.model, &mut pending, chunk)
            .map_err(StartError::Backend)?
        {
            rounds += 1;
        }
        Ok((InferenceRuntime::finish_prefill(pending), rounds))
    }

    fn start(&mut self, prompt: &[Token], p: &SamplingParams) -> Result<Session, StartError> {
        self.rt.start(&self.model, prompt, p)
    }

    fn next_token(&self, s: &mut Session, p: &SamplingParams) -> Result<Token, StopReason> {
        self.rt.next_token(&self.model, &Floats, s, p, ENDS)
    }

    fn drain(&self, s: &mut Session, p: &SamplingParams) -> (Vec<Token>, StopReason) {
        let mut out = Vec::new();
        loop {
            match self.next_token(s, p) {
                Ok(t) => out.push(t),
                Err(r) => return (out, r),
            }
        }
    }

    fn next_tokens_speculative(
        &self,
        s: &mut Session,
        p: &SamplingParams,
        lookahead: usize,
        out: &mut Vec<Token>,
    ) -> Result<(), StopReason> {
        self.rt
            .next_tokens_speculative(
                &self.model,
                None::<&Cyclic>,
                &Floats,
                s,
                p,
                ENDS,
                lookahead,
                out,
            )
    }

    fn batch(
        &self,
        sessions: &mut Vec<Session>,
        p: &[SamplingParams],
    ) -> Vec<Result<Token, StopReason>> {
        self.rt
            .next_token_batch(&self.model, &Floats, sessions, p, ENDS)
    }
}

#[test]
fn same_seed_reproduces_the_same_sequence() {
    let mut rt = runtime(128);
    let mut p = sampled(0.9, 0.95, 40);
    p.max_tokens = 12;
    p.seed = Some(1234);
    let prompt = vec![8, 9, 10];
    let mut a = rt.start(&prompt, &p).unwrap();
    let mut b = rt.start(&prompt, &p).unwrap();
    assert_eq!(rt.drain(&mut a, &p).0, rt.drain(&mut b, &p).0);
}

#[test]
fn generation_stops_at_max_tokens_and_reports_length() {
    let mut rt = runtime(128);
    let p = greedy(5);
    let mut s = rt.start(&[8, 9], &p).unwrap();
    let (tokens, reason) = rt.drain(&mut s, &p);
    if reason == StopReason::Length {
        assert_eq!(tokens.len(), 5);
    }
    assert!(tokens.len() <= 5, "generated past max_tokens");
    assert_eq!(
        s.generated(),
        tokens.len() + usize::from(reason == StopReason::Eos)
    );
    assert!(s.is_finished());
    assert_eq!(s.generated_tokens(), tokens.as_slice());
    assert_eq!(rt.next_token(&mut s, &p), Err(StopReason::Length));
}

#[test]
fn output_length_is_independent_of_prompt_length() {
    let mut rt = runtime(128);
    let p = greedy(6);
    let long: Vec<Token> = (0..45).map(|i| 8 + i % 8).collect();
    let mut a = rt.start(&[8], &p).unwrap();
    let mut b = rt.start(&long, &p).unwrap();
    let (ta, _) = rt.drain(&mut a, &p);
    let (tb, _) = rt.drain(&mut b, &p);
    assert!(ta.len() <= 6 && tb.len() <= 6);
    assert_ne!(
        tb.len(),
        long.len(),
        "output length tracked the prompt length"
    );
}

#[test]
fn empty_prompt_is_rejected() {
    let mut rt = runtime(128);
    assert!(matches!(
        rt.start(&[], &greedy(4)),
        Err(StartError::Prompt(GarudaError::Inference(m))) if m == "prompt is empty"
    ));
}

#[test]
fn oversized_prompt_is_rejected_before_any_work() {
    let mut rt = runtime(128);
    let prompt: Vec<Token> = (0..rt.rt.max_context() + 1)
        .map(|i| 4 + (i % 200) as Token)
        .collect();
    assert!(matches!(
        rt.start(&prompt, &greedy(4)),
        Err(StartError::Prompt(GarudaError::Inference(_)))
    ));
}

#[test]
fn invalid_sampling_params_are_rejected() {
    let mut rt = runtime(128);
    let base = SamplingParams::default();
    for (bad, fault) in [
        (
            SamplingParams {
                temperature_bits: (-1.0f32).to_bits(),
                ..base
            },
            SamplingFault::Temperature,
        ),
        (
            SamplingParams {
                temperature_bits: f32::NAN.to_bits(),
                ..base
            },
            SamplingFault::Temperature,
        ),
        (
            SamplingParams {
                top_p_bits: 0.0f32.to_bits(),
                ..base
            },
            SamplingFault::TopP,
        ),
        (
            SamplingParams {
                top_p_bits: 1.5f32.to_bits(),
                ..base
            },
            SamplingFault::TopP,
        ),
        (
            SamplingParams {
                max_tokens: 0,
                ..base
            },
            SamplingFault::MaxTokens,
        ),
    ] {
        assert!(
            matches!(rt.start(&[9], &bad), Err(StartError::Sampling(f)) if f == fault),
            "accepted {bad:?}"
        );
    }
    assert_eq!(
        SamplingFault::TopP.message("1.5"),
        "top_p must be in (0, 1], got 1.5"
    );
}

/// Absorbing a prompt a few tokens at a time must build exactly the sequence that
/// absorbing it in one go builds.
#[test]
fn a_chunked_prefill_produces_the_same_session_as_a_single_pass() {
    let (mut rt, mut rt2) = (runtime(128), runtime(128));
    let p = greedy(6);
    let prompt: Vec<Token> = (0..40).map(|i| 8 + i * 3 % 8).collect();
    let mut whole = rt.start(&prompt, &p).unwrap();
    let (mut piecewise, rounds) = rt2.start_in_chunks(&prompt, &p, 3).unwrap();
    assert!(rounds > 1, "fixture too short to exercise chunking");
    assert_eq!(piecewise.prompt_len(), whole.prompt_len());
    assert_eq!(
        rt.drain(&mut whole, &p).0,
        rt2.drain(&mut piecewise, &p).0
    );
}

#[test]
fn a_partly_absorbed_prompt_reports_what_is_left() {
    let mut rt = runtime(128);
    let prompt: Vec<Token> = (0..13).map(|i| 8 + i % 8).collect();
    let prefix = prompt.len() - 1;
    let mut pending = rt.rt.start_incremental(&prompt, &greedy(2)).ok().unwrap();
    assert_eq!(pending.remaining(), prefix);
    assert!(!rt.rt.advance_prefill(&rt.model, &mut pending, 2).unwrap());
    assert_eq!(pending.remaining(), prefix - 2);
    while !rt.rt.advance_prefill(&rt.model, &mut pending, 4).unwrap() {}
    assert_eq!(pending.remaining(), 0);
    assert_eq!(rt.model.passes.get(), 4, "two tokens, and then four at a time");
    assert!(rt.rt.advance_prefill(&rt.model, &mut pending, 4).unwrap());
    assert_eq!(rt.model.passes.get(), 4, "nothing is left to run");
}

/// The whole justification for speculation: it must produce exactly what plain greedy
/// decoding produces.
#[test]
fn speculative_decoding_produces_exactly_what_greedy_decoding_does() {
    let (mut rt, mut rt2) = (runtime(256), runtime(256));
    let p = greedy(40);
    let prompt: Vec<Token> = vec![8, 9, 10, 11, 12];

    let mut plain = rt2.start(&prompt, &p).unwrap();
    let (want, want_reason) = rt2.drain(&mut plain, &p);

    let mut spec = rt.start(&prompt, &p).unwrap();
    let mut got = Vec::new();
    let reason;
    let mut passes = 0;
    let mut accepted_extra = 0;
    loop {
        let mut batch = Vec::new();
        let outcome = rt.next_tokens_speculative(&mut spec, &p, 4, &mut batch);
        passes += 1;
        accepted_extra += batch.len().saturating_sub(1);
        got.extend(batch);
        if let Err(r) = outcome {
            reason = r;
            break;
        }
    }

    assert!(
        accepted_extra > 0,
        "speculation never accepted a token, so this proves nothing"
    );
    assert!(
        passes < got.len(),
        "{} passes for {} tokens: no pass produced more than one",
        passes,
        got.len()
    );
    assert_eq!(got, want, "speculation changed the output");
    assert_eq!(reason, want_reason);
    assert_eq!(
        spec.generated(),
        plain.generated(),
        "generated count differs"
    );
    assert_eq!(
        spec.seq().len(),
        plain.seq().len(),
        "the caches diverged"
    );
}

/// Over many steps, keeping a guess with probability `p(guess)` and otherwise drawing
/// from the remainder emits exactly `p`.
#[test]
fn verifying_a_guess_reproduces_the_callers_distribution() {
    let dist = [(10u32, 0.5f32), (11, 0.3), (12, 0.2)];

    for drafted in [11u32, 10, 12, 99] {
        let mut rng = Rng::new(0xD15 + drafted as u64);
        let mut seen = [0u32; 3];
        let n: u32 = 60_000;
        for _ in 0..n {
            let (_, tok) = verify_drafted(&dist, drafted, &mut rng);
            seen[(tok - 10) as usize] += 1;
        }
        for (i, (tok, want)) in dist.iter().enumerate() {
            let got = seen[i] as f32 / n as f32;
            assert!(
                (got - want).abs() < 0.01,
                "drafting {drafted}: token {tok} came out at {got:.4}, \
                 but the caller's distribution says {want}"
            );
        }
    }
}

/// A token that the caller's own truncation removed has no mass, so a guess of it can
/// never be kept.
#[test]
fn a_guess_outside_the_candidate_set_is_always_rejected() {
    let dist = [(10u32, 0.6f32), (11, 0.4)];
    let mut rng = Rng::new(7);
    for _ in 0..1000 {
        let (kept, tok) = verify_drafted(&dist, 99, &mut rng);
        assert!(!kept, "kept a guess with no probability mass");
        assert!(
            tok == 10 || tok == 11,
            "emitted {tok}, outside the candidates"
        );
    }
}

#[test]
fn a_sampled_request_can_win_more_than_one_token_from_a_pass() {
    let mut rt = runtime(256);
    // Low temperature so the model's own choice dominates and guesses drawn from the
    // repeating context are usually kept.
    let p = SamplingParams {
        temperature_bits: 0.05f32.to_bits(),
        top_p_bits: 1.0f32.to_bits(),
        top_k: 0,
        max_tokens: 80,
        seed: Some(3),
    };
    let prompt: Vec<Token> = vec![8, 9, 10, 11, 12];

    let mut s = rt.start(&prompt, &p).unwrap();
    let mut multi = 0;
    for _ in 0..30 {
        let mut batch = Vec::new();
        let done = rt
            .next_tokens_speculative(&mut s, &p, 6, &mut batch)
            .is_err();
        if batch.len() > 1 {
            multi += 1;
        }
        if done {
            break;
        }
    }
    assert!(
        multi > 0,
        "a sampled request never won more than one token per pass"
    );
}

#[test]
fn the_drafter_only_guesses_when_the_context_repeats() {
    // No repetition, no basis for a guess.
    assert!(draft_from_context(&[1, 2, 3, 4, 5, 6, 7, 8], 4, 4).is_empty());
    // Too short to hold an n-gram plus a match.
    assert!(draft_from_context(&[1, 2, 3], 4, 4).is_empty());
    assert!(draft_from_context(&[1, 2, 3, 4, 5], 0, 4).is_empty());

    // "1 2 3 4" occurred before and was followed by 9, 9, 9.
    let ctx = [1, 2, 3, 4, 9, 9, 9, 7, 1, 2, 3, 4];
    assert_eq!(draft_from_context(&ctx, 3, 4), vec![9, 9, 9]);
    // Bounded by what was asked for.
    assert_eq!(draft_from_context(&ctx, 2, 4), vec![9, 9]);

    // The most recent match wins: the later occurrence was followed by 5.
    let ctx = [7, 7, 7, 7, 9, 1, 2, 7, 7, 7, 7, 5, 1, 2, 7, 7, 7, 7];
    assert_eq!(draft_from_context(&ctx, 1, 4), vec![5]);
}

#[test]
fn a_repeated_prompt_hits_the_prefix_cache() {
    let mut rt = runtime(128);
    let p = greedy(3);
    let prompt = vec![8, 9, 10, 11];
    let _ = rt.start(&prompt, &p).unwrap();
    assert_eq!(rt.rt.prompt_cache_stats().hits, 0, "first run cannot hit");
    let _ = rt.start(&prompt, &p).unwrap();
    assert_eq!(
        rt.rt.prompt_cache_stats().hits,
        1,
        "second run should reuse the prefill"
    );
}

#[test]
fn a_cache_hit_produces_the_same_tokens_as_a_cold_run() {
    let mut rt = runtime(128);
    let p = greedy(6);
    let prompt = vec![8, 9, 10, 11];
    let mut cold = rt.start(&prompt, &p).unwrap();
    let (a, ra) = rt.drain(&mut cold, &p);
    let mut warm = rt.start(&prompt, &p).unwrap();
    let (b, rb) = rt.drain(&mut warm, &p);
    assert_eq!(a, b, "the prefix cache changed the output");
    assert_eq!(ra, rb);
}

/// One session is finished, one has a token that no pass takes, two run: whether they
/// share a pass or the shared pass fails, each gets what it would get alone.
#[test]
fn a_batch_steps_only_the_sessions_that_run() {
    for batches in [true, false] {
        let mut rt = runtime(128);
        rt.model.batches = batches;
        let p = greedy(2);
        let prompts: [[Token; 2]; 4] = [[8, 9], [8, 10], [8, 99], [8, 11]];
        let mut sessions: Vec<Session> = prompts
            .iter()
            .map(|c| rt.start(c, &p).unwrap())
            .collect();
        let mut alone: Vec<Session> = prompts
            .iter()
            .map(|c| rt.start(c, &p).unwrap())
            .collect();
        rt.drain(&mut sessions[1], &p);
        rt.drain(&mut alone[1], &p);
        rt.model.poison = Some(99);
        let want: Vec<Result<Token, StopReason>> =
            alone.iter_mut().map(|s| rt.next_token(s, &p)).collect();
        assert_eq!(
            want,
            vec![
                Ok(8 + 10 % 8),
                Err(StopReason::Length),
                Err(StopReason::ContextFull),
                Ok(8 + 12 % 8)
            ]
        );
        if batches {
            // A pass that is shared with the poisoned session fails for all three.
            sessions.remove(2);
            let got = rt.batch(&mut sessions, &[p; 3]);
            assert_eq!(got, vec![want[0], want[1], want[3]]);
            assert_eq!(sessions[0].context(), alone[0].context());
        } else {
            assert_eq!(rt.batch(&mut sessions, &[p; 4]), want);
            assert!(sessions[2].is_finished());
            assert_eq!(sessions[3].context(), alone[3].context());
        }
    }
}

/// A model that answers one sequence at a time.
struct OneByOne(Cyclic);

impl InferenceBackend for OneByOne {
    fn dims(&self) -> ModelDims {
        self.0.dims()
    }

    fn hidden(&self, context: &[Token], seq: &mut SeqState) -> Result<Vec<u32>, GarudaError> {
        self.0.hidden(context, seq)
    }

    fn logits(&self, context: &[Token], seq: &mut SeqState) -> Result<Vec<u32>, GarudaError> {
        self.0.logits(context, seq)
    }

    fn speculation_supported(&self) -> bool {
        false
    }

    fn logits_multi(
        &self,
        context: &[Token],
        seq: &mut SeqState,
        n: usize,
    ) -> Result<Vec<Vec<u32>>, GarudaError> {
        self.0.logits_multi(context, seq, n)
    }
}

#[test]
fn a_backend_need_not_share_work_between_sequences() {
    let Rt { model, mut rt } = runtime(128);
    let model = OneByOne(model);
    let p = greedy(4);
    let mut sessions: Vec<Session> = [[8, 9], [8, 10], [8, 11]]
        .iter()
        .map(|c| rt.start(&model, c, &p).unwrap())
        .collect();
    let passes = model.0.passes.get();
    assert_eq!(
        rt.next_token_batch(&model, &Floats, &mut sessions, &[p; 3], ENDS),
        vec![Ok(10), Ok(11), Ok(12)]
    );
    assert_eq!(model.0.passes.get(), passes + 3);
    // A sequence that cannot be taken back is not guessed ahead of.
    let mut out = Vec::new();
    for want in [11, 12] {
        let r = rt.next_tokens_speculative(
            &model,
            None::<&OneByOne>,
            &Floats,
            &mut sessions[0],
            &p,
            ENDS,
            4,
            &mut out,
        );
        assert_eq!((r, out.pop()), (Ok(()), Some(want)));
        assert!(out.is_empty());
    }
}

/// A draft model that fails, or that has nothing to read with, costs guesses and
/// nothing else.
#[test]
fn a_failing_draft_model_leaves_plain_decoding() {
    let dims = ModelDims::default();
    let p = greedy(6);
    let mut plain = runtime(128);
    let mut s = plain.start(&[8, 9, 10], &p).unwrap();
    let want = plain.drain(&mut s, &p);

    let Rt { model, rt } = runtime(128);
    let mut rt = rt.with_drafter(KvConfig::mha(dims, 128, 64, None, None));
    let drafter = Cyclic {
        dims,
        batches: true,
        poison: Some(9),
        passes: Cell::new(0),
    };
    let mut s = rt.start(&model, &[8, 9, 10], &p).unwrap();
    let mut got = Vec::new();
    let reason = loop {
        let before = got.len();
        let r = rt.next_tokens_speculative(
            &model,
            Some(&drafter),
            &Floats,
            &mut s,
            &p,
            ENDS,
            4,
            &mut got,
        );
        assert!(got.len() <= before + 1, "nothing was guessed");
        if let Err(r) = r {
            break r;
        }
    };
    assert!(drafter.passes.get() > 0, "it was asked");
    assert_eq!((got, reason), want);
}

/// Runs a batch until nothing is left of it. Gives what each request was handed, and why
/// it stopped.
fn run_batch(
    rt: &mut Rt,
    batch: &mut Batch,
    budget: usize,
    lookahead: usize,
) -> HashMap<u64, (Vec<Token>, Option<StopReason>)> {
    let mut out: HashMap<u64, (Vec<Token>, Option<StopReason>)> = HashMap::new();
    while batch.is_streaming() || !batch.prefilling().is_empty() {
        for p in batch.advance_prefills(&mut rt.rt, &rt.model, budget) {
            if p.outcome.is_err() {
                out.insert(p.ticket, (Vec::new(), None));
            }
        }
        for s in batch.step(
            &rt.rt,
            &rt.model,
            None::<&Cyclic>,
            &Floats,
            ENDS,
            lookahead,
        ) {
            let entry = out.entry(s.ticket).or_default();
            entry.0.extend(s.tokens);
            entry.1 = s.stop;
        }
    }
    out
}

/// Whatever the prompts are, however they go in, and whoever guesses ahead: each request
/// is handed what it would be handed alone.
#[test]
fn a_batch_hands_each_request_its_own_answer() {
    for (budget, lookahead) in [(1, 0), (3, 4), (usize::MAX, 6)] {
        let p = greedy(12);
        let prompts: Vec<Vec<Token>> = vec![
            vec![8],
            (0..23).map(|i| 8 + i % 8).collect(),
            vec![8, 99, 10],
            vec![15, 8, 9],
        ];
        let mut rt = runtime(128);
        let mut alone = HashMap::new();
        for (ticket, c) in prompts.iter().enumerate() {
            if ticket == 2 {
                alone.insert(2, (Vec::new(), None));
                continue;
            }
            let mut s = rt.start(c, &p).unwrap();
            let (tokens, reason) = rt.drain(&mut s, &p);
            alone.insert(ticket as u64, (tokens, Some(reason)));
        }

        let mut rt = runtime(128);
        rt.model.poison = Some(99);
        let mut batch = Batch::new();
        for (ticket, c) in prompts.iter().enumerate() {
            let pending = rt.rt.start_incremental(c, &p).unwrap();
            batch.begin(ticket as u64, pending, p);
        }
        assert_eq!(batch.prefilling(), vec![0, 1, 2, 3]);
        assert_eq!(run_batch(&mut rt, &mut batch, budget, lookahead), alone);
    }
}

#[test]
fn output_length_is_set_by_max_tokens_not_by_the_prompt() {
    let mut rt = runtime(128);
    let p = greedy(5);
    let text = "a considerably longer prompt here";
    let long: Vec<Token> = text.bytes().map(|b| 8 + b as Token % 8).collect();
    let mut batch = Batch::new();
    let short = rt.rt.start_incremental(&[8], &p).unwrap();
    batch.begin(1, short, p);
    let out = run_batch(&mut rt, &mut batch, usize::MAX, 4);
    let pending = rt.rt.start_incremental(&long, &p).unwrap();
    batch.begin(2, pending, p);
    let more = run_batch(&mut rt, &mut batch, usize::MAX, 4);
    assert!(out[&1].0.len() <= 5 && more[&2].0.len() <= 5);
    assert!(
        more[&2].0.len() < text.len(),
        "output still tracks prompt length"
    );
}

/// A prompt that goes in a piece at a time does not stall a session that decodes.
#[test]
fn a_long_prompt_does_not_stall_a_session() {
    let mut rt = runtime(128);
    let p = greedy(30);
    let mut batch = Batch::new();
    let pending = rt.rt.start_incremental(&[8], &p).unwrap();
    batch.begin(7, pending, p);
    let first = batch.advance_prefills(&mut rt.rt, &rt.model, 2);
    assert!(matches!(first[0].outcome, Ok(true)) && first[0].absorbed == 0);
    let long: Vec<Token> = (0..9).map(|i| 8 + i % 8).collect();
    let pending = rt.rt.start_incremental(&long, &p).unwrap();
    batch.begin(8, pending, p);
    for round in 0..4 {
        let progress = batch.advance_prefills(&mut rt.rt, &rt.model, 2);
        assert_eq!((progress[0].ticket, progress[0].absorbed), (8, 2));
        assert_eq!(matches!(progress[0].outcome, Ok(true)), round == 3);
        let stepped = batch.step(&rt.rt, &rt.model, None::<&Cyclic>, &Floats, ENDS, 0);
        assert_eq!((stepped[0].ticket, stepped[0].tokens.len()), (7, 1));
    }
    assert_eq!(batch.active(), &vec![7, 8]);
    batch.drop_request(7);
    assert_eq!(batch.active(), &vec![8]);
}

#[test]
fn sessions_that_are_all_finished_never_reach_the_backend() {
    let mut rt = runtime(128);
    let p = greedy(1);
    let mut sessions = vec![rt.start(&[8], &p).unwrap(), rt.start(&[9], &p).unwrap()];
    rt.drain(&mut sessions[0], &p);
    rt.drain(&mut sessions[1], &p);
    let passes = rt.model.passes.get();
    assert_eq!(
        rt.batch(&mut sessions, &[p, p]),
        vec![Err(StopReason::Length), Err(StopReason::Length)]
    );
    assert_eq!(rt.model.passes.get(), passes);
}

#[test]
fn a_failed_pass_ends_the_sequence() {
    let mut rt = runtime(128);
    let p = greedy(4);
    let mut a = rt.start(&[8, 9], &p).unwrap();
    let mut b = rt.start(&[8, 9], &p).unwrap();
    rt.model.poison = Some(9);
    let mut out = vec![5];
    assert_eq!(rt.next_token(&mut a, &p), Err(StopReason::ContextFull));
    assert_eq!(
        rt.next_tokens_speculative(&mut b, &p, 4, &mut out),
        Err(StopReason::ContextFull)
    );
    assert!(a.is_finished() && b.is_finished());
    assert_eq!(out, vec![5], "nothing was produced");
    assert!(matches!(
        rt.start(&[9, 9, 9], &p),
        Err(StartError::Backend(GarudaError::InvalidToken(9)))
    ));
}

#[test]
fn without_lookahead_a_round_is_a_step() {
    let mut rt = runtime(128);
    let p = greedy(3);
    let mut s = rt.start(&[8, 9], &p).unwrap();
    let mut out = Vec::new();
    assert_eq!(rt.next_tokens_speculative(&mut s, &p, 0, &mut out), Ok(()));
    assert_eq!(out, vec![8 + 10 % 8]);
}

#[test]
fn a_turn_may_end_with_a_token_of_its_own() {
    assert_eq!(settled_token(50, EOS, Some(50)), EOS);
    assert_eq!(settled_token(51, EOS, Some(50)), 51);
    assert_eq!(settled_token(EOS, EOS, None), EOS);

    let mut rt = runtime(128);
    let p = greedy(8);
    let mut s = rt.start(&[8, 9], &p).unwrap();
    let ends = Ends {
        eos: EOS,
        turn_end: Some(12),
    };
    let mut out = Vec::new();
    let reason = loop {
        match rt.rt.next_token(&rt.model, &Floats, &mut s, &p, ends) {
            Ok(t) => out.push(t),
            Err(r) => break r,
        }
    };
    assert_eq!((out, reason), (vec![10, 11], StopReason::Eos));
    assert_eq!(s.context(), &[8, 9, 10, 11, EOS]);
}

#[test]
fn inputs_to_embed_are_bounded_by_the_window() {
    let mut rt = runtime(4);
    let state = rt.rt.embed(&rt.model, &[1, 2, 3, 4]).unwrap();
    assert_eq!(argmax(&state), Some(8 + 5));
    assert!(rt.rt.embed(&rt.model, &[]).is_err());
    assert_eq!(
        rt.rt.embed(&rt.model, &[1; 5]).err().unwrap().message(),
        "inference error: input of 5 tokens does not fit the 4-token context window"
    );
}

/// What a shared pass answers goes to the sessions that ran, each to its own.
#[test]
fn each_session_of_a_batch_draws_from_its_own_answer() {
    let mut rt = runtime(128);
    let dims = ModelDims::default();
    let answer = |best: Token| {
        let mut v = vec![0.0; dims.vocab_size];
        v[best as usize] = 1.0;
        bits(&v)
    };
    let p = greedy(4);
    let mut sessions: Vec<Session> = (0..4u32)
        .map(|i| rt.start(&[8, 9 + i], &p).unwrap())
        .collect();
    let stopped = [None, Some(StopReason::Length), None, None];
    let answers = vec![answer(20), answer(EOS), answer(30)];
    let got = settle_batch(&Floats, &mut sessions, &[p; 4], ENDS, &stopped, &answers);
    assert_eq!(
        got,
        vec![
            Ok(20),
            Err(StopReason::Length),
            Err(StopReason::Eos),
            Ok(30)
        ]
    );
    assert_eq!(sessions[0].context(), &[8, 9, 20]);
    assert_eq!(sessions[1].context(), &[8, 10]);
    assert!(sessions[2].is_finished() && !sessions[3].is_finished());
    assert_eq!(sessions[3].context(), &[8, 12, 30]);
}

/// Always draws the same token, and takes no guess.
struct Stubborn(Token);

impl Sampler for Stubborn {
    fn draw(&self, _: &[u32], _: &SamplingParams, _: &mut Rng) -> Option<Token> {
        Some(self.0)
    }

    fn verify(
        &self,
        _: &[u32],
        _: &SamplingParams,
        _: Token,
        _: &mut Rng,
    ) -> Option<(bool, Token)> {
        Some((false, self.0))
    }
}

#[test]
fn a_sampled_request_draws_through_the_sampler() {
    let mut rt = runtime(128);
    let mut p = sampled(1.0, 1.0, 0);
    p.max_tokens = 3;
    let mut s = rt.start(&[8, 9], &p).unwrap();
    let drawn: Vec<_> = (0..4)
        .map(|_| rt.rt.next_token(&rt.model, &Stubborn(77), &mut s, &p, ENDS))
        .collect();
    assert_eq!(drawn, vec![Ok(77), Ok(77), Ok(77), Err(StopReason::Length)]);
    // A greedy request takes the best token, whatever a sampler would draw.
    let mut s = rt.start(&[8, 9], &greedy(1)).unwrap();
    assert_eq!(
        rt.rt.next_token(&rt.model, &Stubborn(77), &mut s, &greedy(1), ENDS),
        Ok(8 + 10 % 8)
    );
}

/// A tier that keeps its files in memory.
struct Shelf(Mutex<HashMap<String, Vec<u8>>>);

impl StorageBackend for Shelf {
    fn read(&self, path: &str) -> Result<Vec<u8>, GarudaError> {
        match self.0.lock().unwrap().get(path) {
            Some(data) => Ok(data.clone()),
            None => Err(GarudaError::Storage(format!("no {path}"))),
        }
    }

    fn write(&self, path: &str, data: &[u8]) -> Result<(), GarudaError> {
        self.0.lock().unwrap().insert(path.to_owned(), data.to_vec());
        Ok(())
    }

    fn remove(&self, path: &str) -> Result<(), GarudaError> {
        self.0.lock().unwrap().remove(path);
        Ok(())
    }

    fn holds(&self, path: &str) -> bool {
        self.0.lock().unwrap().contains_key(path)
    }
}

/// A sequence that ends takes its spill files with it: whether it ran to its end, was
/// dropped on the way or never got its prompt in.
#[test]
fn a_request_that_leaves_takes_its_spill_files_with_it() {
    let shelf = Arc::new(Shelf(Mutex::new(HashMap::new())));
    let files = || shelf.0.lock().unwrap().len();
    let mut rt = runtime(512);
    let dims = ModelDims::default();
    rt.rt = InferenceRuntime::new(
        KvConfig::mha(dims, 512, 1, None, Some(shelf.clone())),
        8,
        64 << 20,
    );
    let p = greedy(3);
    let long: Vec<Token> = (0..4 * dims.block_size as Token).map(|i| 8 + i % 8).collect();
    let mut batch = Batch::new();
    for ticket in 0..3 {
        let pending = rt.rt.start_incremental(&long[ticket..], &p).unwrap();
        batch.begin(ticket as u64, pending, p);
    }
    let part = 3 * dims.block_size;
    batch.advance_prefills(&mut rt.rt, &rt.model, part);
    assert!(files() >= 6, "every prompt is partly in storage");
    let before = files();
    batch.drop_request(2);
    assert!(files() < before, "a dropped prompt leaves nothing behind");
    batch.advance_prefills(&mut rt.rt, &rt.model, usize::MAX);
    assert_eq!(batch.active(), &vec![0, 1]);
    let before = files();
    batch.drop_request(0);
    assert!(0 < files() && files() < before, "nor does a dropped session");
    run_batch(&mut rt, &mut batch, usize::MAX, 0);
    assert_eq!(files(), 0, "nor one that ran to its end");

    // A prompt whose pass fails half-way, and an input that is only embedded.
    let mut poisoned = long.clone();
    poisoned[part + 1] = 99;
    rt.model.poison = Some(99);
    let pending = rt.rt.start_incremental(&poisoned, &p).unwrap();
    batch.begin(7, pending, p);
    batch.advance_prefills(&mut rt.rt, &rt.model, part);
    assert!(files() > 0);
    assert!(batch.advance_prefills(&mut rt.rt, &rt.model, part)[0].outcome.is_err());
    assert_eq!(files(), 0);
    rt.rt.embed(&rt.model, &long).unwrap();
    assert_eq!(files(), 0);
    let mut s = rt.start(&long, &p).unwrap();
    assert!(files() > 0);
    rt.drain(&mut s, &p);
    s.let_go();
    assert_eq!(files(), 0);
}
