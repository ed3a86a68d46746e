//! The extension points for compute: the model that answers, and the draw from its
//! answers.

use crate::cache::kv::KvConfig;
use crate::cache::sequence::{SeqState, SeqView};
use crate::runtime;
use crate::runtime::{Session, SessionView};
use crate::sampling::{Rng, SamplingParams};
use crate::types::{GarudaError, ModelDims, Token};
use vstd::prelude::*;

verus! {

/// Every layer of a sequence went as far as a pass over `n` tokens takes it: one
/// position for each token that was not there before. Attention reaches as far back as it
/// did.
pub open spec fn advanced(before: SeqView, after: SeqView, n: nat) -> bool {
    &&& after.wf()
    &&& after.kvs.len() == before.kvs.len()
    &&& after.window() == before.window()
    &&& before.len() <= n ==> forall|l: int|
        0 <= l < after.kvs.len() ==> (#[trigger] after.kvs[l]).len == before.kvs[l].len + (n
            - before.len())
}

/// A batched pass touched the sequences of the running sessions and nothing else.
pub open spec fn only_sequences_moved(
    before: Seq<Session>,
    after: Seq<Session>,
    live: Seq<usize>,
) -> bool {
    &&& after.len() == before.len()
    &&& forall|i: int|
        0 <= i < before.len() ==> {
            &&& (#[trigger] after[i]).wf()
            &&& after[i]@ == (SessionView { seq: after[i]@.seq, ..before[i]@ })
        }
    &&& forall|i: int|
        0 <= i < before.len() && !live.contains(i as usize) ==> (#[trigger] after[i])@
            == before[i]@
}

/// The sessions at `live` were stepped one after the other until the one at place `at`
/// failed: those before it advanced, and those after it were not touched.
pub open spec fn stepped_up_to(
    before: Seq<Session>,
    after: Seq<Session>,
    live: Seq<usize>,
    at: int,
) -> bool {
    &&& forall|k: int|
        0 <= k < at ==> advanced(
            before[#[trigger] live[k] as int]@.seq,
            after[live[k] as int]@.seq,
            before[live[k] as int]@.context.len(),
        )
    &&& forall|k: int|
        at < k < live.len() ==> after[#[trigger] live[k] as int]@ == before[live[k] as int]@
}

/// Produces next-token logits for a context.
///
/// Implementations pick their own architecture and weights. In return they uphold what
/// the methods promise, which the runtime relies on and does not check again:
///
/// 1. Only unseen positions are consumed: exactly `context[seq.len()..]`.
/// 2. Every layer of the sequence advances by one position for each new token, and what
///    is known of a sequence is kept in that sequence and nowhere else.
/// 3. Logits are as many as the vocabulary has tokens.
/// 4. Bad input is an error, never a panic.
/// 5. The same context gives the same logits, where attention reaches equally far back.
///    All randomness lives in the sampler: a hit in the prompt cache is expected to
///    continue as a cold start would.
///
/// Numbers are given as the bit patterns of `f32`.
pub trait InferenceBackend {
    /// The shape of the model.
    open spec fn shape(&self) -> ModelDims {
        arbitrary()
    }

    /// The logits for the token that follows `context`, where attention reaches `window`
    /// positions back.
    open spec fn answers(&self, window: Option<usize>, context: Seq<Token>) -> Seq<u32> {
        arbitrary()
    }

    /// The final hidden state after `context`, where attention reaches `window` positions
    /// back.
    open spec fn state_after(&self, window: Option<usize>, context: Seq<Token>) -> Seq<u32> {
        arbitrary()
    }

    /// Sequences of this model can be taken back.
    open spec fn rewinds(&self) -> bool {
        arbitrary()
    }

    /// A pass over `context` that begins with `before` can fail, and leave `after`.
    open spec fn may_fail(&self, before: SeqView, context: Seq<Token>, after: SeqView) -> bool {
        arbitrary()
    }

    /// A pass over `context` that begins with `before` can fail with `e`.
    open spec fn may_report(&self, before: SeqView, context: Seq<Token>, e: GarudaError) -> bool {
        arbitrary()
    }

    /// `seq` is what this model makes of `context`.
    open spec fn holds(&self, seq: SeqView, context: Seq<Token>) -> bool {
        arbitrary()
    }

    fn dims(&self) -> (d: ModelDims)
        ensures
            d == self.shape(),
            d.valid(),
    ;

    /// The final hidden state after consuming `context`.
    fn hidden(&self, context: &[Token], seq: &mut SeqState) -> (r: Result<Vec<u32>, GarudaError>)
        requires
            old(seq).wf(),
        ensures
            final(seq).wf(),
            r matches Ok(v) ==> {
                &&& context@.len() > 0
                &&& advanced(old(seq)@, final(seq)@, context@.len())
                &&& old(seq)@.len() <= context@.len() && self.holds(
                    old(seq)@,
                    context@.take(old(seq)@.len() as int),
                ) ==> v@ == self.state_after(old(seq)@.window(), context@) && self.holds(final(seq)@, context@)
            },
            r matches Err(e) ==> {
                &&& self.may_fail(old(seq)@, context@, final(seq)@)
                &&& self.may_report(old(seq)@, context@, e)
            },
    ;

    /// Logits for the token that follows `context`.
    fn logits(&self, context: &[Token], seq: &mut SeqState) -> (r: Result<Vec<u32>, GarudaError>)
        requires
            old(seq).wf(),
        ensures
            final(seq).wf(),
            r matches Ok(v) ==> {
                &&& v@.len() == self.shape().vocab_size
                &&& advanced(old(seq)@, final(seq)@, context@.len())
                &&& old(seq)@.len() <= context@.len() && self.holds(
                    old(seq)@,
                    context@.take(old(seq)@.len() as int),
                ) ==> v@ == self.answers(old(seq)@.window(), context@) && self.holds(final(seq)@, context@)
            },
            r matches Err(e) ==> {
                &&& self.may_fail(old(seq)@, context@, final(seq)@)
                &&& self.may_report(old(seq)@, context@, e)
            },
    ;

    /// True where a sequence can be taken back, so that guesses can be checked in one
    /// pass.
    fn speculation_supported(&self) -> (b: bool)
        ensures
            b == self.rewinds(),
    ;

    /// Logits for the last `n` positions of `context`, from one pass: entry `i` is the
    /// answer to all but the last `n - 1 - i` tokens.
    fn logits_multi(&self, context: &[Token], seq: &mut SeqState, n: usize) -> (r: Result<
        Vec<Vec<u32>>,
        GarudaError,
    >)
        requires
            old(seq).wf(),
            0 < n <= context@.len(),
        ensures
            final(seq).wf(),
            r matches Ok(a) ==> {
                &&& a@.len() == n
                &&& advanced(old(seq)@, final(seq)@, context@.len())
                &&& forall|i: int| 0 <= i < n ==> (#[trigger] a@[i])@.len() == self.shape().vocab_size
                &&& old(seq)@.len() <= context@.len() - n && self.holds(
                    old(seq)@,
                    context@.take(old(seq)@.len() as int),
                ) ==> self.holds(final(seq)@, context@) && forall|i: int|
                    0 <= i < n ==> (#[trigger] a@[i])@ == self.answers(
                        old(seq)@.window(),
                        context@.take(context@.len() - n + 1 + i),
                    )
            },
            r matches Err(e) ==> {
                &&& self.may_fail(old(seq)@, context@, final(seq)@)
                &&& self.may_report(old(seq)@, context@, e)
            },
    ;

    /// One step of the sessions at `live`, each answered as [`InferenceBackend::logits`]
    /// answers it alone. Worth overriding where they can share a pass over the weights.
    fn logits_batch(&self, sessions: &mut Vec<Session>, live: &[usize]) -> (r: Result<
        Vec<Vec<u32>>,
        GarudaError,
    >)
        requires
            forall|i: int| 0 <= i < old(sessions)@.len() ==> (#[trigger] old(sessions)@[i]).wf(),
            forall|k: int| 0 <= k < live@.len() ==> (#[trigger] live@[k]) < old(sessions)@.len(),
            forall|j: int, k: int|
                0 <= j < k < live@.len() ==> (#[trigger] live@[j]) < (#[trigger] live@[k]),
        ensures
            only_sequences_moved(old(sessions)@, final(sessions)@, live@),
            r matches Ok(a) ==> {
                &&& a@.len() == live@.len()
                &&& forall|k: int|
                    0 <= k < live@.len() ==> {
                        let v = old(sessions)@[#[trigger] live@[k] as int]@;
                        let w = final(sessions)@[live@[k] as int]@;
                        &&& a@[k]@.len() == self.shape().vocab_size
                        &&& advanced(v.seq, w.seq, v.context.len())
                        &&& v.seq.len() <= v.context.len() && self.holds(
                            v.seq,
                            v.context.take(v.seq.len() as int),
                        ) ==> a@[k]@ == self.answers(v.seq.window(), v.context) && self.holds(w.seq, v.context)
                    }
            },
            r is Err ==> forall|k: int|
                0 <= k < live@.len() ==> {
                    let v = old(sessions)@[#[trigger] live@[k] as int]@;
                    let w = final(sessions)@[live@[k] as int]@;
                    ||| w.seq == v.seq
                    ||| self.may_fail(v.seq, v.context, w.seq)
                    ||| advanced(v.seq, w.seq, v.context.len()) && (v.seq.len() <= v.context.len()
                        && self.holds(v.seq, v.context.take(v.seq.len() as int)) ==> self.holds(
                        w.seq,
                        v.context,
                    ))
                },
        default_ensures
            live@.len() == 0 ==> r is Ok && final(sessions)@ == old(sessions)@,
            r is Err ==> exists|at: int|
                #![trigger live@[at]]
                0 <= at < live@.len() && stepped_up_to(
                    old(sessions)@,
                    final(sessions)@,
                    live@,
                    at,
                ),
    {
        let mut answers: Vec<Vec<u32>> = Vec::new();
        let mut k: usize = 0;
        while k < live.len()
            invariant
                k <= live@.len(),
                answers@.len() == k,
                forall|i: int|
                    0 <= i < old(sessions)@.len() ==> (#[trigger] old(sessions)@[i]).wf(),
                forall|j: int| 0 <= j < live@.len() ==> (#[trigger] live@[j]) < sessions@.len(),
                forall|i: int, j: int|
                    0 <= i < j < live@.len() ==> (#[trigger] live@[i]) < (#[trigger] live@[j]),
                only_sequences_moved(old(sessions)@, sessions@, live@),
                k == 0 ==> sessions@ == old(sessions)@,
                forall|j: int|
                    k <= j < live@.len() ==> sessions@[#[trigger] live@[j] as int]@ == old(
                        sessions,
                    )@[live@[j] as int]@,
                forall|j: int|
                    0 <= j < k ==> {
                        let v = old(sessions)@[#[trigger] live@[j] as int]@;
                        let w = sessions@[live@[j] as int]@;
                        &&& answers@[j]@.len() == self.shape().vocab_size
                        &&& advanced(v.seq, w.seq, v.context.len())
                        &&& v.seq.len() <= v.context.len() && self.holds(
                            v.seq,
                            v.context.take(v.seq.len() as int),
                        ) ==> answers@[j]@ == self.answers(v.seq.window(), v.context) && self.holds(
                            w.seq,
                            v.context,
                        )
                    },
            decreases live@.len() - k,
        {
            let at: usize = live[k];
            assert(live@.contains(at));
            let (context, seq) = sessions[at].pass();
            match self.logits(context, seq) {
                Ok(a) => {
                    answers.push(a);
                },
                Err(e) => {
                    assert(stepped_up_to(old(sessions)@, sessions@, live@, k as int));
                    return Err(e);
                },
            }
            k += 1;
        }
        Ok(answers)
    }
}

/// Draws tokens where the choice is not simply the likeliest one. What comes out hangs on
/// the logits, the parameters and the generator alone, so that a seeded request replays
/// exactly.
pub trait Sampler {
    /// The token drawn from `logits`, if any can be, and the generator afterwards.
    open spec fn drawn(&self, logits: Seq<u32>, params: SamplingParams, rng: Rng) -> (
        Option<Token>,
        Rng,
    ) {
        arbitrary()
    }

    /// Whether a guess stands against `logits` and the token that comes out, if any can,
    /// and the generator afterwards.
    open spec fn verified(
        &self,
        logits: Seq<u32>,
        params: SamplingParams,
        guess: Token,
        rng: Rng,
    ) -> (Option<(bool, Token)>, Rng) {
        arbitrary()
    }

    /// A token drawn from `logits`, if any can be.
    fn draw(&self, logits: &[u32], params: &SamplingParams, rng: &mut Rng) -> (t: Option<Token>)
        ensures
            (t, *final(rng)) == self.drawn(logits@, *params, *old(rng)),
    ;

    /// Decides a guess against `logits`: whether it stands, and the token that comes out.
    fn verify(
        &self,
        logits: &[u32],
        params: &SamplingParams,
        guess: Token,
        rng: &mut Rng,
    ) -> (t: Option<(bool, Token)>)
        ensures
            (t, *final(rng)) == self.verified(logits@, *params, guess, *old(rng)),
    ;
}

/// What the model made of the front of `context` is all there is in `seq`.
pub open spec fn knows<B: InferenceBackend>(b: &B, seq: SeqView, context: Seq<Token>) -> bool {
    seq.len() <= context.len() && b.holds(seq, context.take(seq.len() as int))
}

/// What a model knows of a sequence lies in that sequence alone: a fresh one holds
/// nothing, one that was cut back to where it can be taken holds what is left, and a
/// name changes nothing where no block lies in storage under it.
pub open spec fn keeps_to_the_sequence<B: InferenceBackend>(b: &B) -> bool {
    &&& forall|cfg: KvConfig, id: u64|
        b.holds(#[trigger] SeqView::fresh(cfg, id), Seq::<Token>::empty())
    &&& forall|s: SeqView, c: Seq<Token>, n: nat|
        #![trigger b.holds(s, c), s.cut(n)]
        b.holds(s, c) && runtime::can_be_cut(s, n) ==> b.holds(
            s.cut(n),
            if n < c.len() {
                c.take(n as int)
            } else {
                c
            },
        )
    &&& forall|s: SeqView, c: Seq<Token>, id: u64|
        #![trigger b.holds(s, c), s.rekeyed(id)]
        b.holds(s, c) && !s.any_spilled() ==> b.holds(s.rekeyed(id), c)
}

} // verus!
