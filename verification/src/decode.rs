//! Running sequences on a backend: prefill, single steps, rounds of guesses, batches.
//!
//! [`crate::runtime`] decides what a step does to a session. Here the model is asked,
//! a token is drawn from its answer, and the session takes it.

use crate::backend;
use crate::backend::{InferenceBackend, Sampler};
use crate::cache::kv;
use crate::cache::kv::KvConfig;
use crate::cache::sequence::{SeqState, SeqView};
use crate::runtime;
use crate::runtime::{
    draft_from_context, poll_batch, running, settled_token, InferenceRuntime, Next, Pending,
    PendingView, RuntimeView, Session, SessionView, StartError, StopReason, Verdict, NGRAM,
};
use crate::sampling;
use crate::sampling::{argmax, Rng, SamplingParams};
use crate::types::{GarudaError, Token};
use vstd::prelude::*;
use vstd::slice::{slice_subrange, slice_to_vec};

verus! {

/// The tokens that decoding stops on.
#[derive(Debug, Clone, Copy, PartialEq, Eq, Structural)]
pub struct Ends {
    pub eos: Token,
    /// What ends a turn, for formats that end one with a token of their own.
    pub turn_end: Option<Token>,
}

/// The token that greedy decoding takes from `logits`, if there are any.
pub open spec fn greedy_token(logits: Seq<u32>, ends: Ends) -> Option<Token> {
    if logits.len() == 0 {
        None
    } else {
        Some(
            runtime::settled(
                sampling::greedy_choice(logits) as Token,
                ends.eos,
                ends.turn_end,
            ),
        )
    }
}

/// What greedy decoding says of a guess.
pub open spec fn greedy_judgement(logits: Seq<u32>, guess: Option<Token>, ends: Ends) -> Verdict {
    match greedy_token(logits, ends) {
        None => Verdict::Failed,
        Some(token) => Verdict::Drawn { kept: guess == Some(token), token },
    }
}

/// The token that a request takes from `logits`, and the generator afterwards.
pub open spec fn token_from<S: Sampler>(
    s: &S,
    logits: Seq<u32>,
    params: SamplingParams,
    ends: Ends,
    rng: Rng,
) -> (Option<Token>, Rng) {
    if params.greedy() {
        (greedy_token(logits, ends), rng)
    } else {
        let (t, after) = s.drawn(logits, params, rng);
        (
            match t {
                Some(t) => Some(runtime::settled(t, ends.eos, ends.turn_end)),
                None => None,
            },
            after,
        )
    }
}

/// What a request says of a guess, if there is one, and the generator afterwards.
pub open spec fn verdict_on<S: Sampler>(
    s: &S,
    logits: Seq<u32>,
    guess: Option<Token>,
    params: SamplingParams,
    ends: Ends,
    rng: Rng,
) -> (Verdict, Rng) {
    if params.greedy() {
        (greedy_judgement(logits, guess, ends), rng)
    } else {
        match guess {
            Some(g) => {
                let (t, after) = s.verified(logits, params, g, rng);
                (
                    match t {
                        Some((kept, t)) => {
                            let token = runtime::settled(t, ends.eos, ends.turn_end);
                            Verdict::Drawn { kept: kept && token == g, token }
                        },
                        None => Verdict::Failed,
                    },
                    after,
                )
            },
            None => {
                let (t, after) = token_from(s, logits, params, ends, rng);
                (
                    match t {
                        Some(token) => Verdict::Drawn { kept: false, token },
                        None => Verdict::Failed,
                    },
                    after,
                )
            },
        }
    }
}

pub open spec fn guess_at(draft: Seq<Token>, i: int) -> Option<Token> {
    if i < draft.len() {
        Some(draft[i])
    } else {
        None
    }
}

/// The verdicts on the first `n` guesses of `draft`, one after the other, and the
/// generator afterwards.
pub open spec fn judged<S: Sampler>(
    s: &S,
    answers: Seq<Seq<u32>>,
    draft: Seq<Token>,
    params: SamplingParams,
    ends: Ends,
    rng: Rng,
    n: nat,
) -> (Seq<Verdict>, Rng)
    decreases n,
{
    if n == 0 {
        (Seq::empty(), rng)
    } else {
        let (before, r) = judged(s, answers, draft, params, ends, rng, (n - 1) as nat);
        let (v, after) = verdict_on(
            s,
            answers[n - 1],
            guess_at(draft, n - 1),
            params,
            ends,
            r,
        );
        (before.push(v), after)
    }
}

/// What a pass over `context` that began with `began` left and answered. `None` is a pass
/// that failed.
pub open spec fn is_answer<B: InferenceBackend>(
    b: &B,
    context: Seq<Token>,
    began: SeqView,
    pass: (SeqView, Option<Seq<u32>>),
) -> bool {
    let (after, answer) = pass;
    &&& after.wf()
    &&& match answer {
        None => b.may_fail(began, context, after),
        Some(logits) => {
            &&& logits.len() == b.shape().vocab_size
            &&& backend::advanced(began, after, context.len())
            &&& backend::knows(b, began, context) ==> logits == b.answers(began.window(), context)
                && b.holds(after, context)
        },
    }
}

/// The session after a pass, and what the step reports.
pub open spec fn after_pass<S: Sampler>(
    s: &S,
    v: SessionView,
    params: SamplingParams,
    ends: Ends,
    pass: (SeqView, Option<Seq<u32>>),
) -> (SessionView, Result<Token, StopReason>) {
    let (drawn, rng) = match pass.1 {
        None => (None, v.rng),
        Some(logits) => token_from(s, logits, params, ends, v.rng),
    };
    (
        (SessionView { seq: pass.0, rng, ..v }).stepped(drawn, ends.eos),
        SessionView::step_result(drawn, ends.eos),
    )
}

/// What one step of a session in state `v` leaves and reports. The pass begins with the
/// sequence `began`.
pub open spec fn is_step<B: InferenceBackend, S: Sampler>(
    b: &B,
    s: &S,
    v: SessionView,
    began: SeqView,
    params: SamplingParams,
    ends: Ends,
    max_context: nat,
    w: SessionView,
    r: Result<Token, StopReason>,
) -> bool {
    match v.due(params.max_tokens as nat, max_context) {
        Some(reason) => w == v.stopped() && r == Err::<Token, StopReason>(reason),
        None => exists|pass: (SeqView, Option<Seq<u32>>)| #[trigger]
            is_answer(b, v.context, began, pass) && (w, r) == after_pass(s, v, params, ends, pass),
    }
}

/// Where a shared pass that failed left the sequence of a session: where it was, where a
/// pass of its own that failed can leave it, or past a pass of its own.
pub open spec fn left_by_a_failure<B: InferenceBackend>(
    b: &B,
    v: SessionView,
    seq: SeqView,
) -> bool {
    ||| seq == v.seq
    ||| b.may_fail(v.seq, v.context, seq)
    ||| backend::advanced(v.seq, seq, v.context.len()) && (backend::knows(b, v.seq, v.context)
        ==> b.holds(seq, v.context))
}

/// One step of a session in state `v` that shares a pass with others: a step of its own,
/// which goes on from where the shared pass left the sequence if that failed.
pub open spec fn steps_in_batch<B: InferenceBackend, S: Sampler>(
    b: &B,
    s: &S,
    v: SessionView,
    params: SamplingParams,
    ends: Ends,
    max_context: nat,
    w: SessionView,
    r: Result<Token, StopReason>,
) -> bool {
    exists|began: SeqView|
        {
            &&& began.wf()
            &&& #[trigger] left_by_a_failure(b, v, began)
            &&& is_step(b, s, v, began, params, ends, max_context, w, r)
        }
}

/// What a round of guesses went through.
pub struct Round {
    pub draft: Seq<Token>,
    /// What the draft model had read when it had guessed.
    pub held: Option<SeqView>,
    /// The sequence that the pass over the context and the draft left.
    pub pass: SeqView,
    /// What the pass answered: to the context, and to each guess that follows.
    pub answers: Seq<Seq<u32>>,
    pub rng: Rng,
    /// What was made of the answers that counted. None where the pass failed.
    pub verdicts: Seq<Verdict>,
}

/// A context with the tokens of `verdicts` behind it.
pub open spec fn with_tokens(context: Seq<Token>, verdicts: Seq<Verdict>) -> Seq<Token>
    decreases verdicts.len(),
{
    if verdicts.len() == 0 {
        context
    } else {
        let before = with_tokens(context, verdicts.drop_last());
        match verdicts.last() {
            Verdict::Drawn { token, .. } => before.push(token),
            Verdict::Failed => before,
        }
    }
}

/// `out` with the tokens of `verdicts` that are handed out: all but one that ends the
/// sequence.
pub open spec fn handed_out(out: Seq<Token>, verdicts: Seq<Verdict>, eos: Token) -> Seq<Token>
    decreases verdicts.len(),
{
    if verdicts.len() == 0 {
        out
    } else {
        let before = handed_out(out, verdicts.drop_last(), eos);
        match verdicts.last() {
            Verdict::Drawn { token, .. } => if token == eos {
                before
            } else {
                before.push(token)
            },
            Verdict::Failed => before,
        }
    }
}

/// What follows answer `i` of `verdicts` for a session that was in state `v`.
pub open spec fn next_at(
    v: SessionView,
    verdicts: Seq<Verdict>,
    i: int,
    eos: Token,
    max_tokens: nat,
) -> Next {
    (SessionView { context: with_tokens(v.context, verdicts.take(i)), ..v }).next(
        verdicts[i],
        eos,
        max_tokens,
    )
}

impl Round {
    /// A session that was in state `v`, after every answer.
    pub open spec fn session(self, v: SessionView) -> SessionView {
        SessionView {
            context: with_tokens(v.context, self.verdicts),
            seq: self.pass,
            rng: self.rng,
            draft: (SessionView {
                context: with_tokens(v.context, self.verdicts),
                draft: self.held,
                ..v
            }).draft_kept(),
            ..v.planned()
        }
    }

    /// An answer counts where every answer before it kept its guess, and the round goes
    /// on until one does not or the answers run out.
    pub open spec fn is_complete(self, v: SessionView, eos: Token, max_tokens: nat) -> bool {
        let last = self.verdicts.len() - 1;
        &&& 0 < self.verdicts.len() <= self.draft.len() + 1
        &&& forall|i: int|
            0 <= i < last ==> #[trigger] next_at(v, self.verdicts, i, eos, max_tokens)
                == Next::More
        &&& next_at(v, self.verdicts, last, eos, max_tokens) == Next::More ==> last
            == self.draft.len()
    }

    /// Where an answer kept a guess, the guess is its token.
    pub open spec fn keeps_only_guesses(self) -> bool {
        forall|i: int|
            0 <= i < self.verdicts.len() ==> (#[trigger] self.verdicts[i] matches Verdict::Drawn {
                kept,
                token,
            } ==> kept ==> i < self.draft.len() && token == self.draft[i])
    }

    /// What the last answer said.
    pub open spec fn stop(self, v: SessionView, eos: Token, max_tokens: nat) -> Option<StopReason> {
        match next_at(v, self.verdicts, self.verdicts.len() - 1, eos, max_tokens) {
            Next::Done(stop) => stop,
            Next::More => None,
        }
    }
}

/// One more answer changes nothing about those before it, and counts itself.
proof fn one_more_answer(
    v: SessionView,
    verdicts: Seq<Verdict>,
    x: Verdict,
    out: Seq<Token>,
    eos: Token,
    max_tokens: nat,
)
    ensures
        forall|i: int|
            0 <= i < verdicts.len() ==> #[trigger] next_at(v, verdicts.push(x), i, eos, max_tokens)
                == next_at(v, verdicts, i, eos, max_tokens),
        next_at(v, verdicts.push(x), verdicts.len() as int, eos, max_tokens) == (SessionView {
            context: with_tokens(v.context, verdicts),
            ..v
        }).next(x, eos, max_tokens),
        with_tokens(v.context, verdicts.push(x)) == match x {
            Verdict::Drawn { token, .. } => with_tokens(v.context, verdicts).push(token),
            Verdict::Failed => with_tokens(v.context, verdicts),
        },
        handed_out(out, verdicts.push(x), eos) == match x {
            Verdict::Drawn { token, .. } => if token == eos {
                handed_out(out, verdicts, eos)
            } else {
                handed_out(out, verdicts, eos).push(token)
            },
            Verdict::Failed => handed_out(out, verdicts, eos),
        },
{
    let more = verdicts.push(x);
    assert(more.drop_last() =~= verdicts);
    assert(more.take(verdicts.len() as int) =~= verdicts);
    assert forall|i: int| 0 <= i < verdicts.len() implies #[trigger] next_at(
        v,
        more,
        i,
        eos,
        max_tokens,
    ) == next_at(v, verdicts, i, eos, max_tokens) by {
        assert(more.take(i) =~= verdicts.take(i));
    }
}

/// Every answer of a round is what greedy decoding says of its guess.
pub open spec fn is_greedy_round<B: InferenceBackend>(
    b: &B,
    window: Option<usize>,
    context: Seq<Token>,
    ends: Ends,
    round: Round,
) -> bool {
    forall|i: int|
        0 <= i < round.verdicts.len() ==> #[trigger] round.verdicts[i] == greedy_judgement(
            b.answers(window, context + round.draft.take(i)),
            guess_at(round.draft, i),
            ends,
        )
}

/// Every guess is what greedy decoding of the draft model says, having seen the guesses
/// before it.
pub open spec fn is_model_draft<D: InferenceBackend>(
    d: &D,
    window: Option<usize>,
    context: Seq<Token>,
    ends: Ends,
    draft: Seq<Token>,
) -> bool {
    forall|i: int|
        0 <= i < draft.len() ==> Some(#[trigger] draft[i]) == greedy_token(
            d.answers(window, context + draft.take(i)),
            ends,
        )
}

/// What the draft model has read of a session in state `v` when it is asked.
pub open spec fn draft_began(v: SessionView, template: KvConfig) -> SeqView {
    match v.draft {
        Some(d) => d,
        None => SeqView::fresh(template, 0),
    }
}

/// `draft` is at most `limit` guesses for a session in state `v`, and `held` what the
/// draft model has read. A draft model makes all of them unless a pass of it fails, which
/// leaves nothing that it has read. Where there is no draft model, guesses come from the
/// context.
pub open spec fn is_guess<D: InferenceBackend>(
    drafter: Option<&D>,
    template: Option<KvConfig>,
    v: SessionView,
    limit: nat,
    ends: Ends,
    draft: Seq<Token>,
    held: Option<SeqView>,
) -> bool {
    &&& draft.len() <= limit
    &&& held matches Some(h) ==> h.wf()
    &&& match (drafter, template) {
        (Some(d), Some(kv)) => {
            &&& match held {
                Some(_) => draft.len() == limit || d.shape().vocab_size == 0,
                None => draft.len() < limit && exists|x: SeqView, y: SeqView| #[trigger]
                    d.may_fail(x, v.context + draft, y),
            }
            &&& d.shape().vocab_size == 0 ==> draft.len() == 0
            &&& backend::knows(d, draft_began(v, kv), v.context) ==> {
                &&& is_model_draft(d, draft_began(v, kv).window(), v.context, ends, draft)
                &&& held matches Some(h) ==> backend::knows(d, h, v.context + draft)
            }
        },
        _ => runtime::is_draft(v.context, limit, NGRAM as nat, draft) && held == v.draft,
    }
}

/// What a round leaves of a session in state `v`, reports, and puts out.
pub open spec fn is_round<B: InferenceBackend, D: InferenceBackend, S: Sampler>(
    b: &B,
    drafter: Option<&D>,
    template: Option<KvConfig>,
    s: &S,
    v: SessionView,
    params: SamplingParams,
    lookahead: nat,
    ends: Ends,
    max_context: nat,
    round: Round,
    w: SessionView,
    r: Result<(), StopReason>,
    out: Seq<Token>,
    out_after: Seq<Token>,
) -> bool {
    let max_tokens = params.max_tokens as nat;
    let limit = runtime::lesser(
        v.budget(lookahead) as int,
        v.room(max_tokens, max_context) as int,
    ) as nat;
    &&& is_guess(drafter, template, v, limit, ends, round.draft, round.held)
    &&& if round.verdicts.len() == 0 {
        &&& b.may_fail(v.seq, v.context + round.draft, round.pass)
        &&& w == (SessionView { seq: round.pass, draft: round.held, ..v.planned() }).stopped()
        &&& r == Err::<(), StopReason>(StopReason::ContextFull)
        &&& out_after == out
    } else {
        let stop = round.stop(v, ends.eos, max_tokens);
        let produced = (out_after.len() - out.len()) as nat;
        &&& backend::advanced(v.seq, round.pass, v.context.len() + round.draft.len())
        &&& round.is_complete(v, ends.eos, max_tokens)
        &&& round.keeps_only_guesses()
        &&& out_after == handed_out(out, round.verdicts, ends.eos)
        &&& round.session(v).scored(
            round.draft.len(),
            produced,
            stop is Some,
        ).closed(stop, w, r)
        &&& round.answers.len() == round.draft.len() + 1
        &&& forall|i: int|
            0 <= i <= round.draft.len() ==> (#[trigger] round.answers[i]).len()
                == b.shape().vocab_size
        &&& (round.verdicts, round.rng) == judged(
            s,
            round.answers,
            round.draft,
            params,
            ends,
            v.rng,
            round.verdicts.len(),
        )
        &&& backend::knows(b, v.seq, v.context) && v.seq.len() < v.context.len() ==> {
            &&& b.holds(round.pass, v.context + round.draft)
            &&& forall|i: int|
                0 <= i <= round.draft.len() ==> #[trigger] round.answers[i] == b.answers(
                    v.seq.window(),
                    v.context + round.draft.take(i),
                )
        }
    }
}

/// What a stretch of prefill that may absorb `max_tokens` tokens, but at least one, makes
/// of a prompt `p` and of the runtime. A failed pass leaves everything but the sequence.
pub open spec fn is_stretch<B: InferenceBackend>(
    b: &B,
    before: RuntimeView,
    p: PendingView,
    max_tokens: nat,
    r: Result<bool, GarudaError>,
    q: PendingView,
    after: RuntimeView,
) -> bool {
    if p.remaining() == 0 {
        r == Ok::<bool, GarudaError>(true) && q == p && after == before
    } else {
        match r {
            Err(e) => {
                &&& after == before
                &&& q == (PendingView { seq: q.seq, ..p })
                &&& b.may_fail(p.seq, p.context.take(p.target(max_tokens) as int), q.seq)
                &&& b.may_report(p.seq, p.context.take(p.target(max_tokens) as int), e)
            },
            Ok(done) => {
                let target = p.target(max_tokens);
                &&& q == (PendingView { seq: q.seq, consumed: target, ..p })
                &&& backend::advanced(p.seq, q.seq, target)
                &&& backend::knows(b, p.seq, p.context.take(target as int)) ==> b.holds(
                    q.seq,
                    p.context.take(target as int),
                )
                &&& done == (q.remaining() == 0)
                &&& after == if done {
                    before.absorbed(q)
                } else {
                    before
                }
            },
        }
    }
}

/// `s` is the session that begins with `prompt`, all of it but the last token absorbed, and
/// `after` the runtime then.
pub open spec fn is_start<B: InferenceBackend>(
    b: &B,
    before: RuntimeView,
    template: KvConfig,
    prompt: Seq<Token>,
    params: SamplingParams,
    s: SessionView,
    after: RuntimeView,
) -> bool {
    let p = before.pending(template, prompt, params);
    &&& (PendingView { seq: s.seq, ..p }).begins(s)
    &&& if p.remaining() == 0 {
        &&& s.seq == p.seq
        &&& after == before.started(prompt)
    } else {
        &&& backend::advanced(p.seq, s.seq, p.prefix().len())
        &&& backend::knows(b, p.seq, p.prefix()) ==> b.holds(s.seq, p.prefix())
        &&& after == before.started(prompt).absorbed(
            PendingView { seq: s.seq, consumed: p.prefix().len(), ..p },
        )
    }
}

/// What a step that may guess `lookahead` tokens ahead leaves of a session in state `v`,
/// reports, and puts out.
pub open spec fn is_speculation<B: InferenceBackend, D: InferenceBackend, S: Sampler>(
    b: &B,
    drafter: Option<&D>,
    s: &S,
    rt: RuntimeView,
    v: SessionView,
    params: SamplingParams,
    lookahead: nat,
    ends: Ends,
    w: SessionView,
    r: Result<(), StopReason>,
    out: Seq<Token>,
    out_after: Seq<Token>,
) -> bool {
    match v.due(params.max_tokens as nat, rt.max_context) {
        Some(reason) => {
            &&& w == v.stopped()
            &&& r == Err::<(), StopReason>(reason)
            &&& out_after == out
        },
        None => if lookahead == 0 || !b.rewinds() {
            exists|t: Result<Token, StopReason>|
                {
                    &&& #[trigger] is_step(b, s, v, v.seq, params, ends, rt.max_context, w, t)
                    &&& match t {
                        Ok(token) => r == Ok::<(), StopReason>(()) && out_after == out.push(token),
                        Err(reason) => r == Err::<(), StopReason>(reason) && out_after == out,
                    }
                }
        } else {
            exists|round: Round| #[trigger]
                is_round(
                    b,
                    drafter,
                    rt.draft_template,
                    s,
                    v,
                    params,
                    lookahead,
                    ends,
                    rt.max_context,
                    round,
                    w,
                    r,
                    out,
                    out_after,
                )
        },
    }
}

/// The likeliest token.
fn best_token(logits: &[u32], ends: Ends) -> (t: Option<Token>)
    ensures
        t == greedy_token(logits@, ends),
{
    match argmax(logits) {
        Some(i) => {
            proof {
                sampling::argmax_is_unique(logits@, i as int);
            }
            Some(settled_token(i as Token, ends.eos, ends.turn_end))
        },
        None => None,
    }
}

/// A token from the model's answer: the likeliest one for greedy requests.
fn draw_token<S: Sampler>(
    sampler: &S,
    logits: &[u32],
    params: &SamplingParams,
    ends: Ends,
    rng: &mut Rng,
) -> (t: Option<Token>)
    ensures
        (t, *final(rng)) == token_from(sampler, logits@, *params, ends, *old(rng)),
{
    if params.is_greedy() {
        return best_token(logits, ends);
    }
    match sampler.draw(logits, params, rng) {
        Some(t) => Some(settled_token(t, ends.eos, ends.turn_end)),
        None => None,
    }
}

/// One pass after others takes a sequence as far as one pass over everything does.
/// `guessed` passes lie between `start` and `began`, the last over all but one token.
proof fn passes_add_up(
    start: SeqView,
    began: SeqView,
    after: SeqView,
    context: nat,
    guessed: nat,
)
    requires
        start.wf(),
        start.len() <= context,
        guessed == 0 ==> began == start,
        guessed > 0 ==> backend::advanced(start, began, (context + guessed - 1) as nat),
        backend::advanced(began, after, context + guessed),
    ensures
        backend::advanced(start, after, context + guessed),
{
    if guessed > 0 {
        assert(began.kvs[0].len == start.kvs[0].len + (context + guessed - 1 - start.len()));
        assert forall|l: int| 0 <= l < after.kvs.len() implies (#[trigger] after.kvs[l]).len
            == start.kvs[l].len + (context + guessed - start.len()) by {
            assert(began.kvs[l].len == start.kvs[l].len + (context + guessed - 1 - start.len()));
        }
    }
}

/// Lets a draft model guess up to `limit` tokens ahead. It goes on from `seq`, which is
/// of no further use where a pass failed: the second result is false then.
fn model_guesses<D: InferenceBackend>(
    drafter: &D,
    seq: &mut SeqState,
    context: &[Token],
    limit: usize,
    ends: Ends,
) -> (r: (Vec<Token>, bool))
    requires
        old(seq).wf(),
    ensures
        final(seq).wf(),
        r.0@.len() <= limit,
        r.1 ==> r.0@.len() == limit || drafter.shape().vocab_size == 0,
        !r.1 ==> r.0@.len() < limit && exists|x: SeqView, y: SeqView| #[trigger]
            drafter.may_fail(x, context@ + r.0@, y),
        drafter.shape().vocab_size == 0 ==> r.0@.len() == 0,
        limit == 0 ==> final(seq)@ == old(seq)@,
        r.1 && r.0@.len() > 0 && old(seq)@.len() <= context@.len() ==> backend::advanced(
            old(seq)@,
            final(seq)@,
            (context@.len() + r.0@.len() - 1) as nat,
        ),
        backend::knows(drafter, old(seq)@, context@) ==> {
            &&& is_model_draft(drafter, old(seq)@.window(), context@, ends, r.0@)
            &&& r.1 ==> backend::knows(drafter, final(seq)@, context@ + r.0@)
        },
{
    let ghost known = backend::knows(drafter, seq@, context@);
    let ghost start = seq@;
    let mut probe = slice_to_vec(context);
    let mut draft: Vec<Token> = Vec::new();
    assert(probe@ =~= context@ + draft@);
    while draft.len() < limit
        invariant
            seq.wf(),
            start == old(seq)@,
            start.wf(),
            draft@.len() <= limit,
            probe@ == context@ + draft@,
            drafter.shape().vocab_size == 0 ==> draft@.len() == 0,
            draft@.len() == 0 ==> seq@ == start,
            draft@.len() > 0 && start.len() <= context@.len() ==> backend::advanced(
                start,
                seq@,
                (probe@.len() - 1) as nat,
            ),
            known == backend::knows(drafter, old(seq)@, context@),
            seq@.window() == start.window(),
            known ==> backend::knows(drafter, seq@, probe@) && is_model_draft(
                drafter,
                start.window(),
                context@,
                ends,
                draft@,
            ),
        decreases limit - draft@.len(),
    {
        let ghost began = seq@;
        let logits = match drafter.logits(probe.as_slice(), seq) {
            Ok(l) => l,
            Err(_) => {
                return (draft, false);
            },
        };
        proof {
            if start.len() <= context@.len() {
                passes_add_up(start, began, seq@, context@.len(), draft@.len());
            }
            if known {
                assert(seq@.kvs[0].len == began.kvs[0].len + (probe@.len() - began.len()));
                assert(probe@.take(seq@.len() as int) =~= probe@);
            }
        }
        let ghost before = draft@;
        match best_token(logits.as_slice(), ends) {
            Some(t) => {
                draft.push(t);
                probe.push(t);
                proof {
                    assert(probe@ =~= context@ + draft@);
                    assert(before =~= draft@.take(before.len() as int));
                    if known {
                        assert(probe@.take(seq@.len() as int) =~= context@ + before);
                        assert forall|i: int| 0 <= i < draft@.len() implies Some(
                            #[trigger] draft@[i],
                        ) == greedy_token(
                            drafter.answers(start.window(), context@ + draft@.take(i)),
                            ends,
                        ) by {
                            if i < before.len() {
                                assert(draft@.take(i) =~= before.take(i));
                                assert(before[i] == draft@[i]);
                            }
                        }
                    }
                }
            },
            None => {
                return (draft, true);
            },
        }
    }
    (draft, true)
}

/// The model's verdict on a guess. Where there is none, the answer simply supplies the
/// next token.
fn judge<S: Sampler>(
    sampler: &S,
    logits: &[u32],
    params: &SamplingParams,
    ends: Ends,
    guess: Option<Token>,
    rng: &mut Rng,
) -> (v: Verdict)
    ensures
        (v, *final(rng)) == verdict_on(sampler, logits@, guess, *params, ends, *old(rng)),
        v matches Verdict::Drawn { kept, token } ==> kept ==> guess == Some(token),
{
    match guess {
        Some(g) => {
            if !params.is_greedy() {
                return match sampler.verify(logits, params, g, rng) {
                    Some((kept, t)) => {
                        let token: Token = settled_token(t, ends.eos, ends.turn_end);
                        Verdict::Drawn { kept: kept && token == g, token }
                    },
                    None => Verdict::Failed,
                };
            }
        },
        None => {},
    }
    match draw_token(sampler, logits, params, ends, rng) {
        Some(token) => {
            let kept: bool = match guess {
                Some(g) => g == token,
                None => false,
            };
            Verdict::Drawn { kept, token }
        },
        None => Verdict::Failed,
    }
}

/// Takes what a shared pass answered to each running session, in their order, and gives
/// one result per session: for one that does not run the reason why, for the others what
/// its own answer comes to.
pub fn settle_batch<S: Sampler>(
    sampler: &S,
    sessions: &mut Vec<Session>,
    params: &[SamplingParams],
    ends: Ends,
    stopped: &[Option<StopReason>],
    answers: &[Vec<u32>],
) -> (results: Vec<Result<Token, StopReason>>)
    requires
        old(sessions)@.len() == params@.len(),
        old(sessions)@.len() == stopped@.len(),
        answers@.len() == runtime::running_before(stopped@, stopped@.len() as int),
        forall|i: int| 0 <= i < old(sessions)@.len() ==> (#[trigger] old(sessions)@[i]).wf(),
    ensures
        final(sessions)@.len() == old(sessions)@.len(),
        results@.len() == old(sessions)@.len(),
        forall|i: int|
            0 <= i < old(sessions)@.len() ==> {
                let v = old(sessions)@[i]@;
                let w = (#[trigger] final(sessions)@[i])@;
                &&& final(sessions)@[i].wf()
                &&& match stopped@[i] {
                    Some(reason) => w == v && results@[i] == Err::<Token, StopReason>(reason),
                    None => (w, results@[i]) == after_pass(
                        sampler,
                        v,
                        params@[i],
                        ends,
                        (v.seq, Some(answers@[runtime::running_before(stopped@, i) as int]@)),
                    ),
                }
            },
{
    let mut results: Vec<Result<Token, StopReason>> = Vec::new();
    let n: usize = sessions.len();
    let mut k: usize = 0;
    let mut i: usize = 0;
    while i < n
        invariant
            i <= n,
            n == params@.len(),
            n == stopped@.len(),
            n == old(sessions)@.len(),
            sessions@.len() == n,
            results@.len() == i,
            k == runtime::running_before(stopped@, i as int),
            answers@.len() == runtime::running_before(stopped@, n as int),
            forall|j: int| 0 <= j < n ==> (#[trigger] old(sessions)@[j]).wf(),
            forall|j: int|
                0 <= j < i ==> {
                    let v = old(sessions)@[j]@;
                    let w = (#[trigger] sessions@[j])@;
                    &&& sessions@[j].wf()
                    &&& match stopped@[j] {
                        Some(reason) => w == v && results@[j] == Err::<Token, StopReason>(reason),
                        None => (w, results@[j]) == after_pass(
                            sampler,
                            v,
                            params@[j],
                            ends,
                            (v.seq, Some(answers@[runtime::running_before(stopped@, j) as int]@)),
                        ),
                    }
                },
            forall|j: int| i <= j < n ==> #[trigger] sessions@[j] == old(sessions)@[j],
        decreases n - i,
    {
        proof {
            runtime::running_is_bounded(stopped@, i as int, n as int);
            assert(sessions@[i as int] == old(sessions)@[i as int]);
        }
        let r: Result<Token, StopReason> = match stopped[i] {
            Some(reason) => Err(reason),
            None => {
                let ghost v = sessions@[i as int]@;
                let drawn = draw_token(
                    sampler,
                    answers[k].as_slice(),
                    &params[i],
                    ends,
                    sessions[i].rng(),
                );
                let r = sessions[i].next_token(drawn, ends.eos);
                assert((sessions@[i as int]@, r) == after_pass(
                    sampler,
                    v,
                    params@[i as int],
                    ends,
                    (v.seq, Some(answers@[k as int]@)),
                ));
                k += 1;
                r
            },
        };
        results.push(r);
        i += 1;
    }
    results
}

impl InferenceRuntime {
    /// Absorbs up to `max_tokens` more of a pending prompt, but at least one. True once
    /// it is all in and the sequence is ready for [`InferenceRuntime::finish_prefill`].
    pub fn advance_prefill<B: InferenceBackend>(
        &mut self,
        backend: &B,
        pending: &mut Pending,
        max_tokens: usize,
    ) -> (r: Result<bool, GarudaError>)
        requires
            old(self).wf(),
            old(pending).wf(),
        ensures
            final(self).wf(),
            final(self).template() == old(self).template(),
            final(pending).wf(),
            is_stretch(
                backend,
                old(self)@,
                old(pending)@,
                max_tokens as nat,
                r,
                final(pending)@,
                final(self)@,
            ),
    {
        let target: usize = match pending.prefill_target(max_tokens) {
            Some(t) => t,
            None => {
                return Ok(true);
            },
        };
        let (context, seq) = pending.pass();
        let piece = slice_subrange(context, 0, target);
        assert(piece@ =~= context@.take(target as int));
        match backend.hidden(piece, seq) {
            Ok(_) => {},
            Err(e) => {
                return Err(e);
            },
        }
        Ok(self.note_prefill(pending, target))
    }

    /// Begins a sequence and absorbs its whole prompt but for the last token, which is
    /// always run fresh: that is the step that answers what the first token is.
    pub fn start<B: InferenceBackend>(
        &mut self,
        backend: &B,
        prompt: &[Token],
        params: &SamplingParams,
    ) -> (r: Result<Session, StartError>)
        requires
            old(self).wf(),
        ensures
            final(self).wf(),
            final(self).template() == old(self).template(),
            match r {
                Err(StartError::Sampling(f)) => params.fault() == Some(f) && final(self)@ == old(
                    self,
                )@,
                Err(StartError::Prompt(e)) => {
                    &&& params.fault() is None
                    &&& final(self)@ == old(self)@
                    &&& old(self)@.refuses(prompt@, e)
                },
                Err(StartError::Backend(e)) => {
                    let fresh = SeqView::fresh(old(self).template(), old(self)@.next_seq);
                    &&& params.fault() is None
                    &&& 1 < prompt@.len() < old(self)@.max_context
                    &&& !old(self)@.hits(prompt@)
                    &&& final(self)@ == old(self)@.started(prompt@)
                    &&& backend.may_report(fresh, prompt@.drop_last(), e)
                    &&& exists|after: SeqView| #[trigger]
                        backend.may_fail(fresh, prompt@.drop_last(), after) && after.is_let_go()
                },
                Ok(s) => {
                    &&& params.fault() is None
                    &&& 0 < prompt@.len() < old(self)@.max_context
                    &&& s.wf()
                    &&& is_start(
                        backend,
                        old(self)@,
                        old(self).template(),
                        prompt@,
                        *params,
                        s@,
                        final(self)@,
                    )
                },
            },
    {
        let mut pending = match self.start_incremental(prompt, params) {
            Ok(p) => p,
            Err(e) => {
                return Err(e);
            },
        };
        proof {
            let p = pending@;
            assert(p.prefix() =~= p.context.take(p.prefix().len() as int));
        }
        match self.advance_prefill(backend, &mut pending, prompt.len()) {
            Ok(_) => {},
            Err(e) => {
                pending.let_go();
                return Err(StartError::Backend(e));
            },
        }
        Ok(InferenceRuntime::finish_prefill(pending))
    }

    /// The final hidden state of `tokens`, read as a sequence of their own.
    pub fn embed<B: InferenceBackend>(&mut self, backend: &B, tokens: &[Token]) -> (r: Result<
        Vec<u32>,
        GarudaError,
    >)
        requires
            old(self).wf(),
        ensures
            final(self).wf(),
            final(self).template() == old(self).template(),
            if 0 < tokens@.len() <= old(self)@.max_context {
                let fresh = SeqView::fresh(old(self).template(), old(self)@.next_seq);
                &&& final(self)@ == (RuntimeView {
                    next_seq: old(self)@.next_seq.wrapping_add(1),
                    ..old(self)@
                })
                &&& match r {
                    Ok(v) => {
                        &&& backend::knows(backend, fresh, tokens@) ==> v@ == backend.state_after(
                            fresh.window(),
                            tokens@,
                        )
                        &&& exists|after: SeqView| #[trigger]
                            backend::advanced(fresh, after, tokens@.len()) && after.is_let_go()
                    },
                    Err(e) => backend.may_report(fresh, tokens@, e) && exists|after: SeqView|
                        #[trigger] backend.may_fail(fresh, tokens@, after) && after.is_let_go(),
                }
            } else {
                &&& final(self)@ == old(self)@
                &&& r matches Err(GarudaError::Inference(m)) && m@ == if tokens@.len() == 0 {
                    "cannot embed an empty input"@
                } else {
                    runtime::window_message("input of "@, tokens@.len(), old(self)@.max_context)
                }
            },
    {
        let mut seq = match self.embedding_sequence(tokens) {
            Ok(s) => s,
            Err(e) => {
                return Err(e);
            },
        };
        let r = backend.hidden(tokens, &mut seq);
        seq.purge_spill_files();
        r
    }

    /// The next token, or why there is none: a finished sequence reports why it
    /// finished, so that `finish_reason` can be set honestly.
    pub fn next_token<B: InferenceBackend, S: Sampler>(
        &self,
        backend: &B,
        sampler: &S,
        session: &mut Session,
        params: &SamplingParams,
        ends: Ends,
    ) -> (r: Result<Token, StopReason>)
        requires
            self.wf(),
            old(session).wf(),
        ensures
            final(session).wf(),
            is_step(
                backend,
                sampler,
                old(session)@,
                old(session)@.seq,
                *params,
                ends,
                self@.max_context,
                final(session)@,
                r,
            ),
    {
        let ghost v = session@;
        match session.poll(params.max_tokens, self.max_context()) {
            Some(reason) => {
                return Err(reason);
            },
            None => {},
        }
        let (context, seq) = session.pass();
        let answer = match backend.logits(context, seq) {
            Ok(logits) => Some(logits),
            Err(_) => None,
        };
        let ghost pass = (
            session@.seq,
            if answer is Some {
                Some(answer->Some_0@)
            } else {
                None
            },
        );
        let drawn = match &answer {
            Some(logits) => draw_token(sampler, logits.as_slice(), params, ends, session.rng()),
            None => None,
        };
        let r = session.next_token(drawn, ends.eos);
        assert(is_answer(backend, v.context, v.seq, pass));
        assert((session@, r) == after_pass(sampler, v, *params, ends, pass));
        r
    }

    /// The next token, and as many after it as a guess gets right.
    ///
    /// A guess is only ever kept where the model would have chosen it anyway, but a run
    /// of accepted guesses costs one pass over the weights. Tokens land in `out`; where
    /// the sequence finished, those produced before that are still there.
    ///
    /// Guesses come from `drafter`, a smaller model with the same vocabulary, where there
    /// is one and [`InferenceRuntime::with_drafter`] gave its shape, else from earlier in
    /// the context.
    pub fn next_tokens_speculative<B: InferenceBackend, D: InferenceBackend, S: Sampler>(
        &self,
        backend: &B,
        drafter: Option<&D>,
        sampler: &S,
        session: &mut Session,
        params: &SamplingParams,
        ends: Ends,
        lookahead: usize,
        out: &mut Vec<Token>,
    ) -> (r: Result<(), StopReason>)
        requires
            self.wf(),
            old(session).wf(),
        ensures
            final(session).wf(),
            is_speculation(
                backend,
                drafter,
                sampler,
                self@,
                old(session)@,
                *params,
                lookahead as nat,
                ends,
                final(session)@,
                r,
                old(out)@,
                final(out)@,
            ),
    {
        if lookahead == 0 || !backend.speculation_supported() {
            return match self.next_token(backend, sampler, session, params, ends) {
                Ok(token) => {
                    out.push(token);
                    Ok(())
                },
                Err(reason) => Err(reason),
            };
        }
        self.run_round(backend, drafter, sampler, session, params, ends, lookahead, out)
    }

    /// Up to `limit` guesses for what comes next.
    fn guess<D: InferenceBackend>(
        &self,
        drafter: Option<&D>,
        session: &mut Session,
        limit: usize,
        ends: Ends,
    ) -> (draft: Vec<Token>)
        requires
            old(session).wf(),
        ensures
            final(session).wf(),
            final(session)@ == (SessionView { draft: final(session)@.draft, ..old(session)@ }),
            is_guess(
                drafter,
                self@.draft_template,
                old(session)@,
                limit as nat,
                ends,
                draft@,
                final(session)@.draft,
            ),
    {
        let d = match drafter {
            Some(d) => d,
            None => {
                return draft_from_context(session.context(), limit, NGRAM);
            },
        };
        let fresh = match self.draft_sequence() {
            Some(s) => s,
            None => {
                return draft_from_context(session.context(), limit, NGRAM);
            },
        };
        let mut seq = match session.take_draft() {
            Some(s) => s,
            None => fresh,
        };
        let (draft, usable) = model_guesses(d, &mut seq, session.context(), limit, ends);
        if usable {
            session.put_draft(seq);
        } else {
            seq.purge_spill_files();
        }
        draft
    }

    /// A round of guesses: they are checked in one pass, and what the model agrees with
    /// is kept.
    #[verifier::rlimit(80)]
    fn run_round<B: InferenceBackend, D: InferenceBackend, S: Sampler>(
        &self,
        backend: &B,
        drafter: Option<&D>,
        sampler: &S,
        session: &mut Session,
        params: &SamplingParams,
        ends: Ends,
        lookahead: usize,
        out: &mut Vec<Token>,
    ) -> (r: Result<(), StopReason>)
        requires
            self.wf(),
            old(session).wf(),
        ensures
            final(session).wf(),
            match old(session)@.due(params.max_tokens as nat, self@.max_context) {
                Some(reason) => {
                    &&& final(session)@ == old(session)@.stopped()
                    &&& r == Err::<(), StopReason>(reason)
                    &&& final(out)@ == old(out)@
                },
                None => exists|round: Round| #[trigger]
                    is_round(
                        backend,
                        drafter,
                        self@.draft_template,
                        sampler,
                        old(session)@,
                        *params,
                        lookahead as nat,
                        ends,
                        self@.max_context,
                        round,
                        final(session)@,
                        r,
                        old(out)@,
                        final(out)@,
                    ),
            },
    {
        let ghost v = session@;
        let ghost max_tokens = params.max_tokens as nat;
        let max_context: usize = self.max_context();
        match session.poll(params.max_tokens, max_context) {
            Some(reason) => {
                return Err(reason);
            },
            None => {},
        }
        let limit: usize = session.plan_round(lookahead, params.max_tokens, max_context);
        let draft = self.guess(drafter, session, limit, ends);
        let ghost held = session@.draft;
        let probe = session.probe(draft.as_slice());
        let n: usize = draft.len() + 1;
        assert(probe@.take(v.seq.len() as int) =~= v.context.take(v.seq.len() as int) || v.seq.len()
            > v.context.len());
        let answers = match backend.logits_multi(probe.as_slice(), session.seq(), n) {
            Ok(a) => a,
            Err(_) => {
                let ghost round = Round {
                    draft: draft@,
                    held,
                    pass: session@.seq,
                    answers: Seq::empty(),
                    rng: v.rng,
                    verdicts: Seq::empty(),
                };
                let failed = session.next_token(None, ends.eos);
                assert(is_round(
                    backend,
                    drafter,
                    self@.draft_template,
                    sampler,
                    v,
                    *params,
                    lookahead as nat,
                    ends,
                    self@.max_context,
                    round,
                    session@,
                    Err::<(), StopReason>(StopReason::ContextFull),
                    out@,
                    out@,
                ));
                return Err(StopReason::ContextFull);
            },
        };
        let ghost pass = session@.seq;
        let ghost said = answers@.map_values(|a: Vec<u32>| a@);
        let ghost known = backend::knows(backend, v.seq, v.context) && v.seq.len() < v.context.len();
        proof {
            assert forall|j: int| 0 <= j < n implies probe@.take(probe@.len() - n + 1 + j)
                =~= v.context + #[trigger] draft@.take(j) by {}
        }
        let before: usize = out.len();
        let ghost mut verdicts: Seq<Verdict> = Seq::empty();
        let mut stop: Option<StopReason> = None;
        let mut done: bool = false;
        let mut i: usize = 0;
        while i < n && !done
            invariant
                session.wf(),
                i <= n,
                n == draft@.len() + 1,
                answers@.len() == n,
                max_tokens == params.max_tokens,
                verdicts.len() == i,
                session@ == (SessionView {
                    context: with_tokens(v.context, verdicts),
                    seq: pass,
                    rng: session@.rng,
                    draft: held,
                    ..v.planned()
                }),
                out@ == handed_out(old(out)@, verdicts, ends.eos),
                before == old(out)@.len(),
                before <= out@.len(),
                said == answers@.map_values(|a: Vec<u32>| a@),
                (verdicts, session@.rng) == judged(
                    sampler,
                    said,
                    draft@,
                    *params,
                    ends,
                    v.rng,
                    i as nat,
                ),
                (Round {
                    draft: draft@,
                    held,
                    pass,
                    answers: said,
                    rng: v.rng,
                    verdicts,
                }).keeps_only_guesses(),
                !done ==> stop is None && forall|j: int|
                    0 <= j < i ==> #[trigger] next_at(v, verdicts, j, ends.eos, max_tokens)
                        == Next::More,
                done ==> {
                    &&& i > 0
                    &&& next_at(v, verdicts, i - 1, ends.eos, max_tokens) == Next::Done(stop)
                    &&& forall|j: int|
                        0 <= j < i - 1 ==> #[trigger] next_at(
                            v,
                            verdicts,
                            j,
                            ends.eos,
                            max_tokens,
                        ) == Next::More
                },
            decreases n - i,
        {
            let guess: Option<Token> = if i < draft.len() {
                Some(draft[i])
            } else {
                None
            };
            let verdict = judge(
                sampler,
                answers[i].as_slice(),
                params,
                ends,
                guess,
                session.rng(),
            );
            let next = session.settle_answer(verdict, ends.eos, params.max_tokens, out);
            proof {
                one_more_answer(v, verdicts, verdict, old(out)@, ends.eos, max_tokens);
                verdicts = verdicts.push(verdict);
            }
            match next {
                Next::More => {},
                Next::Done(reason) => {
                    stop = reason;
                    done = true;
                },
            }
            i += 1;
        }
        let ghost round = Round {
            draft: draft@,
            held,
            pass,
            answers: said,
            rng: session@.rng,
            verdicts,
        };
        proof {
            assert forall|j: int| 0 <= j <= draft@.len() implies (#[trigger] said[j]).len()
                == backend.shape().vocab_size by {
                assert(said[j] == answers@[j]@);
            }
            if known {
                assert forall|j: int| 0 <= j <= draft@.len() implies #[trigger] said[j]
                    == backend.answers(v.seq.window(), v.context + draft@.take(j)) by {
                    assert(said[j] == answers@[j]@);
                }
            }
        }
        let produced: usize = out.len() - before;
        session.trim_draft();
        let r = session.close_round(stop, draft.len(), produced);
        assert(round.is_complete(v, ends.eos, max_tokens));
        assert(round.stop(v, ends.eos, max_tokens) == stop);
        assert(is_round(
            backend,
            drafter,
            self@.draft_template,
            sampler,
            v,
            *params,
            lookahead as nat,
            ends,
            self@.max_context,
            round,
            session@,
            r,
            old(out)@,
            out@,
        ));
        r
    }

    /// Steps each running session alone. The others get the reason why they do not run.
    fn step_each<B: InferenceBackend, S: Sampler>(
        &self,
        backend: &B,
        sampler: &S,
        sessions: &mut Vec<Session>,
        params: &[SamplingParams],
        ends: Ends,
        stopped: &[Option<StopReason>],
    ) -> (results: Vec<Result<Token, StopReason>>)
        requires
            self.wf(),
            old(sessions)@.len() == params@.len(),
            old(sessions)@.len() == stopped@.len(),
            forall|i: int| 0 <= i < old(sessions)@.len() ==> (#[trigger] old(sessions)@[i]).wf(),
        ensures
            final(sessions)@.len() == old(sessions)@.len(),
            results@.len() == old(sessions)@.len(),
            forall|i: int|
                0 <= i < old(sessions)@.len() ==> {
                    let v = old(sessions)@[i]@;
                    let w = (#[trigger] final(sessions)@[i])@;
                    &&& final(sessions)@[i].wf()
                    &&& match stopped@[i] {
                        Some(reason) => w == v && results@[i] == Err::<Token, StopReason>(reason),
                        None => is_step(
                            backend,
                            sampler,
                            v,
                            v.seq,
                            params@[i],
                            ends,
                            self@.max_context,
                            w,
                            results@[i],
                        ),
                    }
                },
    {
        let mut results: Vec<Result<Token, StopReason>> = Vec::new();
        let n: usize = sessions.len();
        let mut i: usize = 0;
        while i < n
            invariant
                self.wf(),
                i <= n,
                n == params@.len(),
                n == stopped@.len(),
                n == old(sessions)@.len(),
                sessions@.len() == n,
                results@.len() == i,
                forall|j: int| 0 <= j < n ==> (#[trigger] old(sessions)@[j]).wf(),
                forall|j: int|
                    0 <= j < i ==> {
                        let v = old(sessions)@[j]@;
                        let w = (#[trigger] sessions@[j])@;
                        &&& sessions@[j].wf()
                        &&& match stopped@[j] {
                            Some(reason) => w == v && results@[j] == Err::<Token, StopReason>(
                                reason,
                            ),
                            None => is_step(
                                backend,
                                sampler,
                                v,
                                v.seq,
                                params@[j],
                                ends,
                                self@.max_context,
                                w,
                                results@[j],
                            ),
                        }
                    },
                forall|j: int| i <= j < n ==> #[trigger] sessions@[j] == old(sessions)@[j],
            decreases n - i,
        {
            assert(sessions@[i as int] == old(sessions)@[i as int]);
            let r: Result<Token, StopReason> = match stopped[i] {
                Some(reason) => Err(reason),
                None => self.next_token(backend, sampler, &mut sessions[i], &params[i], ends),
            };
            results.push(r);
            i += 1;
        }
        results
    }

    /// One step for several sessions at once, one result each in order.
    ///
    /// The sessions are independent, so each ends up as if it was stepped alone; what
    /// is won is that they share a pass over the weights. Sessions that are finished,
    /// out of budget or out of context never reach the backend. A batch is only ever an
    /// optimisation: where it fails, each session is stepped alone, so that the error
    /// lands where it belongs.
    #[verifier::rlimit(30)]
    pub fn next_token_batch<B: InferenceBackend, S: Sampler>(
        &self,
        backend: &B,
        sampler: &S,
        sessions: &mut Vec<Session>,
        params: &[SamplingParams],
        ends: Ends,
    ) -> (results: Vec<Result<Token, StopReason>>)
        requires
            self.wf(),
            old(sessions)@.len() == params@.len(),
            forall|i: int| 0 <= i < old(sessions)@.len() ==> (#[trigger] old(sessions)@[i]).wf(),
        ensures
            final(sessions)@.len() == old(sessions)@.len(),
            results@.len() == old(sessions)@.len(),
            forall|i: int|
                0 <= i < old(sessions)@.len() ==> (#[trigger] final(sessions)@[i]).wf()
                    && steps_in_batch(
                    backend,
                    sampler,
                    old(sessions)@[i]@,
                    params@[i],
                    ends,
                    self@.max_context,
                    final(sessions)@[i]@,
                    results@[i],
                ),
    {
        let stopped = poll_batch(sessions, params, self.max_context());
        let live = running(stopped.as_slice());
        let ghost polled = sessions@;
        if live.len() == 0 {
            proof {
                assert forall|i: int| 0 <= i < old(sessions)@.len() implies left_by_a_failure(
                    backend,
                    (#[trigger] old(sessions)@[i])@,
                    old(sessions)@[i]@.seq,
                ) by {}
            }
            return settle_batch(sampler, sessions, params, ends, stopped.as_slice(), &[]);
        }
        match backend.logits_batch(sessions, live.as_slice()) {
            Ok(answers) => {
                let ghost ran = sessions@;
                let results = settle_batch(
                    sampler,
                    sessions,
                    params,
                    ends,
                    stopped.as_slice(),
                    answers.as_slice(),
                );
                proof {
                    assert forall|i: int| 0 <= i < sessions@.len() implies steps_in_batch(
                        backend,
                        sampler,
                        old(sessions)@[i]@,
                        params@[i],
                        ends,
                        self@.max_context,
                        (#[trigger] sessions@[i])@,
                        results@[i],
                    ) by {
                        let v = old(sessions)@[i]@;
                        assert(left_by_a_failure(backend, v, v.seq));
                        if stopped@[i] is None {
                            let k = runtime::running_before(stopped@, i);
                            assert(live@[k as int] == i);
                            let pass = (ran[i]@.seq, Some(answers@[k as int]@));
                            assert(is_answer(backend, v.context, v.seq, pass));
                        } else {
                            assert(!live@.contains(i as usize));
                        }
                    }
                }
                results
            },
            Err(_) => {
                let ghost ran = sessions@;
                let results = self.step_each(
                    backend,
                    sampler,
                    sessions,
                    params,
                    ends,
                    stopped.as_slice(),
                );
                proof {
                    assert forall|i: int| 0 <= i < sessions@.len() implies steps_in_batch(
                        backend,
                        sampler,
                        old(sessions)@[i]@,
                        params@[i],
                        ends,
                        self@.max_context,
                        (#[trigger] sessions@[i])@,
                        results@[i],
                    ) by {
                        let v = old(sessions)@[i]@;
                        if stopped@[i] is None {
                            let k = runtime::running_before(stopped@, i);
                            assert(live@[k as int] == i);
                            assert(left_by_a_failure(backend, v, ran[i]@.seq));
                            assert(is_step(
                                backend,
                                sampler,
                                v,
                                ran[i]@.seq,
                                params@[i],
                                ends,
                                self@.max_context,
                                sessions@[i]@,
                                results@[i],
                            ));
                        } else {
                            assert(left_by_a_failure(backend, v, v.seq));
                            assert(!live@.contains(i as usize));
                        }
                    }
                }
                results
            },
        }
    }
}

} // verus!
