//! The state of sequences, and the decisions of the decode loop.
//!
//! A forward pass and a draw from its logits happen between two decisions made here:
//! what to run, and what the drawn token does to the session. [`crate::decode`] runs the
//! passes. Control returns to the caller between every token, which is what makes
//! cancellation, timeouts and streaming possible.

use crate::cache::expert::CacheStats;
use crate::cache::kv;
use crate::cache::kv::KvConfig;
use crate::cache::prompt;
use crate::cache::prompt::{PromptCache, PromptCacheView};
use crate::cache::sequence::{SeqState, SeqView};
use crate::double;
use crate::double::Double;
use crate::sampling::{Rng, SamplingFault, SamplingParams};
use crate::sampling;
use crate::text;
use crate::text::push_size;
use crate::types::{GarudaError, Token};
use vstd::prelude::*;
use vstd::slice::{slice_subrange, slice_to_vec};
use vstd::string::*;

verus! {

/// Why generation stopped.
#[derive(Debug, Clone, Copy, PartialEq, Eq, Structural)]
pub enum StopReason {
    /// The model emitted end-of-sequence.
    Eos,
    /// `max_tokens` was reached.
    Length,
    /// The context window is full.
    ContextFull,
}

impl StopReason {
    /// The `finish_reason` string OpenAI clients expect.
    pub fn as_openai(&self) -> (s: &'static str)
        ensures
            s@ == match self {
                StopReason::Eos => "stop"@,
                _ => "length"@,
            },
    {
        match self {
            StopReason::Eos => "stop",
            StopReason::Length | StopReason::ContextFull => "length",
        }
    }
}

/// A drawn token, with one that ends the turn taken for the end of the sequence.
pub open spec fn settled(token: Token, eos: Token, turn_end: Option<Token>) -> Token {
    if turn_end == Some(token) {
        eos
    } else {
        token
    }
}

/// A drawn token, with one that ends the turn taken for the end of the sequence: some
/// formats end a turn with a token of their own, and decoding stops on either.
pub fn settled_token(token: Token, eos: Token, turn_end: Option<Token>) -> (t: Token)
    ensures
        t == settled(token, eos, turn_end),
        turn_end == Some(token) ==> t == eos,
        turn_end != Some(token) ==> t == token,
{
    match turn_end {
        Some(end) => if token == end {
            eos
        } else {
            token
        },
        None => token,
    }
}

/// Context tokens that must match for a guess to be drawn from an earlier passage.
pub const NGRAM: usize = 4;

/// Rounds after which a sequence that gave up guessing gets another look.
pub const RETRY_AFTER: usize = 16;

/// The average gain from which guessing is worth it: 0.35 tokens, as a double has it.
pub open spec fn worth_it() -> (nat, int) {
    (WORTH_IT_PARTS as nat, -54)
}

/// How much of an average gain stays when a round is added: 0.7.
pub open spec fn old_part() -> (nat, int) {
    (WORTH_IT_PARTS as nat, -53)
}

/// How much of a round's gain goes into the average: 0.3.
pub open spec fn new_part() -> (nat, int) {
    (NEW_PARTS as nat, -54)
}

/// 0.35 in parts of two to the 54th, and 0.7 in parts of two to the 53rd.
pub const WORTH_IT_PARTS: u64 = 6_305_039_478_318_694;

/// 0.3 in parts of two to the 54th.
pub const NEW_PARTS: u64 = 5_404_319_552_844_595;

/// The moving average of gains after a round that won `won` tokens: seven parts old,
/// three parts new.
pub open spec fn gain_after(gain: (nat, int), won: nat) -> (nat, int) {
    double::blended(gain, old_part(), double::rounded(won, 0), new_part())
}

/// The last `ngram` tokens of `context` occur at `start` too, further ahead.
pub open spec fn echoes(context: Seq<Token>, ngram: int, start: int) -> bool {
    &&& 0 <= start < context.len() - ngram
    &&& context.subrange(start, start + ngram) == context.subrange(
        context.len() - ngram,
        context.len() as int,
    )
}

/// The latest earlier occurrence of the last `ngram` tokens.
pub open spec fn is_latest_echo(context: Seq<Token>, ngram: int, start: int) -> bool {
    &&& echoes(context, ngram, start)
    &&& forall|later: int| start < later ==> !echoes(context, ngram, later)
}

/// There is no basis for a guess.
pub open spec fn no_guess(context: Seq<Token>, max_tokens: nat, ngram: nat) -> bool {
    max_tokens == 0 || ngram == 0 || context.len() <= ngram || forall|start: int|
        !echoes(context, ngram as int, start)
}

/// What `draft` may be: nothing where there is no basis for a guess, else what
/// followed the latest earlier occurrence of the recent context.
pub open spec fn is_draft(
    context: Seq<Token>,
    max_tokens: nat,
    ngram: nat,
    draft: Seq<Token>,
) -> bool {
    if no_guess(context, max_tokens, ngram) {
        draft == Seq::<Token>::empty()
    } else {
        exists|start: int|
            {
                &&& #[trigger] is_latest_echo(context, ngram as int, start)
                &&& draft.len() == lesser(max_tokens as int, context.len() - start - ngram)
                &&& draft == context.subrange(
                    start + ngram,
                    start + ngram + draft.len(),
                )
            }
    }
}

pub open spec fn lesser(a: int, b: int) -> int {
    if a <= b {
        a
    } else {
        b
    }
}

fn same_tokens(context: &[Token], a: usize, b: usize, n: usize) -> (r: bool)
    requires
        a + n <= context@.len(),
        b + n <= context@.len(),
    ensures
        r == (context@.subrange(a as int, a + n) == context@.subrange(b as int, b + n)),
{
    let mut i: usize = 0;
    while i < n
        invariant
            i <= n,
            a + n <= context@.len(),
            b + n <= context@.len(),
            context@.len() == context.len(),
            forall|j: int|
                0 <= j < i ==> #[trigger] context@.subrange(a as int, a + n)[j]
                    == context@.subrange(b as int, b + n)[j],
        decreases n - i,
    {
        if context[a + i] != context[b + i] {
            proof {
                let x = context@.subrange(a as int, a + n);
                let y = context@.subrange(b as int, b + n);
                assert(x[i as int] != y[i as int]);
            }
            return false;
        }
        i += 1;
    }
    assert(context@.subrange(a as int, a + n) =~= context@.subrange(b as int, b + n));
    true
}

/// Guesses the next few tokens by finding where the recent context occurred earlier
/// and copying whatever followed it.
///
/// Returns an empty guess when it has no basis for one: a guess made up from nothing
/// is wrong nearly always.
pub fn draft_from_context(context: &[Token], max_tokens: usize, ngram: usize) -> (draft: Vec<Token>)
    ensures
        is_draft(context@, max_tokens as nat, ngram as nat, draft@),
        draft@.len() <= max_tokens,
        max_tokens == 0 || ngram == 0 ==> draft@.len() == 0,
{
    if max_tokens == 0 || ngram == 0 || context.len() <= ngram {
        return Vec::new();
    }
    let tail: usize = context.len() - ngram;
    let mut start: usize = tail;
    while start > 0
        invariant
            start <= tail,
            tail + ngram == context@.len(),
            context@.len() == context.len(),
            max_tokens > 0,
            ngram > 0,
            forall|later: int| start <= later ==> !echoes(context@, ngram as int, later),
        decreases start,
    {
        start -= 1;
        if same_tokens(context, start, tail, ngram) {
            let from: usize = start + ngram;
            let left: usize = context.len() - from;
            let take: usize = if max_tokens < left {
                max_tokens
            } else {
                left
            };
            let draft = slice_to_vec(slice_subrange(context, from, from + take));
            assert(echoes(context@, ngram as int, start as int));
            assert(is_latest_echo(context@, ngram as int, start as int));
            return draft;
        }
        assert(!echoes(context@, ngram as int, start as int));
    }
    Vec::new()
}

/// A sequence whose prompt is still going in.
pub struct Pending {
    seq: SeqState,
    /// The full prompt. Everything but its last token is prefilled.
    context: Vec<Token>,
    /// Prompt positions already in `seq`.
    consumed: usize,
    seed: u64,
    /// Whether the finished prefix is worth caching: false for one that came from the
    /// cache.
    cache_on_finish: bool,
}

#[verifier::ext_equal]
pub struct PendingView {
    pub seq: SeqView,
    pub context: Seq<Token>,
    pub consumed: nat,
    pub seed: u64,
    pub cache_on_finish: bool,
}

impl PendingView {
    pub open spec fn wf(self) -> bool {
        self.seq.wf() && self.context.len() > 0
    }

    /// The part of the prompt that is prefilled.
    pub open spec fn prefix(self) -> Seq<Token> {
        self.context.drop_last()
    }

    pub open spec fn remaining(self) -> nat {
        if self.consumed <= self.prefix().len() {
            (self.prefix().len() - self.consumed) as nat
        } else {
            0
        }
    }

    /// Where a stretch of `max_tokens` tokens, but at least one, ends.
    pub open spec fn target(self, max_tokens: nat) -> nat {
        (self.consumed + lesser(
            self.remaining() as int,
            kv::at_least_one(max_tokens) as int,
        )) as nat
    }
}

impl PendingView {
    /// `s` is the session that decodes from here. It starts optimistic about guessing.
    pub open spec fn begins(self, s: SessionView) -> bool {
        &&& s == (SessionView {
            seq: self.seq,
            context: self.context,
            prompt_len: self.context.len(),
            rng: s.rng,
            finished: false,
            spec_gain: double::rounded(1, 0),
            spec_idle: 0,
            draft: None,
        })
        &&& s.rng.state() == self.seed ^ sampling::GOLDEN_GAMMA
    }
}

impl View for Pending {
    type V = PendingView;

    closed spec fn view(&self) -> PendingView {
        PendingView {
            seq: self.seq@,
            context: self.context@,
            consumed: self.consumed as nat,
            seed: self.seed,
            cache_on_finish: self.cache_on_finish,
        }
    }
}

impl Pending {
    pub open spec fn wf(&self) -> bool {
        self@.wf()
    }

    /// Prompt tokens still to absorb before this can start decoding.
    pub fn remaining(&self) -> (n: usize)
        requires
            self.wf(),
        ensures
            n == self@.remaining(),
    {
        (self.context.len() - 1).saturating_sub(self.consumed)
    }

    /// Ends the sequence here. It takes its spill files with it.
    pub fn let_go(self)
        requires
            self.wf(),
        ensures
            self@.seq.is_let_go(),
    {
        let mut seq = self.seq;
        seq.purge_spill_files();
    }

    /// How far the next stretch of prefill goes when it may absorb `max_tokens` tokens,
    /// but at least one: the caller runs `context()[..target]` through the model.
    /// `None` once everything is in.
    pub fn prefill_target(&self, max_tokens: usize) -> (r: Option<usize>)
        requires
            self.wf(),
        ensures
            match r {
                Some(target) => {
                    &&& self@.remaining() > 0
                    &&& target == self@.consumed + lesser(
                        self@.remaining() as int,
                        kv::at_least_one(max_tokens as nat) as int,
                    )
                    &&& target <= self@.prefix().len()
                },
                None => self@.remaining() == 0,
            },
            r matches Some(target) ==> self@.consumed < target < self@.context.len()
                && (target + 1 == self@.context.len() || target == self@.consumed + max_tokens || (
            max_tokens == 0 && target == self@.consumed + 1)),
            r matches Some(target) ==> target <= self@.consumed + max_tokens || target
                == self@.consumed + 1,
            r is None <==> self@.consumed + 1 >= self@.context.len(),
    {
        let prefix_len: usize = self.context.len() - 1;
        if self.consumed >= prefix_len {
            return None;
        }
        let step: usize = if max_tokens == 0 {
            1
        } else {
            max_tokens
        };
        let reach: usize = self.consumed.saturating_add(step);
        Some(
            if reach < prefix_len {
                reach
            } else {
                prefix_len
            },
        )
    }

    /// The full prompt, and the sequence that it goes into.
    pub(crate) fn pass(&mut self) -> (r: (&[Token], &mut SeqState))
        ensures
            r.0@ == old(self)@.context,
            r.1@ == old(self)@.seq,
            final(self)@ == (PendingView { seq: (*final(r.1))@, ..old(self)@ }),
    {
        (self.context.as_slice(), &mut self.seq)
    }
}

/// One in-flight sequence.
pub struct Session {
    seq: SeqState,
    /// Prompt followed by everything generated so far.
    context: Vec<Token>,
    prompt_len: usize,
    rng: Rng,
    finished: bool,
    /// Extra tokens the last few rounds of guesses won, as a moving average in units.
    ///
    /// A guess is not free: the pass computes every guessed position, so guesses that
    /// miss cost more than not guessing. The sequence keeps score and stops guessing
    /// when it is losing.
    spec_gain: Double,
    /// Rounds since guessing was last attempted.
    spec_idle: usize,
    /// What a draft model has read of the context, once it was asked for guesses.
    draft: Option<SeqState>,
}

#[verifier::ext_equal]
pub struct SessionView {
    pub seq: SeqView,
    pub context: Seq<Token>,
    pub prompt_len: nat,
    pub rng: Rng,
    pub finished: bool,
    pub spec_gain: (nat, int),
    pub spec_idle: nat,
    pub draft: Option<SeqView>,
}

/// What a forward pass has to say about one position of a round.
#[derive(Debug, Clone, Copy, PartialEq, Eq, Structural)]
pub enum Verdict {
    /// No token could be drawn.
    Failed,
    /// The token to emit, and whether it is the guess for that position.
    Drawn { kept: bool, token: Token },
}

/// What follows an answer of a round.
#[derive(Debug, Clone, Copy, PartialEq, Eq, Structural)]
pub enum Next {
    /// The guess held, so the next answer counts too.
    More,
    /// The round is over, and the sequence with it if there is a reason.
    Done(Option<StopReason>),
}

impl SessionView {
    pub open spec fn wf(self) -> bool {
        &&& self.seq.wf()
        &&& self.context.len() > 0
        &&& self.prompt_len <= self.context.len()
        &&& double::fits(self.spec_gain)
        &&& self.draft matches Some(d) ==> d.wf()
    }

    /// Storage was told to drop every block that it has of the sequence.
    pub open spec fn is_let_go(self) -> bool {
        &&& self.seq.is_let_go()
        &&& self.draft matches Some(d) ==> d.is_let_go()
    }

    pub open spec fn generated(self) -> nat {
        (self.context.len() - self.prompt_len) as nat
    }

    /// The reason not to run another step, if there is one.
    pub open spec fn due(self, max_tokens: nat, max_context: nat) -> Option<StopReason> {
        if self.finished || self.generated() >= max_tokens {
            Some(StopReason::Length)
        } else if self.context.len() >= max_context {
            Some(StopReason::ContextFull)
        } else {
            None
        }
    }

    pub open spec fn stopped(self) -> SessionView {
        SessionView { finished: true, ..self }
    }

    pub open spec fn polled(self, max_tokens: nat, max_context: nat) -> SessionView {
        if self.due(max_tokens, max_context) is Some {
            self.stopped()
        } else {
            self
        }
    }

    pub open spec fn emitted(self, token: Token) -> SessionView {
        SessionView { context: self.context.push(token), ..self }
    }

    /// The session after a step that drew `drawn`.
    pub open spec fn stepped(self, drawn: Option<Token>, eos: Token) -> SessionView {
        match drawn {
            None => self.stopped(),
            Some(t) => if t == eos {
                self.emitted(t).stopped()
            } else {
                self.emitted(t)
            },
        }
    }

    /// What a step that drew `drawn` reports.
    pub open spec fn step_result(drawn: Option<Token>, eos: Token) -> Result<Token, StopReason> {
        match drawn {
            None => Err(StopReason::ContextFull),
            Some(t) => if t == eos {
                Err(StopReason::Eos)
            } else {
                Ok(t)
            },
        }
    }

    /// The session after one answer of a round.
    pub open spec fn answered(self, verdict: Verdict) -> SessionView {
        match verdict {
            Verdict::Failed => self,
            Verdict::Drawn { token, .. } => self.emitted(token),
        }
    }

    /// What follows an answer. `self` is the session before it.
    pub open spec fn next(self, verdict: Verdict, eos: Token, max_tokens: nat) -> Next {
        match verdict {
            Verdict::Failed => Next::Done(Some(StopReason::ContextFull)),
            Verdict::Drawn { kept, token } => if token == eos {
                Next::Done(Some(StopReason::Eos))
            } else if !kept {
                Next::Done(None)
            } else if self.generated() + 1 >= max_tokens {
                Next::Done(Some(StopReason::Length))
            } else {
                Next::More
            },
        }
    }

    /// How many guesses a round may use: no more than the budget or the window can
    /// take, since a token accepted past either would have to be thrown away.
    pub open spec fn room(self, max_tokens: nat, max_context: nat) -> nat {
        let left = lesser(
            max_tokens - self.generated(),
            max_context - self.context.len(),
        );
        if left <= 1 {
            0
        } else {
            (left - 1) as nat
        }
    }

    /// Whether this round sits out.
    pub open spec fn sits_out(self) -> bool {
        double::below(self.spec_gain, worth_it()) && self.spec_idle < RETRY_AFTER
    }

    /// The session after it was decided whether to guess.
    pub open spec fn planned(self) -> SessionView {
        SessionView {
            spec_idle: if self.sits_out() {
                self.spec_idle + 1
            } else {
                0
            },
            ..self
        }
    }

    /// How many guesses this round asks for: one more than has been landing.
    pub open spec fn budget(self, lookahead: nat) -> nat {
        if self.sits_out() {
            0
        } else {
            lesser((double::ceiling(self.spec_gain) + 1) as int, lookahead as int) as nat
        }
    }

    /// The session after a round with `guessed` guesses produced `produced` tokens and,
    /// where it `stopped`, one more that is not handed out. Tokens beyond the one that
    /// a plain step would have produced are the gain.
    pub open spec fn scored(self, guessed: nat, produced: nat, stopped: bool) -> SessionView {
        let total = produced + if stopped {
            1nat
        } else {
            0
        };
        SessionView {
            spec_gain: if guessed == 0 {
                self.spec_gain
            } else if total == 0 {
                gain_after(self.spec_gain, 0)
            } else {
                gain_after(self.spec_gain, (total - 1) as nat)
            },
            ..self
        }
    }

    /// The cache can be taken back to one position fewer than there are tokens.
    pub open spec fn closes(self) -> bool {
        can_be_cut(self.seq, self.kept())
    }
}

/// A sequence can be taken back to `len` positions.
pub open spec fn can_be_cut(seq: SeqView, len: nat) -> bool {
    &&& !seq.unrecoverable(len)
    &&& forall|l: int| 0 <= l < seq.kvs.len() ==> !(#[trigger] seq.kvs[l]).cut_refused(len)
}

impl SessionView {
    /// What the draft model has read once tokens were settled: no more than all but the
    /// last of them. Nothing where its sequence cannot be taken back.
    pub open spec fn draft_kept(self) -> Option<SeqView> {
        match self.draft {
            Some(d) => if can_be_cut(d, self.kept()) {
                Some(d.cut(self.kept()))
            } else {
                None
            },
            None => None,
        }
    }

    /// How many positions the cache has between two rounds: one fewer than tokens.
    pub open spec fn kept(self) -> nat {
        if self.context.len() == 0 {
            0
        } else {
            (self.context.len() - 1) as nat
        }
    }

    /// `w` and `r` are what a scored round leaves and reports where its last answer said
    /// `stop`. A cache that cannot be taken back ends the sequence.
    pub open spec fn closed(
        self,
        stop: Option<StopReason>,
        w: SessionView,
        r: Result<(), StopReason>,
    ) -> bool {
        if self.closes() {
            &&& w == (SessionView {
                seq: self.seq.cut(self.kept()),
                finished: self.finished || stop is Some,
                ..self
            })
            &&& r == match stop {
                Some(reason) => Err::<(), StopReason>(reason),
                None => Ok(()),
            }
        } else {
            &&& w == (SessionView { seq: w.seq, finished: true, ..self })
            &&& r == Err::<(), StopReason>(StopReason::ContextFull)
        }
    }
}

impl View for Session {
    type V = SessionView;

    closed spec fn view(&self) -> SessionView {
        SessionView {
            seq: self.seq@,
            context: self.context@,
            prompt_len: self.prompt_len as nat,
            rng: self.rng,
            finished: self.finished,
            spec_gain: self.spec_gain@,
            spec_idle: self.spec_idle as nat,
            draft: match self.draft {
                Some(d) => Some(d@),
                None => None,
            },
        }
    }
}

impl Session {
    pub open spec fn wf(&self) -> bool {
        self@.wf()
    }

    /// Ends the sequence. It takes its spill files with it, and those of its draft model.
    pub fn let_go(self)
        requires
            self.wf(),
        ensures
            self@.is_let_go(),
    {
        let mut seq = self.seq;
        seq.purge_spill_files();
        if let Some(d) = self.draft {
            let mut d = d;
            d.purge_spill_files();
        }
    }

    pub fn prompt_len(&self) -> (n: usize)
        ensures
            n == self@.prompt_len,
    {
        self.prompt_len
    }

    pub fn generated(&self) -> (n: usize)
        requires
            self.wf(),
        ensures
            n == self@.generated(),
    {
        self.context.len() - self.prompt_len
    }

    pub fn generated_tokens(&self) -> (t: &[Token])
        requires
            self.wf(),
        ensures
            t@ == self@.context.skip(self@.prompt_len as int),
    {
        let t = slice_subrange(self.context.as_slice(), self.prompt_len, self.context.len());
        assert(t@ =~= self@.context.skip(self@.prompt_len as int));
        t
    }

    pub fn is_finished(&self) -> (b: bool)
        ensures
            b == self@.finished,
    {
        self.finished
    }

    /// Prompt followed by everything generated so far.
    pub fn context(&self) -> (c: &[Token])
        ensures
            c@ == self@.context,
    {
        self.context.as_slice()
    }

    /// The context, and the sequence that a forward pass over it reads and extends.
    pub fn pass(&mut self) -> (r: (&[Token], &mut SeqState))
        ensures
            r.0@ == old(self)@.context,
            r.1@ == old(self)@.seq,
            final(self)@ == (SessionView { seq: (*final(r.1))@, ..old(self)@ }),
    {
        (self.context.as_slice(), &mut self.seq)
    }

    /// The sequence that a forward pass extends.
    pub fn seq(&mut self) -> (s: &mut SeqState)
        ensures
            s@ == old(self)@.seq,
            final(self)@ == (SessionView { seq: (*final(s))@, ..old(self)@ }),
    {
        &mut self.seq
    }

    /// The generator that tokens are drawn with.
    pub(crate) fn rng(&mut self) -> (r: &mut Rng)
        ensures
            *r == old(self)@.rng,
            final(self)@ == (SessionView { rng: *final(r), ..old(self)@ }),
    {
        &mut self.rng
    }

    /// Decides whether the session runs another step. Where it does not, the reason is
    /// reported and the session is finished.
    pub fn poll(&mut self, max_tokens: usize, max_context: usize) -> (r: Option<StopReason>)
        requires
            old(self).wf(),
        ensures
            final(self).wf(),
            r == old(self)@.due(max_tokens as nat, max_context as nat),
            final(self)@ == old(self)@.polled(max_tokens as nat, max_context as nat),
            r == Some(StopReason::Length) <==> old(self)@.finished || old(self)@.context.len()
                >= old(self)@.prompt_len + max_tokens,
            r == Some(StopReason::ContextFull) <==> !(old(self)@.finished
                || old(self)@.context.len() >= old(self)@.prompt_len + max_tokens)
                && old(self)@.context.len() >= max_context,
            r != Some(StopReason::Eos),
            final(self)@.finished <==> old(self)@.finished || r is Some,
            final(self)@.context == old(self)@.context,
            final(self)@.seq == old(self)@.seq,
            final(self)@.rng == old(self)@.rng,
    {
        if self.finished {
            return Some(StopReason::Length);
        }
        if self.generated() >= max_tokens {
            self.finished = true;
            return Some(StopReason::Length);
        }
        if self.context.len() >= max_context {
            self.finished = true;
            return Some(StopReason::ContextFull);
        }
        None
    }

    /// Takes the token that a step drew, or the news that the pass or the draw failed.
    ///
    /// A finished sequence reports why it finished, so that `finish_reason` can be set
    /// honestly.
    pub fn next_token(&mut self, drawn: Option<Token>, eos: Token) -> (r: Result<
        Token,
        StopReason,
    >)
        requires
            old(self).wf(),
        ensures
            final(self).wf(),
            r == SessionView::step_result(drawn, eos),
            final(self)@ == old(self)@.stepped(drawn, eos),
            drawn is None ==> r == Err::<Token, StopReason>(StopReason::ContextFull)
                && final(self)@.finished && final(self)@.context == old(self)@.context,
            drawn matches Some(t) ==> {
                &&& final(self)@.context == old(self)@.context.push(t)
                &&& t == eos ==> r == Err::<Token, StopReason>(StopReason::Eos)
                    && final(self)@.finished
                &&& t != eos ==> r == Ok::<Token, StopReason>(t) && final(self)@.finished
                    == old(self)@.finished
            },
            final(self)@.seq == old(self)@.seq,
            final(self)@.prompt_len == old(self)@.prompt_len,
    {
        match drawn {
            None => {
                self.finished = true;
                Err(StopReason::ContextFull)
            },
            Some(token) => {
                self.context.push(token);
                if token == eos {
                    self.finished = true;
                    return Err(StopReason::Eos);
                }
                Ok(token)
            },
        }
    }

    /// How many guesses the next round makes, for a session that [`Session::poll`] let
    /// run.
    ///
    /// No more guesses are made than have been landing, plus one: six guesses that win
    /// one token do the arithmetic of six positions for it. A session whose guesses
    /// miss sits out for a while.
    pub fn plan_round(&mut self, lookahead: usize, max_tokens: usize, max_context: usize) -> (limit:
        usize)
        requires
            old(self).wf(),
            old(self)@.due(max_tokens as nat, max_context as nat) is None,
        ensures
            final(self).wf(),
            final(self)@ == old(self)@.planned(),
            limit == lesser(
                old(self)@.budget(lookahead as nat) as int,
                old(self)@.room(max_tokens as nat, max_context as nat) as int,
            ),
            limit < max_tokens,
            limit <= lookahead,
            old(self)@.context.len() + limit + 1 <= old(self)@.prompt_len + max_tokens,
            old(self)@.context.len() + limit + 1 <= max_context,
            ({
                let v = old(self)@;
                let gives_up = double::below(v.spec_gain, (6_305_039_478_318_694, -54))
                    && v.spec_idle < 16;
                &&& gives_up ==> limit == 0 && final(self)@.spec_idle == v.spec_idle + 1
                &&& !gives_up ==> final(self)@.spec_idle == 0 && (limit == lookahead || limit
                    == double::ceiling(v.spec_gain) + 1 || v.context.len() + limit + 1
                    == v.prompt_len + max_tokens || v.context.len() + limit + 1 == max_context)
                &&& !gives_up ==> limit <= double::ceiling(v.spec_gain) + 1
            }),
            final(self)@.context == old(self)@.context,
            final(self)@.spec_gain == old(self)@.spec_gain,
            final(self)@.finished == old(self)@.finished,
    {
        let by_tokens: usize = max_tokens - self.generated();
        let by_window: usize = max_context - self.context.len();
        let left: usize = if by_tokens < by_window {
            by_tokens
        } else {
            by_window
        };
        let room: usize = left.saturating_sub(1);
        let losing: bool = self.spec_gain.is_below(Double::new(WORTH_IT_PARTS, -54));
        let budget: usize = if losing && self.spec_idle < RETRY_AFTER {
            self.spec_idle += 1;
            0
        } else {
            self.spec_idle = 0;
            self.spec_gain.ceiling_and_one(lookahead)
        };
        if budget < room {
            budget
        } else {
            room
        }
    }

    /// Takes out what the draft model has read, to go on from there.
    pub(crate) fn take_draft(&mut self) -> (d: Option<SeqState>)
        requires
            old(self).wf(),
        ensures
            final(self).wf(),
            final(self)@ == (SessionView { draft: None, ..old(self)@ }),
            match d {
                Some(s) => s.wf() && old(self)@.draft == Some(s@),
                None => old(self)@.draft is None,
            },
    {
        self.draft.take()
    }

    /// Puts back what the draft model has read.
    pub(crate) fn put_draft(&mut self, d: SeqState)
        requires
            old(self).wf(),
            d.wf(),
        ensures
            final(self).wf(),
            final(self)@ == (SessionView { draft: Some(d@), ..old(self)@ }),
    {
        self.draft = Some(d);
    }

    /// Gives back the draft model's positions of guesses that were never produced.
    pub(crate) fn trim_draft(&mut self)
        requires
            old(self).wf(),
        ensures
            final(self).wf(),
            final(self)@ == (SessionView { draft: old(self)@.draft_kept(), ..old(self)@ }),
    {
        let keep: usize = self.context.len().saturating_sub(1);
        let kept = match self.draft.take() {
            Some(mut d) => match d.truncate(keep) {
                Ok(()) => Some(d),
                Err(_) => {
                    d.purge_spill_files();
                    None
                },
            },
            None => None,
        };
        self.draft = kept;
    }

    /// The context with a draft behind it: one pass over it answers every guess.
    pub fn probe(&self, draft: &[Token]) -> (p: Vec<Token>)
        ensures
            p@ == self@.context + draft@,
    {
        let mut p = slice_to_vec(self.context.as_slice());
        p.extend_from_slice(draft);
        assert(p@ =~= self@.context + draft@);
        p
    }

    /// Takes one answer of a round. The token goes to the context, and to `out` unless
    /// it ends the sequence.
    pub fn settle_answer(
        &mut self,
        verdict: Verdict,
        eos: Token,
        max_tokens: usize,
        out: &mut Vec<Token>,
    ) -> (next: Next)
        requires
            old(self).wf(),
        ensures
            final(self).wf(),
            final(self)@ == old(self)@.answered(verdict),
            next == old(self)@.next(verdict, eos, max_tokens as nat),
            verdict is Failed ==> next == Next::Done(Some(StopReason::ContextFull))
                && final(self)@.context == old(self)@.context,
            verdict matches Verdict::Drawn { kept, token } ==> {
                &&& final(self)@.context == old(self)@.context.push(token)
                &&& token == eos ==> next == Next::Done(Some(StopReason::Eos))
                &&& token != eos && !kept ==> next == Next::Done(None)
                &&& token != eos && kept && final(self)@.context.len() >= final(self)@.prompt_len
                    + max_tokens ==> next == Next::Done(Some(StopReason::Length))
                &&& token != eos && kept && final(self)@.context.len() < final(self)@.prompt_len
                    + max_tokens ==> next == Next::More
            },
            final(out)@ == match verdict {
                Verdict::Drawn { token, .. } => if token == eos {
                    old(out)@
                } else {
                    old(out)@.push(token)
                },
                Verdict::Failed => old(out)@,
            },
    {
        match verdict {
            Verdict::Failed => Next::Done(Some(StopReason::ContextFull)),
            Verdict::Drawn { kept, token } => {
                self.context.push(token);
                if token == eos {
                    return Next::Done(Some(StopReason::Eos));
                }
                out.push(token);
                if !kept {
                    return Next::Done(None);
                }
                if self.generated() >= max_tokens {
                    return Next::Done(Some(StopReason::Length));
                }
                Next::More
            },
        }
    }

    /// Ends a round of `guessed` guesses that put `produced` tokens out: keeps score,
    /// gives back the cache positions of guesses that were never produced, so that
    /// there is one position fewer than there are tokens again, and reports what the
    /// last answer said.
    pub fn close_round(&mut self, stop: Option<StopReason>, guessed: usize, produced: usize) -> (r:
        Result<(), StopReason>)
        requires
            old(self).wf(),
        ensures
            final(self).wf(),
            old(self)@.scored(guessed as nat, produced as nat, stop is Some).closed(
                stop,
                final(self)@,
                r,
            ),
            final(self)@.context == old(self)@.context,
            r is Ok ==> stop is None && final(self)@.finished == old(self)@.finished,
            r is Err ==> final(self)@.finished,
            r matches Err(reason) ==> stop == Some(reason) || reason == StopReason::ContextFull,
            guessed == 0 ==> final(self)@.spec_gain == old(self)@.spec_gain,
            guessed > 0 ==> final(self)@.spec_gain == double::blended(
                old(self)@.spec_gain,
                (6_305_039_478_318_694, -53),
                double::rounded(
                    if stop is Some || produced == 0 {
                        produced as nat
                    } else {
                        (produced - 1) as nat
                    },
                    0,
                ),
                (5_404_319_552_844_595, -54),
            ),
    {
        if guessed > 0 {
            let won: usize = if stop.is_some() {
                produced
            } else {
                produced.saturating_sub(1)
            };
            self.spec_gain = self.spec_gain.blend(
                Double::new(WORTH_IT_PARTS, -53),
                Double::of(won as u64),
                Double::new(NEW_PARTS, -54),
            );
        }
        let keep: usize = self.context.len().saturating_sub(1);
        match self.seq.truncate(keep) {
            Err(_) => {
                self.finished = true;
                return Err(StopReason::ContextFull);
            },
            Ok(()) => {},
        }
        match stop {
            Some(reason) => {
                self.finished = true;
                Err(reason)
            },
            None => Ok(()),
        }
    }
}

/// How many of the first `i` sessions run.
pub open spec fn running_before(stopped: Seq<Option<StopReason>>, i: int) -> nat
    decreases i,
{
    if i <= 0 {
        0
    } else {
        running_before(stopped, i - 1) + if stopped[i - 1] is None {
            1nat
        } else {
            0
        }
    }
}

pub(crate) proof fn running_is_bounded(stopped: Seq<Option<StopReason>>, i: int, n: int)
    requires
        0 <= i <= n,
    ensures
        running_before(stopped, i) <= running_before(stopped, n),
        i < n && stopped[i] is None ==> running_before(stopped, i) < running_before(stopped, n),
        running_before(stopped, n) <= n,
    decreases n,
{
    if i < n {
        running_is_bounded(stopped, i, n - 1);
    } else if n > 0 {
        running_is_bounded(stopped, n - 1, n - 1);
    }
}

/// Decides for several sessions at once who runs another step, and retires the rest
/// before any work: each exactly as [`Session::poll`] would.
pub(crate) fn poll_batch(
    sessions: &mut Vec<Session>,
    params: &[SamplingParams],
    max_context: usize,
) -> (stopped: Vec<Option<StopReason>>)
    requires
        old(sessions)@.len() == params@.len(),
        forall|i: int| 0 <= i < old(sessions)@.len() ==> (#[trigger] old(sessions)@[i]).wf(),
    ensures
        final(sessions)@.len() == old(sessions)@.len(),
        stopped@.len() == old(sessions)@.len(),
        forall|i: int|
            0 <= i < old(sessions)@.len() ==> {
                &&& (#[trigger] final(sessions)@[i]).wf()
                &&& final(sessions)@[i]@ == old(sessions)@[i]@.polled(
                    params@[i].max_tokens as nat,
                    max_context as nat,
                )
                &&& stopped@[i] == old(sessions)@[i]@.due(params@[i].max_tokens as nat, max_context as nat)
            },
{
    let mut stopped: Vec<Option<StopReason>> = Vec::new();
    let n: usize = sessions.len();
    let mut i: usize = 0;
    while i < n
        invariant
            i <= n,
            n == params@.len(),
            n == old(sessions)@.len(),
            sessions@.len() == n,
            stopped@.len() == i,
            forall|j: int| 0 <= j < n ==> (#[trigger] old(sessions)@[j]).wf(),
            forall|j: int|
                0 <= j < i ==> {
                    &&& (#[trigger] sessions@[j]).wf()
                    &&& sessions@[j]@ == old(sessions)@[j]@.polled(
                        params@[j].max_tokens as nat,
                        max_context as nat,
                    )
                    &&& stopped@[j] == old(sessions)@[j]@.due(
                        params@[j].max_tokens as nat,
                        max_context as nat,
                    )
                },
            forall|j: int| i <= j < n ==> #[trigger] sessions@[j] == old(sessions)@[j],
        decreases n - i,
    {
        assert(sessions@[i as int] == old(sessions)@[i as int]);
        let r = sessions[i].poll(params[i].max_tokens, max_context);
        stopped.push(r);
        i += 1;
    }
    stopped
}

/// The sessions that run, in order: only these reach the backend.
pub(crate) fn running(stopped: &[Option<StopReason>]) -> (live: Vec<usize>)
    ensures
        live@.len() == running_before(stopped@, stopped@.len() as int),
        forall|i: int|
            0 <= i < stopped@.len() && #[trigger] stopped@[i] is None ==> running_before(
                stopped@,
                i,
            ) < live@.len() && live@[running_before(stopped@, i) as int] == i,
        forall|k: int|
            0 <= k < live@.len() ==> (#[trigger] live@[k]) < stopped@.len()
                && stopped@[live@[k] as int] is None,
        forall|j: int, k: int|
            0 <= j < k < live@.len() ==> (#[trigger] live@[j]) < (#[trigger] live@[k]),
{
    let mut live: Vec<usize> = Vec::new();
    let mut i: usize = 0;
    while i < stopped.len()
        invariant
            i <= stopped@.len(),
            live@.len() == running_before(stopped@, i as int),
            forall|j: int|
                0 <= j < i && #[trigger] stopped@[j] is None ==> running_before(stopped@, j)
                    < live@.len() && live@[running_before(stopped@, j) as int] == j,
            forall|k: int|
                0 <= k < live@.len() ==> (#[trigger] live@[k]) < i && stopped@[live@[k] as int] is None,
            forall|j: int, k: int|
                0 <= j < k < live@.len() ==> (#[trigger] live@[j]) < (#[trigger] live@[k]),
        decreases stopped@.len() - i,
    {
        if stopped[i].is_none() {
            live.push(i);
        }
        i += 1;
    }
    live
}

/// Why a sequence could not begin.
#[derive(Debug)]
pub enum StartError {
    Sampling(SamplingFault),
    Prompt(GarudaError),
    /// The forward pass over the prompt failed.
    Backend(GarudaError),
}

/// What every sequence shares: the prompt cache, the shape of a fresh sequence, the
/// context window and the next identity.
pub struct InferenceRuntime {
    prompt_cache: PromptCache,
    kv_template: KvConfig,
    max_context: usize,
    next_seq: u64,
    /// The shape of a draft model's sequence, where one guesses ahead.
    draft_template: Option<KvConfig>,
}

#[verifier::ext_equal]
pub struct RuntimeView {
    pub cache: PromptCacheView,
    pub max_context: nat,
    pub next_seq: u64,
    pub draft_template: Option<KvConfig>,
}

impl RuntimeView {
    /// The prompt's prefix is in the prompt cache.
    pub open spec fn hits(self, prompt: Seq<Token>) -> bool {
        prompt.drop_last().len() > 0 && prompt::holds(
            self.cache.entries,
            prompt::key_of(prompt.drop_last()),
        )
    }

    /// `e` says why `prompt` cannot begin a sequence.
    pub open spec fn refuses(self, prompt: Seq<Token>, e: GarudaError) -> bool {
        &&& prompt.len() == 0 || prompt.len() >= self.max_context
        &&& e matches GarudaError::Inference(m) && m@ == if prompt.len() == 0 {
            "prompt is empty"@
        } else {
            window_message("prompt of "@, prompt.len(), self.max_context)
        }
    }

    /// How a sequence for `prompt` begins: with what the prompt cache has of it, else
    /// with nothing.
    pub open spec fn pending(
        self,
        template: KvConfig,
        prompt: Seq<Token>,
        params: SamplingParams,
    ) -> PendingView {
        let id = self.next_seq;
        let prefix = prompt.drop_last();
        PendingView {
            seq: if self.hits(prompt) {
                self.cache.state(prompt::key_of(prefix)).rekeyed(id)
            } else {
                SeqView::fresh(template, id)
            },
            context: prompt,
            consumed: if self.hits(prompt) {
                prefix.len()
            } else {
                0
            },
            seed: match params.seed {
                Some(s) => s,
                None => id,
            },
            cache_on_finish: prefix.len() > 0 && !self.hits(prompt),
        }
    }

    /// The runtime after a sequence for `prompt` began.
    pub open spec fn started(self, prompt: Seq<Token>) -> RuntimeView {
        RuntimeView {
            cache: if self.hits(prompt) {
                self.cache.touched(prompt::key_of(prompt.drop_last()))
            } else if prompt.drop_last().len() > 0 {
                PromptCacheView { misses: self.cache.misses.wrapping_add(1), ..self.cache }
            } else {
                self.cache
            },
            next_seq: self.next_seq.wrapping_add(1),
            ..self
        }
    }

    /// The runtime after a prompt went in: a prefix worth keeping goes to the cache.
    pub open spec fn absorbed(self, p: PendingView) -> RuntimeView {
        RuntimeView {
            cache: if p.cache_on_finish {
                self.cache.inserted(prompt::key_of(p.prefix()), p.seq)
            } else {
                self.cache
            },
            ..self
        }
    }
}

impl View for InferenceRuntime {
    type V = RuntimeView;

    closed spec fn view(&self) -> RuntimeView {
        RuntimeView {
            cache: self.prompt_cache@,
            max_context: self.max_context as nat,
            next_seq: self.next_seq,
            draft_template: self.draft_template,
        }
    }
}

pub open spec fn window_message(what: Seq<char>, n: nat, max_context: nat) -> Seq<char> {
    what + text::decimal(n) + " tokens does not fit the "@ + text::decimal(max_context)
        + "-token context window"@
}

fn window_text(what: &str, n: usize, max_context: usize) -> (m: String)
    ensures
        m@ == window_message(what@, n as nat, max_context as nat),
{
    let mut m = what.to_owned();
    push_size(&mut m, n);
    m.append(" tokens does not fit the ");
    push_size(&mut m, max_context);
    m.append("-token context window");
    m
}

impl InferenceRuntime {
    pub closed spec fn wf(&self) -> bool {
        self.prompt_cache.wf()
    }

    /// The prompt cache that a runtime shows keeps its invariant.
    pub proof fn view_is_wf(&self)
        requires
            self.wf(),
        ensures
            self@.cache.wf(),
    {
        self.prompt_cache.view_is_wf();
    }

    /// What a fresh sequence is made from.
    pub closed spec fn template(&self) -> KvConfig {
        self.kv_template
    }

    pub fn new(
        kv_template: KvConfig,
        prompt_cache_capacity: usize,
        prompt_cache_bytes: usize,
    ) -> (r: Self)
        ensures
            r.wf(),
            r.template() == kv_template,
            r@ == (RuntimeView {
                cache: PromptCacheView {
                    entries: Seq::empty(),
                    capacity: kv::at_least_one(prompt_cache_capacity as nat),
                    budget: prompt_cache_bytes as nat,
                    hits: 0,
                    misses: 0,
                },
                max_context: kv_template.max_positions as nat,
                next_seq: 1,
                draft_template: None,
            }),
    {
        let max_context: usize = kv_template.max_positions;
        InferenceRuntime {
            prompt_cache: PromptCache::new(prompt_cache_capacity, prompt_cache_bytes),
            kv_template,
            max_context,
            next_seq: 1,
            draft_template: None,
        }
    }

    /// Lets a draft model guess ahead, whose sequences are shaped like `kv`. They never
    /// spill: they are small and short-lived, and spilling them would cost more than it
    /// saves.
    pub fn with_drafter(self, kv: KvConfig) -> (r: Self)
        requires
            self.wf(),
        ensures
            r.wf(),
            r.template() == self.template(),
            r@ == (RuntimeView {
                draft_template: Some(KvConfig { storage: None, ..kv }),
                ..self@
            }),
    {
        InferenceRuntime { draft_template: Some(KvConfig { storage: None, ..kv }), ..self }
    }

    pub fn has_drafter(&self) -> (b: bool)
        ensures
            b == self@.draft_template is Some,
    {
        self.draft_template.is_some()
    }

    /// A draft model's sequence that has read nothing.
    pub(crate) fn draft_sequence(&self) -> (s: Option<SeqState>)
        ensures
            match s {
                Some(s) => {
                    &&& s.wf()
                    &&& self@.draft_template matches Some(kv) && s@ == SeqView::fresh(kv, 0)
                },
                None => self@.draft_template is None,
            },
    {
        match &self.draft_template {
            Some(kv) => Some(SeqState::new(kv, 0)),
            None => None,
        }
    }

    pub fn max_context(&self) -> (n: usize)
        ensures
            n == self@.max_context,
    {
        self.max_context
    }

    pub fn prompt_cache_stats(&self) -> (s: CacheStats)
        requires
            self.wf(),
        ensures
            s.hits == self@.cache.hits,
            s.misses == self@.cache.misses,
            s.evictions == 0,
            s.entries == self@.cache.entries.len(),
            s.bytes == prompt::total_bytes(self@.cache.entries),
    {
        self.prompt_cache.stats()
    }

    fn fresh_seq_id(&mut self) -> (id: u64)
        requires
            old(self).wf(),
        ensures
            final(self).wf(),
            id == old(self)@.next_seq,
            final(self).template() == old(self).template(),
            final(self)@ == (RuntimeView {
                next_seq: old(self)@.next_seq.wrapping_add(1),
                ..old(self)@
            }),
    {
        let id: u64 = self.next_seq;
        self.next_seq = self.next_seq.wrapping_add(1);
        id
    }

    /// Begins a sequence without absorbing the prompt yet.
    ///
    /// The prefix, everything but the last token, is what gets cached: the last token
    /// is always run fresh, because that is the step that produces the logits for the
    /// first sampled token. A hit arrives with the whole prefix already in it.
    pub fn start_incremental(&mut self, prompt: &[Token], params: &SamplingParams) -> (r: Result<
        Pending,
        StartError,
    >)
        requires
            old(self).wf(),
        ensures
            final(self).wf(),
            final(self).template() == old(self).template(),
            match r {
                Err(StartError::Sampling(f)) => params.fault() == Some(f) && final(self)@ == old(
                    self,
                )@,
                Err(StartError::Prompt(e)) => {
                    &&& params.fault() is None
                    &&& final(self)@ == old(self)@
                    &&& old(self)@.refuses(prompt@, e)
                },
                Err(StartError::Backend(_)) => false,
                Ok(p) => {
                    &&& params.fault() is None
                    &&& 0 < prompt@.len() < old(self)@.max_context
                    &&& p.wf()
                    &&& p@ == old(self)@.pending(old(self).template(), prompt@, *params)
                    &&& final(self)@ == old(self)@.started(prompt@)
                },
            },
            r is Ok <==> params.fault() is None && 0 < prompt@.len() < old(self)@.max_context,
            r matches Ok(p) ==> {
                let known = prompt@.len() > 1 && prompt::holds(
                    old(self)@.cache.entries,
                    prompt::key_of(prompt@.drop_last()),
                );
                &&& p@.context == prompt@
                &&& p@.seed == match params.seed {
                    Some(s) => s,
                    None => old(self)@.next_seq,
                }
                &&& known ==> p@.consumed + 1 == prompt@.len() && p@.seq == old(
                    self,
                )@.cache.state(prompt::key_of(prompt@.drop_last())).rekeyed(old(self)@.next_seq)
                &&& !known ==> p@.consumed == 0 && p@.seq == SeqView::fresh(
                    old(self).template(),
                    old(self)@.next_seq,
                )
                &&& p@.cache_on_finish <==> prompt@.len() > 1 && !known
                &&& final(self)@.next_seq == old(self)@.next_seq.wrapping_add(1)
            },
    {
        match params.validate() {
            Err(f) => {
                return Err(StartError::Sampling(f));
            },
            Ok(()) => {},
        }
        if prompt.len() == 0 {
            return Err(StartError::Prompt(GarudaError::Inference("prompt is empty".to_owned())));
        }
        if prompt.len() >= self.max_context {
            return Err(
                StartError::Prompt(
                    GarudaError::Inference(
                        window_text("prompt of ", prompt.len(), self.max_context),
                    ),
                ),
            );
        }
        let seq_id: u64 = self.fresh_seq_id();
        let prefix = slice_subrange(prompt, 0, prompt.len() - 1);
        assert(prefix@ =~= prompt@.drop_last());
        let context = slice_to_vec(prompt);
        let seed: u64 = match params.seed {
            Some(s) => s,
            None => seq_id,
        };
        if prefix.len() == 0 {
            let seq = SeqState::new(&self.kv_template, seq_id);
            return Ok(Pending { seq, context, consumed: 0, seed, cache_on_finish: false });
        }
        match self.prompt_cache.get(prefix, seq_id) {
            Some(cached) => Ok(
                Pending {
                    seq: cached,
                    context,
                    consumed: prefix.len(),
                    seed,
                    cache_on_finish: false,
                },
            ),
            None => {
                let seq = SeqState::new(&self.kv_template, seq_id);
                Ok(Pending { seq, context, consumed: 0, seed, cache_on_finish: true })
            },
        }
    }

    /// Takes note that the prompt went in up to `target`, which
    /// [`Pending::prefill_target`] gave. True once it is all in; the finished prefix
    /// then goes to the prompt cache, if it is worth it.
    pub(crate) fn note_prefill(&mut self, pending: &mut Pending, target: usize) -> (done: bool)
        requires
            old(self).wf(),
            old(pending).wf(),
            old(pending)@.consumed <= target <= old(pending)@.prefix().len(),
        ensures
            final(self).wf(),
            final(self).template() == old(self).template(),
            final(pending).wf(),
            final(pending)@ == (PendingView { consumed: target as nat, ..old(pending)@ }),
            done == (target == old(pending)@.prefix().len()),
            final(self)@ == if done {
                old(self)@.absorbed(old(pending)@)
            } else {
                old(self)@
            },
    {
        let prefix_len: usize = pending.context.len() - 1;
        pending.consumed = target;
        let done: bool = target >= prefix_len;
        if done && pending.cache_on_finish && !pending.seq.has_spill() {
            let prefix = slice_subrange(pending.context.as_slice(), 0, prefix_len);
            assert(prefix@ =~= pending@.prefix());
            self.prompt_cache.insert(prefix, pending.seq.clone());
        }
        done
    }

    /// Turns a fully absorbed prompt into the session that decodes from it. It starts
    /// optimistic about guessing: one round is cheap to try.
    pub fn finish_prefill(pending: Pending) -> (s: Session)
        requires
            pending.wf(),
        ensures
            s.wf(),
            pending@.begins(s@),
            s@.context == pending@.context,
            s@.seq == pending@.seq,
            s@.prompt_len == pending@.context.len(),
            !s@.finished,
            s@.draft is None,
            s@.rng.state() == pending@.seed ^ 0x9E37_79B9_7F4A_7C15,
            s@.spec_gain == double::rounded(1, 0) && s@.spec_idle == 0,
    {
        let prompt_len: usize = pending.context.len();
        Session {
            seq: pending.seq,
            prompt_len,
            context: pending.context,
            rng: Rng::new(pending.seed),
            finished: false,
            spec_gain: Double::of(1),
            spec_idle: 0,
            draft: None,
        }
    }

    /// A fresh sequence to embed `tokens` with, if they can be embedded.
    pub(crate) fn embedding_sequence(&mut self, tokens: &[Token]) -> (r: Result<
        SeqState,
        GarudaError,
    >)
        requires
            old(self).wf(),
        ensures
            final(self).wf(),
            final(self).template() == old(self).template(),
            r is Ok <==> 0 < tokens@.len() <= old(self)@.max_context,
            match r {
                Ok(s) => s.wf() && s@ == SeqView::fresh(old(self).template(), old(self)@.next_seq)
                    && final(self)@ == (RuntimeView {
                    next_seq: old(self)@.next_seq.wrapping_add(1),
                    ..old(self)@
                }),
                Err(e) => final(self)@ == old(self)@ && (e matches GarudaError::Inference(m) && m@
                    == if tokens@.len() == 0 {
                    "cannot embed an empty input"@
                } else {
                    window_message("input of "@, tokens@.len(), old(self)@.max_context)
                }),
            },
    {
        if tokens.len() == 0 {
            return Err(GarudaError::Inference("cannot embed an empty input".to_owned()));
        }
        if tokens.len() > self.max_context {
            return Err(
                GarudaError::Inference(window_text("input of ", tokens.len(), self.max_context)),
            );
        }
        let id: u64 = self.fresh_seq_id();
        Ok(SeqState::new(&self.kv_template, id))
    }
}

} // verus!
