//! The control flow of a forward pass: what is checked before anything is touched, how
//! the new tokens are cut into chunks, and which tokens an expert owes an answer to.

use crate::cache::kv;
use crate::text;
use crate::text::push_size;
use crate::types::{Fault, GarudaError, Token};
use vstd::prelude::*;
use vstd::slice::{slice_subrange, slice_to_vec};
use vstd::string::*;

verus! {

/// What a pass goes by: the model's side.
#[derive(Debug, Clone, Copy, PartialEq, Eq)]
pub struct ModelSide {
    pub n_layers: usize,
    pub vocab: usize,
    /// Prompt tokens that share one pass over a layer's weights.
    pub chunk: usize,
    /// The layers of a sequence are called key/value layers in messages.
    pub kv_layers: bool,
}

/// What a pass goes by: the sequence's side.
#[derive(Debug, Clone, Copy, PartialEq, Eq)]
pub struct SequenceSide {
    pub len: usize,
    pub n_layers: usize,
    pub max_positions: usize,
}

pub open spec fn layers_message(model: ModelSide, seq: SequenceSide) -> Seq<char> {
    "sequence has "@ + text::decimal(seq.n_layers as nat) + (if model.kv_layers {
        " kv layers but the model has "@
    } else {
        " layers but the model has "@
    }) + text::decimal(model.n_layers as nat)
}

pub open spec fn overflow_message(new: nat, capacity: nat, used: nat) -> Seq<char> {
    text::decimal(new) + " tokens do not fit the "@ + text::decimal(capacity)
        + "-position context window ("@ + text::decimal(used) + " used)"@
}

/// Why a pass cannot start, if so. Nothing has been touched then.
pub open spec fn start_fault(context: Seq<Token>, seq: SequenceSide, model: ModelSide) -> Option<
    Fault,
> {
    if context.len() == 0 {
        Some(Fault::Inference("empty context"@))
    } else if seq.n_layers != model.n_layers {
        Some(Fault::Inference(layers_message(model, seq)))
    } else if seq.len > context.len() {
        Some(Fault::Inference("sequence state is ahead of the context"@))
    } else if seq.len == context.len() {
        Some(Fault::Inference("no new tokens to process for this context"@))
    } else if context.len() > seq.max_positions {
        Some(
            Fault::Cache(
                overflow_message(
                    (context.len() - seq.len) as nat,
                    seq.max_positions as nat,
                    seq.len as nat,
                ),
            ),
        )
    } else {
        None
    }
}

/// One pass over the tokens of a context that a sequence has not seen.
#[derive(Debug)]
pub struct Pass {
    /// The new tokens.
    tokens: Vec<Token>,
    /// How many of them have been handed out.
    at: usize,
    chunk: usize,
    vocab: usize,
    n_last: usize,
}

/// Where the chunk that starts at `at` ends.
pub open spec fn chunk_end(n: nat, at: nat, chunk: nat) -> nat {
    if at + chunk < n {
        at + chunk
    } else {
        n
    }
}

/// The first token outside the vocabulary.
pub open spec fn stray(tokens: Seq<Token>, vocab: nat) -> Option<Token>
    decreases tokens.len(),
{
    if tokens.len() == 0 {
        None
    } else if stray(tokens.drop_last(), vocab) is Some {
        stray(tokens.drop_last(), vocab)
    } else if tokens.last() >= vocab {
        Some(tokens.last())
    } else {
        None
    }
}

impl Pass {
    pub closed spec fn new_tokens(&self) -> Seq<Token> {
        self.tokens@
    }

    pub closed spec fn done(&self) -> nat {
        self.at as nat
    }

    pub closed spec fn step(&self) -> nat {
        self.chunk as nat
    }

    pub closed spec fn vocab(&self) -> nat {
        self.vocab as nat
    }

    pub closed spec fn wanted(&self) -> nat {
        self.n_last as nat
    }

    pub open spec fn wf(&self) -> bool {
        self.step() >= 1 && self.done() <= self.new_tokens().len()
    }

    /// Starts a pass that is asked for the hidden states of the last `n_last`
    /// positions, or refuses before touching anything.
    pub fn begin(context: &[Token], seq: SequenceSide, model: ModelSide, n_last: usize) -> (r:
        Result<Self, GarudaError>)
        ensures
            match r {
                Ok(p) => {
                    &&& start_fault(context@, seq, model) is None
                    &&& p.wf()
                    &&& p.new_tokens() == context@.skip(seq.len as int)
                    &&& p.done() == 0
                    &&& p.step() == kv::at_least_one(model.chunk as nat)
                    &&& p.vocab() == model.vocab
                    &&& p.wanted() == n_last
                },
                Err(e) => start_fault(context@, seq, model) matches Some(f) && f.is(e),
            },
            r is Ok <==> seq.n_layers == model.n_layers && seq.len < context@.len()
                <= seq.max_positions,
            r matches Ok(p) ==> p.step() == if model.chunk == 0 {
                1
            } else {
                model.chunk as nat
            },
    {
        if context.len() == 0 {
            return Err(GarudaError::Inference("empty context".to_owned()));
        }
        if seq.n_layers != model.n_layers {
            let mut m = "sequence has ".to_owned();
            push_size(&mut m, seq.n_layers);
            if model.kv_layers {
                m.append(" kv layers but the model has ");
            } else {
                m.append(" layers but the model has ");
            }
            push_size(&mut m, model.n_layers);
            return Err(GarudaError::Inference(m));
        }
        if seq.len > context.len() {
            return Err(GarudaError::Inference("sequence state is ahead of the context".to_owned()));
        }
        let n: usize = context.len() - seq.len;
        if n == 0 {
            return Err(
                GarudaError::Inference("no new tokens to process for this context".to_owned()),
            );
        }
        if context.len() > seq.max_positions {
            let mut m = "".to_owned();
            push_size(&mut m, n);
            m.append(" tokens do not fit the ");
            push_size(&mut m, seq.max_positions);
            m.append("-position context window (");
            push_size(&mut m, seq.len);
            m.append(" used)");
            proof {
                reveal_strlit("");
                assert(m@ =~= overflow_message(
                    n as nat,
                    seq.max_positions as nat,
                    seq.len as nat,
                ));
            }
            return Err(GarudaError::Cache(m));
        }
        let tokens = slice_to_vec(slice_subrange(context, seq.len, context.len()));
        assert(tokens@ =~= context@.skip(seq.len as int));
        Ok(
            Pass {
                tokens,
                at: 0,
                chunk: if model.chunk == 0 {
                    1
                } else {
                    model.chunk
                },
                vocab: model.vocab,
                n_last,
            },
        )
    }

    /// The chunk to drive through the layers next, or nothing when all are through.
    ///
    /// A chunk with a token outside the vocabulary is refused before any layer has run
    /// for it.
    pub fn next_chunk(&mut self) -> (r: Result<Option<Vec<Token>>, GarudaError>)
        requires
            old(self).wf(),
        ensures
            final(self).wf(),
            final(self).new_tokens() == old(self).new_tokens(),
            final(self).step() == old(self).step(),
            final(self).vocab() == old(self).vocab(),
            final(self).wanted() == old(self).wanted(),
            r matches Ok(Some(c)) ==> {
                &&& c@.len() <= old(self).step()
                &&& final(self).done() == old(self).done() + c@.len()
                &&& c@.len() == old(self).step() || final(self).done() == old(self).new_tokens().len()
                &&& forall|i: int|
                    0 <= i < c@.len() ==> #[trigger] c@[i] == old(self).new_tokens()[old(self).done()
                        + i]
            },
            ({
                let all = old(self).new_tokens();
                let end = chunk_end(all.len(), old(self).done(), old(self).step());
                let chunk = all.subrange(old(self).done() as int, end as int);
                match r {
                    Ok(None) => old(self).done() == all.len() && *final(self) == *old(self),
                    Ok(Some(c)) => {
                        &&& old(self).done() < all.len()
                        &&& c@ == chunk
                        &&& c@.len() > 0
                        &&& stray(chunk, old(self).vocab()) is None
                        &&& final(self).done() == end
                    },
                    Err(e) => {
                        &&& old(self).done() < all.len()
                        &&& stray(chunk, old(self).vocab()) matches Some(t)
                            && Fault::InvalidToken(t).is(e)
                        &&& *final(self) == *old(self)
                    },
                }
            }),
    {
        if self.at >= self.tokens.len() {
            return Ok(None);
        }
        let end: usize = if self.chunk < self.tokens.len() - self.at {
            self.at + self.chunk
        } else {
            self.tokens.len()
        };
        let chunk = slice_to_vec(slice_subrange(self.tokens.as_slice(), self.at, end));
        let mut i: usize = 0;
        assert(chunk@.take(0) =~= Seq::<Token>::empty());
        while i < chunk.len()
            invariant
                i <= chunk@.len(),
                stray(chunk@.take(i as int), self.vocab as nat) is None,
                *self == *old(self),
                self.at < self.tokens@.len(),
                chunk@ == self.tokens@.subrange(self.at as int, end as int),
                end == chunk_end(self.tokens@.len(), self.at as nat, self.chunk as nat),
            decreases chunk@.len() - i,
        {
            assert(chunk@.take(i + 1).drop_last() =~= chunk@.take(i as int));
            if chunk[i] as u64 >= self.vocab as u64 {
                proof {
                    early_stray_stays(chunk@, (i + 1) as nat, self.vocab as nat);
                }
                return Err(GarudaError::InvalidToken(chunk[i]));
            }
            i += 1;
        }
        assert(chunk@.take(chunk@.len() as int) =~= chunk@);
        self.at = end;
        Ok(Some(chunk))
    }

    /// How many hidden states of the last positions there are to hand out, once every
    /// chunk is through.
    pub open spec fn tail_fault(&self) -> Option<Fault> {
        if self.wanted() > self.new_tokens().len() {
            Some(
                Fault::Inference(
                    "asked for the last "@ + text::decimal(self.wanted())
                        + " positions but only "@ + text::decimal(self.new_tokens().len())
                        + " were computed in this pass"@,
                ),
            )
        } else {
            None
        }
    }

    /// Checks at the end of a pass that it computed as many positions as were asked for.
    pub fn finish(&self) -> (r: Result<usize, GarudaError>)
        requires
            self.wf(),
            self.done() == self.new_tokens().len(),
        ensures
            match r {
                Ok(n) => self.tail_fault() is None && n == self.wanted(),
                Err(e) => self.tail_fault() matches Some(f) && f.is(e),
            },
            r is Ok <==> self.wanted() <= self.new_tokens().len(),
    {
        if self.n_last > self.tokens.len() {
            let mut m = "asked for the last ".to_owned();
            push_size(&mut m, self.n_last);
            m.append(" positions but only ");
            push_size(&mut m, self.tokens.len());
            m.append(" were computed in this pass");
            return Err(GarudaError::Inference(m));
        }
        Ok(self.n_last)
    }
}

proof fn early_stray_stays(tokens: Seq<Token>, k: nat, vocab: nat)
    requires
        k <= tokens.len(),
        stray(tokens.take(k as int), vocab) is Some,
    ensures
        stray(tokens, vocab) == stray(tokens.take(k as int), vocab),
    decreases tokens.len(),
{
    if k == tokens.len() {
        assert(tokens.take(k as int) =~= tokens);
    } else {
        assert(tokens.drop_last().take(k as int) =~= tokens.take(k as int));
        early_stray_stays(tokens.drop_last(), k, vocab);
    }
}

/// The chunks that a pass hands out, from `at` on.
pub open spec fn chunks(tokens: Seq<Token>, at: nat, chunk: nat) -> Seq<Seq<Token>>
    decreases tokens.len() - at,
{
    if at >= tokens.len() || chunk == 0 {
        Seq::empty()
    } else {
        let end = chunk_end(tokens.len(), at, chunk);
        seq![tokens.subrange(at as int, end as int)] + chunks(tokens, end, chunk)
    }
}

/// Whatever the chunk size, the chunks put together are the new tokens: each goes
/// through every layer exactly once, in order.
pub proof fn chunks_cover_the_new_tokens(tokens: Seq<Token>, at: nat, chunk: nat)
    requires
        at <= tokens.len(),
        chunk >= 1,
    ensures
        chunks(tokens, at, chunk).flatten() == tokens.skip(at as int),
    decreases tokens.len() - at,
{
    if at == tokens.len() {
        assert(chunks(tokens, at, chunk) =~= Seq::<Seq<Token>>::empty());
        assert(tokens.skip(at as int) =~= Seq::<Token>::empty());
    } else {
        let end = chunk_end(tokens.len(), at, chunk);
        let head = tokens.subrange(at as int, end as int);
        let rest = chunks(tokens, end, chunk);
        chunks_cover_the_new_tokens(tokens, end, chunk);
        let whole = seq![head] + rest;
        assert(whole.drop_first() =~= rest);
        assert(whole.first() == head);
        assert(whole.flatten() =~= head + rest.flatten());
        assert(head + tokens.skip(end as int) =~= tokens.skip(at as int));
    }
}

/// How a step over several sequences runs.
#[derive(Debug)]
pub enum BatchPlan {
    /// One call for each sequence.
    OneByOne,
    /// One pass over the weights for all, with one new token each.
    Together(Vec<Token>),
}

/// The token that a pass refuses is the first that the vocabulary lacks, and it refuses none
/// where there is no such token.
pub proof fn the_first_stray_token_is_refused(tokens: Seq<Token>, vocab: nat)
    ensures
        stray(tokens, vocab) is None <==> forall|i: int|
            0 <= i < tokens.len() ==> (#[trigger] tokens[i]) < vocab,
        stray(tokens, vocab) matches Some(t) ==> exists|i: int|
            0 <= i < tokens.len() && (#[trigger] tokens[i]) == t && t >= vocab && forall|j: int|
                0 <= j < i ==> (#[trigger] tokens[j]) < vocab,
    decreases tokens.len(),
{
    if tokens.len() > 0 {
        let init = tokens.drop_last();
        the_first_stray_token_is_refused(init, vocab);
        if let Some(t) = stray(init, vocab) {
            let i = choose|i: int|
                0 <= i < init.len() && (#[trigger] init[i]) == t && t >= vocab && forall|j: int|
                    0 <= j < i ==> (#[trigger] init[j]) < vocab;
            assert(tokens[i] == t);
            assert forall|j: int| 0 <= j < i implies (#[trigger] tokens[j]) < vocab by {
                assert(init[j] < vocab);
            }
        } else {
            assert forall|j: int| 0 <= j < init.len() implies (#[trigger] tokens[j]) < vocab by {
                assert(init[j] < vocab);
            }
            assert(tokens[tokens.len() - 1] == tokens.last());
        }
    }
}

/// A batch is refused for the first of its sequences that cannot take a step: one whose new
/// token the vocabulary lacks, or whose context is full.
pub proof fn the_first_sequence_that_cannot_step_is_refused(
    contexts: Seq<Seq<Token>>,
    seqs: Seq<SequenceSide>,
    vocab: usize,
    n: nat,
    i: int,
)
    requires
        0 <= i < n,
    ensures
        contexts[i].last() >= vocab || seqs[i].len >= seqs[i].max_positions ==> batch_fault(
            contexts,
            seqs,
            vocab,
            n,
        ) is Some,
        (forall|k: int|
            0 <= k < n ==> (#[trigger] contexts[k]).last() < vocab && seqs[k].len
                < seqs[k].max_positions) ==> batch_fault(contexts, seqs, vocab, n) is None,
        (forall|k: int|
            0 <= k < i ==> (#[trigger] contexts[k]).last() < vocab && seqs[k].len
                < seqs[k].max_positions) && contexts[i].last() >= vocab ==> batch_fault(
            contexts,
            seqs,
            vocab,
            n,
        ) == Some(Fault::InvalidToken(contexts[i].last())),
    decreases n,
{
    if i < n - 1 {
        the_first_sequence_that_cannot_step_is_refused(contexts, seqs, vocab, (n - 1) as nat, i);
        assert(contexts[n - 1].last() == contexts[n - 1].last());
    } else {
        if n > 1 {
            the_first_sequence_that_cannot_step_is_refused(
                contexts,
                seqs,
                vocab,
                (n - 1) as nat,
                0,
            );
        } else {
            assert(batch_fault(contexts, seqs, vocab, 0) is None);
        }
        assert(contexts[i].last() == contexts[i].last());
    }
}

/// Every sequence contributes exactly one new token: the shape a decode step has.
pub open spec fn one_step_each(contexts: Seq<Seq<Token>>, seqs: Seq<SequenceSide>, layers: usize) -> bool {
    &&& contexts.len() > 1
    &&& forall|i: int|
        0 <= i < contexts.len() ==> (#[trigger] contexts[i]).len() == seqs[i].len + 1
            && seqs[i].n_layers == layers
}

/// Why a sequence cannot take one more token, if so.
pub open spec fn step_fault(context: Seq<Token>, seq: SequenceSide, vocab: usize) -> Option<Fault> {
    if context.last() >= vocab {
        Some(Fault::InvalidToken(context.last()))
    } else if seq.len >= seq.max_positions {
        Some(Fault::Cache(kv::exhausted_message(seq.max_positions as nat)))
    } else {
        None
    }
}

/// The first fault among the first `n` sequences.
pub open spec fn batch_fault(
    contexts: Seq<Seq<Token>>,
    seqs: Seq<SequenceSide>,
    vocab: usize,
    n: nat,
) -> Option<Fault>
    decreases n,
{
    if n == 0 {
        None
    } else if batch_fault(contexts, seqs, vocab, (n - 1) as nat) is Some {
        batch_fault(contexts, seqs, vocab, (n - 1) as nat)
    } else {
        step_fault(contexts[n - 1], seqs[n - 1], vocab)
    }
}

proof fn early_batch_fault(
    contexts: Seq<Seq<Token>>,
    seqs: Seq<SequenceSide>,
    vocab: usize,
    a: nat,
    b: nat,
)
    requires
        a <= b,
        batch_fault(contexts, seqs, vocab, a) is Some,
    ensures
        batch_fault(contexts, seqs, vocab, b) == batch_fault(contexts, seqs, vocab, a),
    decreases b,
{
    if a < b {
        early_batch_fault(contexts, seqs, vocab, a, (b - 1) as nat);
    }
}

pub open spec fn views(contexts: Seq<Vec<Token>>) -> Seq<Seq<Token>> {
    contexts.map_values(|c: Vec<Token>| c@)
}

/// Decides how a step over several sequences runs. A batch is rejected before any
/// state is touched, so that it cannot be left half-advanced.
pub fn plan_batch(contexts: &[Vec<Token>], seqs: &[SequenceSide], model: ModelSide) -> (r: Result<
    BatchPlan,
    GarudaError,
>)
    ensures
        ({
            let cs = views(contexts@);
            if cs.len() != seqs@.len() {
                r matches Err(e) && Fault::Inference(
                    "logits_batch got "@ + text::decimal(cs.len()) + " contexts for "@
                        + text::decimal(seqs@.len()) + " sequences"@,
                ).is(e)
            } else if !one_step_each(cs, seqs@, model.n_layers) {
                r matches Ok(BatchPlan::OneByOne)
            } else {
                match batch_fault(cs, seqs@, model.vocab, cs.len()) {
                    Some(f) => r matches Err(e) && f.is(e),
                    None => r matches Ok(BatchPlan::Together(tokens)) && tokens@ == Seq::new(
                        cs.len(),
                        |i: int| cs[i].last(),
                    ),
                }
            }
        }),
{
    let ghost cs = views(contexts@);
    if contexts.len() != seqs.len() {
        let mut m = "logits_batch got ".to_owned();
        push_size(&mut m, contexts.len());
        m.append(" contexts for ");
        push_size(&mut m, seqs.len());
        m.append(" sequences");
        return Err(GarudaError::Inference(m));
    }
    if contexts.len() <= 1 {
        return Ok(BatchPlan::OneByOne);
    }
    let mut i: usize = 0;
    while i < contexts.len()
        invariant
            i <= contexts@.len() == seqs@.len(),
            cs == views(contexts@),
            forall|k: int|
                0 <= k < i ==> (#[trigger] cs[k]).len() == seqs@[k].len + 1 && seqs@[k].n_layers
                    == model.n_layers,
        decreases contexts@.len() - i,
    {
        assert(cs[i as int] == contexts@[i as int]@);
        if contexts[i].len() == 0 || contexts[i].len() - 1 != seqs[i].len || seqs[i].n_layers
            != model.n_layers {
            assert(!one_step_each(cs, seqs@, model.n_layers));
            return Ok(BatchPlan::OneByOne);
        }
        assert forall|k: int| 0 <= k < i + 1 implies (#[trigger] cs[k]).len() == seqs@[k].len + 1
            && seqs@[k].n_layers == model.n_layers by {
            if k == i {
                assert(cs[k].len() == contexts@[k]@.len());
            }
        }
        i += 1;
    }
    assert(one_step_each(cs, seqs@, model.n_layers));
    let mut tokens: Vec<Token> = Vec::new();
    let mut j: usize = 0;
    while j < contexts.len()
        invariant
            j <= contexts@.len() == seqs@.len(),
            cs == views(contexts@),
            one_step_each(cs, seqs@, model.n_layers),
            batch_fault(cs, seqs@, model.vocab, j as nat) is None,
            tokens@.len() == j,
            forall|k: int| 0 <= k < j ==> #[trigger] tokens@[k] == cs[k].last(),
        decreases contexts@.len() - j,
    {
        assert(cs[j as int] == contexts@[j as int]@);
        let token: Token = contexts[j][contexts[j].len() - 1];
        if token as u64 >= model.vocab as u64 {
            proof {
                early_batch_fault(cs, seqs@, model.vocab, (j + 1) as nat, cs.len());
            }
            return Err(GarudaError::InvalidToken(token));
        }
        if seqs[j].len >= seqs[j].max_positions {
            let mut m = "context window of ".to_owned();
            push_size(&mut m, seqs[j].max_positions);
            m.append(" positions is exhausted");
            proof {
                early_batch_fault(cs, seqs@, model.vocab, (j + 1) as nat, cs.len());
            }
            return Err(GarudaError::Cache(m));
        }
        tokens.push(token);
        j += 1;
    }
    assert(tokens@ =~= Seq::new(cs.len(), |i: int| cs[i].last()));
    Ok(BatchPlan::Together(tokens))
}

} // verus!
