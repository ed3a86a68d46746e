//! What decoding on a backend promises as a whole.

use crate::backend;
use crate::backend::{InferenceBackend, Sampler};
use crate::cache::kv::KvConfig;
use crate::cache::prompt;
use crate::cache::prompt::{PromptCacheView, PromptView};
use crate::cache::sequence::SeqView;
use crate::decode;
use crate::decode::{Ends, Round};
use crate::runtime;
use crate::runtime::{Next, PendingView, RuntimeView, SessionView, StopReason, Verdict};
use crate::runtime_laws;
use crate::sampling;
use crate::sampling::{Rng, SamplingParams};
use crate::types::{GarudaError, Token};
use vstd::prelude::*;

verus! {

/// The model as greedy decoding sees it where attention reaches `window` positions back:
/// what it continues a context with.
pub open spec fn greedy_model<B: InferenceBackend>(
    b: &B,
    window: Option<usize>,
    ends: Ends,
) -> spec_fn(Seq<Token>) -> Token {
    |context: Seq<Token>| decode::greedy_token(b.answers(window, context), ends).unwrap()
}

/// Plain steps add up.
pub proof fn plain_steps_add_up(
    m: spec_fn(Seq<Token>) -> Token,
    context: Seq<Token>,
    a: nat,
    b: nat,
)
    ensures
        runtime_laws::plain(m, runtime_laws::plain(m, context, a), b) == runtime_laws::plain(
            m,
            context,
            a + b,
        ),
    decreases b,
{
    if b > 0 {
        plain_steps_add_up(m, context, a, (b - 1) as nat);
    }
}

/// The session after the first `i` answers of a round.
spec fn midway(v: SessionView, verdicts: Seq<Verdict>, i: int) -> SessionView {
    SessionView { context: decode::with_tokens(v.context, verdicts.take(i)), ..v }
}

/// The answers of a round from `i` on are a greedy round of the model.
proof fn answers_make_a_greedy_round<B: InferenceBackend>(
    b: &B,
    window: Option<usize>,
    v: SessionView,
    round: Round,
    ends: Ends,
    max_tokens: nat,
    i: nat,
)
    requires
        decode::is_greedy_round(b, window, v.context, ends, round),
        round.is_complete(v, ends.eos, max_tokens),
        forall|k: int| 0 <= k < round.verdicts.len() ==> #[trigger] round.verdicts[k] is Drawn,
        i < round.verdicts.len(),
    ensures
        runtime_laws::greedy_round(
            midway(v, round.verdicts, i as int),
            greedy_model(b, window, ends),
            v.context,
            round.draft,
            i,
            ends.eos,
            max_tokens,
        ) == (
            midway(v, round.verdicts, round.verdicts.len() as int),
            round.stop(v, ends.eos, max_tokens),
        ),
    decreases round.verdicts.len() - i,
{
    let m = greedy_model(b, window, ends);
    let verdicts = round.verdicts;
    let verdict = runtime_laws::greedy_verdict(m, v.context, round.draft, i);
    let at = midway(v, verdicts, i as int);
    assert(verdicts[i as int] is Drawn);
    assert(verdicts[i as int] == verdict);
    assert(verdicts.take(i as int + 1).drop_last() =~= verdicts.take(i as int));
    assert(at.answered(verdict) == midway(v, verdicts, i as int + 1));
    let next = decode::next_at(v, verdicts, i as int, ends.eos, max_tokens);
    assert(next == at.next(verdict, ends.eos, max_tokens));
    if i + 1 < verdicts.len() {
        assert(next == Next::More);
        answers_make_a_greedy_round(b, window, v, round, ends, max_tokens, i + 1);
    }
}

/// Where no answer but the last ends the sequence, what a round hands out is what it
/// adds to the context, but for a token that ends the sequence.
proof fn handed_out_is_what_was_added(
    v: SessionView,
    verdicts: Seq<Verdict>,
    out: Seq<Token>,
    eos: Token,
    max_tokens: nat,
    n: int,
)
    requires
        0 <= n < verdicts.len(),
        forall|i: int|
            0 <= i < verdicts.len() - 1 ==> #[trigger] decode::next_at(
                v,
                verdicts,
                i,
                eos,
                max_tokens,
            ) == Next::More,
    ensures
        ({
            let added = decode::with_tokens(v.context, verdicts.take(n)).skip(
                v.context.len() as int,
            );
            &&& decode::with_tokens(v.context, verdicts.take(n)) == v.context + added
            &&& decode::handed_out(out, verdicts.take(n), eos) == out + added
        }),
    decreases n,
{
    if n == 0 {
        assert(v.context.skip(v.context.len() as int) =~= Seq::<Token>::empty());
        assert(v.context =~= v.context + Seq::<Token>::empty());
        assert(out =~= out + Seq::<Token>::empty());
    } else {
        handed_out_is_what_was_added(v, verdicts, out, eos, max_tokens, n - 1);
        assert(decode::next_at(v, verdicts, n - 1, eos, max_tokens) == Next::More);
        assert(verdicts.take(n).drop_last() =~= verdicts.take(n - 1));
        let before = decode::with_tokens(v.context, verdicts.take(n - 1));
        let after = decode::with_tokens(v.context, verdicts.take(n));
        let added = before.skip(v.context.len() as int);
        let token = after.last();
        assert(after == before.push(token));
        assert(after.skip(v.context.len() as int) =~= added.push(token));
        assert(v.context + added.push(token) =~= (v.context + added).push(token));
        assert(out + added.push(token) =~= (out + added).push(token));
    }
}

/// A greedy round leaves the generator alone, and judges every guess by the likeliest
/// token.
proof fn greedy_verdicts<S: Sampler>(
    s: &S,
    answers: Seq<Seq<u32>>,
    draft: Seq<Token>,
    params: SamplingParams,
    ends: Ends,
    rng: Rng,
    n: nat,
)
    requires
        params.greedy(),
    ensures
        ({
            let (verdicts, after) = decode::judged(s, answers, draft, params, ends, rng, n);
            &&& after == rng
            &&& verdicts.len() == n
            &&& forall|i: int|
                0 <= i < n ==> #[trigger] verdicts[i] == decode::greedy_judgement(
                    answers[i],
                    decode::guess_at(draft, i),
                    ends,
                )
        }),
    decreases n,
{
    if n > 0 {
        greedy_verdicts(s, answers, draft, params, ends, rng, (n - 1) as nat);
    }
}

/// A round on a session that the model knows, made greedily, is a greedy round of the
/// model, and every answer of it is a token.
proof fn a_known_round_is_greedy<B: InferenceBackend, S: Sampler>(
    b: &B,
    s: &S,
    v: SessionView,
    params: SamplingParams,
    ends: Ends,
    round: Round,
)
    requires
        b.shape().vocab_size > 0,
        params.greedy(),
        0 < round.verdicts.len() <= round.draft.len() + 1,
        round.verdicts == decode::judged(
            s,
            round.answers,
            round.draft,
            params,
            ends,
            v.rng,
            round.verdicts.len(),
        ).0,
        forall|i: int|
            0 <= i <= round.draft.len() ==> (#[trigger] round.answers[i]).len()
                == b.shape().vocab_size,
        forall|i: int|
            0 <= i <= round.draft.len() ==> #[trigger] round.answers[i] == b.answers(
                v.seq.window(),
                v.context + round.draft.take(i),
            ),
    ensures
        decode::is_greedy_round(b, v.seq.window(), v.context, ends, round),
        forall|k: int| 0 <= k < round.verdicts.len() ==> #[trigger] round.verdicts[k] is Drawn,
{
    greedy_verdicts(s, round.answers, round.draft, params, ends, v.rng, round.verdicts.len());
    assert forall|k: int| 0 <= k < round.verdicts.len() implies #[trigger] round.verdicts[k] is Drawn
        && round.verdicts[k] == decode::greedy_judgement(
        b.answers(v.seq.window(), v.context + round.draft.take(k)),
        decode::guess_at(round.draft, k),
        ends,
    ) by {
        assert(round.answers[k].len() > 0);
    }
}

/// Speculation never leaves the path of plain greedy decoding, whoever guesses: a round
/// whose pass came through adds the tokens that some number of plain steps add, at least
/// one, and hands them out, all but one that ends the sequence. Where the cache could be
/// taken back, the model knows the session again as it did before, so the next round goes
/// on from there. A cache that could not is reported as a full context.
pub proof fn speculation_stays_on_the_greedy_path<
    B: InferenceBackend,
    D: InferenceBackend,
    S: Sampler,
>(
    b: &B,
    drafter: Option<&D>,
    template: Option<KvConfig>,
    s: &S,
    v: SessionView,
    params: SamplingParams,
    lookahead: nat,
    ends: Ends,
    max_context: nat,
    round: Round,
    w: SessionView,
    r: Result<(), StopReason>,
    out: Seq<Token>,
    out_after: Seq<Token>,
)
    requires
        b.shape().vocab_size > 0,
        backend::keeps_to_the_sequence(b),
        params.greedy(),
        v.wf(),
        v.due(params.max_tokens as nat, max_context) is None,
        backend::knows(b, v.seq, v.context),
        v.seq.len() < v.context.len(),
        decode::is_round(
            b,
            drafter,
            template,
            s,
            v,
            params,
            lookahead,
            ends,
            max_context,
            round,
            w,
            r,
            out,
            out_after,
        ),
        round.verdicts.len() > 0,
    ensures
        ({
            let n = (w.context.len() - v.context.len()) as nat;
            let added = w.context.skip(v.context.len() as int);
            &&& 1 <= n <= round.draft.len() + 1
            &&& w.context == runtime_laws::plain(
                greedy_model(b, v.seq.window(), ends),
                v.context,
                n,
            )
            &&& w.generated() <= params.max_tokens
            &&& out_after == out + if added.last() == ends.eos {
                added.drop_last()
            } else {
                added
            }
            &&& runtime::can_be_cut(round.pass, w.kept()) ==> backend::knows(b, w.seq, w.context)
                && w.seq.len() == w.context.len() - 1 && w.seq.window() == v.seq.window()
            &&& r != Err::<(), StopReason>(StopReason::ContextFull) <==> runtime::can_be_cut(
                round.pass,
                w.kept(),
            )
        }),
{
    let m = greedy_model(b, v.seq.window(), ends);
    let max_tokens = params.max_tokens as nat;
    let verdicts = round.verdicts;
    let last = verdicts.len() - 1;
    assert(verdicts.take(0) =~= Seq::<Verdict>::empty());
    assert(verdicts.take(verdicts.len() as int) =~= verdicts);
    assert(midway(v, verdicts, 0) =~= v);
    a_known_round_is_greedy(b, s, v, params, ends, round);
    answers_make_a_greedy_round(b, v.seq.window(), v, round, ends, max_tokens, 0);
    runtime_laws::speculation_equals_greedy_decoding(v, m, round.draft, ends.eos, max_tokens);
    handed_out_is_what_was_added(v, verdicts, out, ends.eos, max_tokens, last);
    let before = decode::with_tokens(v.context, verdicts.take(last));
    let added = w.context.skip(v.context.len() as int);
    assert(verdicts.take(last) =~= verdicts.drop_last());
    assert(verdicts[last] is Drawn);
    let token = w.context.last();
    assert(w.context == before.push(token));
    assert(added.drop_last() =~= before.skip(v.context.len() as int));
    assert(added =~= added.drop_last().push(token));
    assert(out + added =~= (out + added.drop_last()).push(token));
    if runtime::can_be_cut(round.pass, w.kept()) {
        guesses_that_stood(v, round, ends, max_tokens, last);
        let whole = v.context + round.draft;
        let kept = (w.context.len() - 1) as nat;
        assert(w.seq == round.pass.cut(kept));
        assert(whole.take(whole.len() as int) =~= whole);
        assert(whole.take(kept as int) =~= before);
        assert(w.context.take(kept as int) =~= before);
        assert(w.seq.len() == kept) by {
            assert(w.seq.kvs[0] == round.pass.kvs[0].cut(kept));
            assert(round.pass.kvs[0].len == v.seq.kvs[0].len + (whole.len() - v.seq.len()));
        }
        assert(w.seq.kvs[0] == round.pass.kvs[0].cut(kept));
    }
}

/// The tokens of the answers before `n` are the guesses.
proof fn guesses_that_stood(
    v: SessionView,
    round: Round,
    ends: Ends,
    max_tokens: nat,
    n: int,
)
    requires
        round.is_complete(v, ends.eos, max_tokens),
        round.keeps_only_guesses(),
        0 <= n < round.verdicts.len(),
    ensures
        decode::with_tokens(v.context, round.verdicts.take(n)) == v.context + round.draft.take(n),
    decreases n,
{
    if n == 0 {
        assert(v.context + round.draft.take(0) =~= v.context);
    } else {
        guesses_that_stood(v, round, ends, max_tokens, n - 1);
        assert(round.verdicts.take(n).drop_last() =~= round.verdicts.take(n - 1));
        assert(decode::next_at(v, round.verdicts, n - 1, ends.eos, max_tokens) == Next::More);
        assert(v.context + round.draft.take(n) =~= (v.context + round.draft.take(n - 1)).push(
            round.draft[n - 1],
        ));
    }
}

/// Both caches end up describing the same tokens: what a draft model has read after a
/// round is the front of what was produced, so that its next guesses are built on that.
pub proof fn the_draft_model_reads_what_was_produced<
    B: InferenceBackend,
    D: InferenceBackend,
    S: Sampler,
>(
    b: &B,
    d: &D,
    kv: KvConfig,
    s: &S,
    v: SessionView,
    params: SamplingParams,
    lookahead: nat,
    ends: Ends,
    max_context: nat,
    round: Round,
    w: SessionView,
    r: Result<(), StopReason>,
    out: Seq<Token>,
    out_after: Seq<Token>,
)
    requires
        backend::keeps_to_the_sequence(d),
        v.wf(),
        backend::knows(d, decode::draft_began(v, kv), v.context),
        decode::is_round(
            b,
            Some(d),
            Some(kv),
            s,
            v,
            params,
            lookahead,
            ends,
            max_context,
            round,
            w,
            r,
            out,
            out_after,
        ),
        round.verdicts.len() > 0,
    ensures
        w.draft matches Some(read) ==> backend::knows(d, read, w.context),
{
    let verdicts = round.verdicts;
    let last = verdicts.len() - 1;
    let whole = v.context + round.draft;
    let kept = w.kept();
    guesses_that_stood(v, round, ends, params.max_tokens as nat, last);
    assert(verdicts.take(last) =~= verdicts.drop_last());
    let before = decode::with_tokens(v.context, verdicts.drop_last());
    assert(w.context == decode::with_tokens(v.context, verdicts));
    assert(kept <= before.len() && w.context.take(kept as int) =~= whole.take(kept as int));
    if let Some(read) = w.draft {
        let h = round.held.unwrap();
        let seen = whole.take(h.len() as int);
        assert(read == h.cut(kept));
        assert(read.kvs[0] == h.kvs[0].cut(kept));
        if kept < seen.len() {
            assert(seen.take(kept as int) =~= w.context.take(kept as int));
        } else {
            assert(read.len() == h.len());
            assert(w.context.take(h.len() as int) =~= seen);
        }
    }
}

/// A greedy step that drew a token adds what the model answers, and the model knows the
/// session again as it did before. One that drew none is reported as a full context.
pub proof fn a_step_takes_the_models_answer<B: InferenceBackend, S: Sampler>(
    b: &B,
    s: &S,
    v: SessionView,
    params: SamplingParams,
    ends: Ends,
    max_context: nat,
    w: SessionView,
    r: Result<Token, StopReason>,
)
    requires
        b.shape().vocab_size > 0,
        params.greedy(),
        v.wf(),
        v.due(params.max_tokens as nat, max_context) is None,
        backend::knows(b, v.seq, v.context),
        decode::is_step(b, s, v, v.seq, params, ends, max_context, w, r),
        r != Err::<Token, StopReason>(StopReason::ContextFull),
    ensures
        w.context == v.context.push(greedy_model(b, v.seq.window(), ends)(v.context)),
        r is Ok ==> r == Ok::<Token, StopReason>(w.context.last()),
        r is Err <==> w.context.last() == ends.eos,
        backend::knows(b, w.seq, w.context),
        w.seq.len() == w.context.len() - 1,
        w.seq.window() == v.seq.window(),
{
    let pass = choose|pass: (SeqView, Option<Seq<u32>>)| #[trigger]
        decode::is_answer(b, v.context, v.seq, pass) && (w, r) == decode::after_pass(
            s,
            v,
            params,
            ends,
            pass,
        );
    assert(pass.1 is Some);
    assert(pass.0.kvs[0].len == v.seq.kvs[0].len + (v.context.len() - v.seq.len()));
    assert(w.context.take(w.seq.len() as int) =~= v.context);
}

/// A cold start leaves a session that the model knows, with everything but the last
/// token of the prompt absorbed.
pub proof fn a_cold_start_is_known<B: InferenceBackend>(
    b: &B,
    template: KvConfig,
    id: u64,
    prefix: Seq<Token>,
    s: SeqView,
)
    requires
        backend::keeps_to_the_sequence(b),
        backend::advanced(SeqView::fresh(template, id), s, prefix.len()),
        backend::knows(b, SeqView::fresh(template, id), prefix) ==> b.holds(s, prefix),
    ensures
        b.holds(s, prefix),
        s.len() == prefix.len(),
        s.window() == template.sliding_window,
{
    let fresh = SeqView::fresh(template, id);
    assert(fresh.kvs[0].len == 0);
    assert(prefix.take(0) =~= Seq::<Token>::empty());
    assert(s.kvs[0].len == fresh.kvs[0].len + (prefix.len() - fresh.len()));
}

/// What the model has read of a pending prompt is what the prompt says it has.
pub open spec fn is_read_so_far<B: InferenceBackend>(b: &B, p: PendingView) -> bool {
    &&& p.consumed <= p.context.len()
    &&& p.seq.len() == p.consumed
    &&& b.holds(p.seq, p.context.take(p.consumed as int))
}

/// A prompt that is read in stretches is read as if it were read at once: every stretch
/// that comes through leaves a sequence that the model knows, as far as it went.
pub proof fn a_stretch_reads_on<B: InferenceBackend>(
    b: &B,
    before: RuntimeView,
    p: PendingView,
    max_tokens: nat,
    r: Result<bool, GarudaError>,
    q: PendingView,
    after: RuntimeView,
)
    requires
        p.seq.wf(),
        p.context.len() > 0,
        is_read_so_far(b, p),
        decode::is_stretch(b, before, p, max_tokens, r, q, after),
        r is Ok,
    ensures
        is_read_so_far(b, q),
        q.seq.window() == p.seq.window(),
        q.consumed >= p.consumed,
        p.remaining() > 0 ==> q.consumed > p.consumed,
        r == Ok::<bool, GarudaError>(q.remaining() == 0),
{
    if p.remaining() > 0 {
        let target = p.target(max_tokens) as int;
        let piece = p.context.take(target);
        assert(piece.take(p.consumed as int) =~= p.context.take(p.consumed as int));
        assert(q.seq.kvs[0].len == p.seq.kvs[0].len + (target - p.seq.len()));
    }
}

/// Whichever of `prompts` an entry of the cache is found under, its state is what the model
/// makes of that prompt where attention reaches `window` positions back.
pub open spec fn is_true_to<B: InferenceBackend>(
    b: &B,
    window: Option<usize>,
    prompts: Set<Seq<Token>>,
    cache: PromptCacheView,
) -> bool {
    forall|i: int, prefix: Seq<Token>|
        #![trigger cache.entries[i], prompt::key_of(prefix)]
        0 <= i < cache.entries.len() && prompts.contains(prefix) && cache.entries[i].key
            == prompt::key_of(prefix) ==> b.holds(
            cache.entries[i].state,
            prefix,
        ) && cache.entries[i].state.len() == prefix.len() && cache.entries[i].state.window()
            == window
}

/// No two of `prompts` have the same digest.
pub open spec fn are_told_apart(prompts: Set<Seq<Token>>) -> bool {
    forall|p: Seq<Token>, q: Seq<Token>|
        prompts.contains(p) && prompts.contains(q) && #[trigger] prompt::key_of(p)
            == #[trigger] prompt::key_of(q) ==> p == q
}

/// A cache that has nothing is true to any model.
pub proof fn an_empty_cache_is_true<B: InferenceBackend>(
    b: &B,
    window: Option<usize>,
    prompts: Set<Seq<Token>>,
    cache: PromptCacheView,
)
    requires
        cache.entries.len() == 0,
    ensures
        is_true_to(b, window, prompts, cache),
{
}

proof fn what_is_left_was_there(entries: Seq<PromptView>, key: Seq<u8>, i: int) -> (j: int)
    requires
        0 <= i < prompt::without(entries, key).len(),
    ensures
        0 <= j < entries.len(),
        entries[j] == prompt::without(entries, key)[i],
{
    let left = prompt::without(entries, key);
    assert(left.contains(left[i]));
    entries.lemma_filter_contains_rev(prompt::other_than(key), left[i]);
    choose|j: int| 0 <= j < entries.len() && entries[j] == left[i]
}

/// Beginning a sequence leaves the cache true to the model, and a hit is a sequence that
/// the model knows, with everything but the last token of the prompt absorbed and a window
/// as a cold start has it: it continues as a cold start would.
pub proof fn a_hit_continues_as_a_cold_start<B: InferenceBackend>(
    b: &B,
    v: RuntimeView,
    template: KvConfig,
    prompts: Set<Seq<Token>>,
    prompt: Seq<Token>,
    params: SamplingParams,
)
    requires
        backend::keeps_to_the_sequence(b),
        is_true_to(b, template.sliding_window, prompts, v.cache),
        v.cache.wf(),
        prompt.len() > 0,
        prompts.contains(prompt.drop_last()),
    ensures
        is_true_to(b, template.sliding_window, prompts, v.started(prompt).cache),
        v.pending(template, prompt, params).seq.window() == template.sliding_window,
        v.hits(prompt) ==> {
            let p = v.pending(template, prompt, params);
            b.holds(p.seq, p.prefix()) && p.seq.len() == p.prefix().len()
        },
        !v.hits(prompt) ==> {
            let p = v.pending(template, prompt, params);
            b.holds(p.seq, Seq::<Token>::empty()) && p.seq.len() == 0
        },
{
    let prefix = prompt.drop_last();
    let key = prompt::key_of(prefix);
    let p = v.pending(template, prompt, params);
    let entries = v.cache.entries;
    if v.hits(prompt) {
        let at = choose|i: int| 0 <= i < entries.len() && (#[trigger] entries[i]).key == key;
        let state = entries[at].state;
        assert(v.cache.state(key) == state);
        assert(b.holds(state, prefix) && state.len() == prefix.len());
        assert(p.seq == state.rekeyed(v.next_seq));
        assert(p.seq.kvs[0].len == state.kvs[0].len);
        assert(p.seq.kvs[0].sliding_window == state.kvs[0].sliding_window);
        let after = v.started(prompt).cache;
        let left = prompt::without(entries, key);
        assert forall|i: int, q: Seq<Token>|
            #![trigger after.entries[i], prompt::key_of(q)]
            0 <= i < after.entries.len() && prompts.contains(q) && after.entries[i].key
                == prompt::key_of(q) implies b.holds(after.entries[i].state, q)
            && after.entries[i].state.len() == q.len() && after.entries[i].state.window()
            == template.sliding_window by {
            if i < left.len() {
                let j = what_is_left_was_there(entries, key, i);
                assert(entries[j] == after.entries[i]);
            } else {
                assert(after.entries[i].state == entries[at].state);
                assert(entries[at].key == prompt::key_of(q));
            }
        }
    } else {
        let fresh = SeqView::fresh(template, v.next_seq);
        assert(p.seq == fresh);
        assert(fresh.kvs[0].len == 0);
        assert(v.started(prompt).cache.entries == entries);
    }
}

/// A prompt that went in leaves the cache true to the model, provided that the digests tell
/// the prompts apart.
pub proof fn absorbed_prompts_are_remembered_truly<B: InferenceBackend>(
    b: &B,
    window: Option<usize>,
    prompts: Set<Seq<Token>>,
    v: RuntimeView,
    p: PendingView,
)
    requires
        is_true_to(b, window, prompts, v.cache),
        are_told_apart(prompts),
        prompts.contains(p.prefix()),
        b.holds(p.seq, p.prefix()),
        p.seq.len() == p.prefix().len(),
        p.seq.window() == window,
    ensures
        is_true_to(b, window, prompts, v.absorbed(p).cache),
{
    let key = prompt::key_of(p.prefix());
    let entries = v.cache.entries;
    let after = v.absorbed(p).cache;
    if p.cache_on_finish && !v.cache.declines(p.seq) {
        let left = prompt::without(entries, key);
        let n = prompt::to_evict(
            left,
            prompt::state_bytes(p.seq),
            v.cache.capacity,
            v.cache.budget,
        );
        prompt::evicts_at_most_all(
            left,
            prompt::state_bytes(p.seq),
            v.cache.capacity,
            v.cache.budget,
        );
        assert forall|i: int, q: Seq<Token>|
            #![trigger after.entries[i], prompt::key_of(q)]
            0 <= i < after.entries.len() && prompts.contains(q) && after.entries[i].key
                == prompt::key_of(q) implies b.holds(after.entries[i].state, q)
            && after.entries[i].state.len() == q.len() && after.entries[i].state.window() == window
            by {
            if i < after.entries.len() - 1 {
                assert(after.entries[i] == left[n + i]);
                let j = what_is_left_was_there(entries, key, n + i);
                assert(entries[j] == after.entries[i]);
            } else {
                assert(after.entries[i].key == key);
                assert(q == p.prefix());
            }
        }
    }
}

/// The step that left `w` of `v` drew a token.
pub open spec fn drew(v: SessionView, w: SessionView) -> bool {
    w.context.len() > v.context.len()
}

/// What was read in whatever pieces goes on alike: of two sequences that the model knows
/// the same context by, as far back in both, steps that draw a token draw the same one
/// and leave the same session, but for the cells of its cache. The model knows the session
/// again by both, so the next step goes on from there. A hit in the prompt cache and a cold
/// start are two such sequences.
pub proof fn what_is_known_goes_on_alike<B: InferenceBackend, S: Sampler>(
    b: &B,
    s: &S,
    v: SessionView,
    other: SeqView,
    params: SamplingParams,
    ends: Ends,
    max_context: nat,
    one: (SessionView, Result<Token, StopReason>),
    two: (SessionView, Result<Token, StopReason>),
)
    requires
        v.seq.wf(),
        other.wf(),
        backend::knows(b, v.seq, v.context),
        backend::knows(b, other, v.context),
        other.window() == v.seq.window(),
        decode::is_step(b, s, v, v.seq, params, ends, max_context, one.0, one.1),
        decode::is_step(
            b,
            s,
            (SessionView { seq: other, ..v }),
            other,
            params,
            ends,
            max_context,
            two.0,
            two.1,
        ),
        v.due(params.max_tokens as nat, max_context) is None ==> drew(v, one.0) && drew(v, two.0),
    ensures
        one.1 == two.1,
        one.0 == (SessionView { seq: one.0.seq, ..two.0 }),
        backend::knows(b, one.0.seq, one.0.context),
        backend::knows(b, two.0.seq, two.0.context),
        one.0.seq.window() == two.0.seq.window(),
{
    let u = SessionView { seq: other, ..v };
    if v.due(params.max_tokens as nat, max_context) is None {
        let p = choose|pass: (SeqView, Option<Seq<u32>>)| #[trigger]
            decode::is_answer(b, v.context, v.seq, pass) && one == decode::after_pass(
                s,
                v,
                params,
                ends,
                pass,
            );
        let q = choose|pass: (SeqView, Option<Seq<u32>>)| #[trigger]
            decode::is_answer(b, u.context, other, pass) && two == decode::after_pass(
                s,
                u,
                params,
                ends,
                pass,
            );
        assert(p.1 is Some && q.1 is Some);
        assert(p.1->Some_0 == q.1->Some_0);
        assert(p.0.kvs[0].len == v.seq.kvs[0].len + (v.context.len() - v.seq.len()));
        assert(q.0.kvs[0].len == other.kvs[0].len + (v.context.len() - other.len()));
        assert(one.0.context.take(p.0.len() as int) =~= v.context);
        assert(two.0.context.take(q.0.len() as int) =~= v.context);
    }
}

/// No pass over its context fails that begins with the sequence of `v`.
pub open spec fn passes_come_through<B: InferenceBackend>(b: &B, v: SessionView) -> bool {
    forall|after: SeqView| !(#[trigger] b.may_fail(v.seq, v.context, after))
}

/// No pass over its context fails that begins with the sequence of `v` when that has
/// already read all of it.
pub open spec fn repeats_come_through<B: InferenceBackend>(b: &B, v: SessionView) -> bool {
    forall|began: SeqView, after: SeqView|
        backend::advanced(v.seq, began, v.context.len()) && b.holds(began, v.context) ==> !(
        #[trigger] b.may_fail(began, v.context, after))
}

/// An answer to a sequence that a shared pass has already taken through its context is an
/// answer to the sequence as it was.
proof fn an_answer_that_was_made_ahead<B: InferenceBackend>(
    b: &B,
    v: SessionView,
    began: SeqView,
    pass: (SeqView, Option<Seq<u32>>),
)
    requires
        v.seq.wf(),
        began.wf(),
        backend::advanced(v.seq, began, v.context.len()),
        backend::knows(b, v.seq, v.context),
        b.holds(began, v.context),
        decode::is_answer(b, v.context, began, pass),
        pass.1 is Some,
    ensures
        decode::is_answer(b, v.context, v.seq, pass),
{
    let n = v.context.len();
    assert(began.kvs[0].len == v.seq.kvs[0].len + (n - v.seq.len()));
    assert forall|l: int| 0 <= l < pass.0.kvs.len() implies (#[trigger] pass.0.kvs[l]).len
        == v.seq.kvs[l].len + (n - v.seq.len()) by {
        assert(began.kvs[l].len == v.seq.kvs[l].len + (n - v.seq.len()));
    }
    assert(v.context.take(n as int) =~= v.context);
}

/// A shared pass changes nothing: a session that the model knows is left and reported in a
/// batch as it is alone, but for the cells of its cache, where both steps draw a token. The
/// sequence that its step in the batch began with is `began`. It is where the session had
/// it, unless the shared pass failed. Then it may have been taken through its context, but
/// the session's own part of the pass is not what failed.
pub proof fn a_shared_pass_changes_nothing<B: InferenceBackend, S: Sampler>(
    b: &B,
    s: &S,
    v: SessionView,
    began: SeqView,
    params: SamplingParams,
    ends: Ends,
    max_context: nat,
    batched: (SessionView, Result<Token, StopReason>),
    alone: (SessionView, Result<Token, StopReason>),
)
    requires
        v.seq.wf(),
        began.wf(),
        backend::knows(b, v.seq, v.context),
        decode::left_by_a_failure(b, v, began),
        began == v.seq || !b.may_fail(v.seq, v.context, began),
        decode::is_step(b, s, v, began, params, ends, max_context, batched.0, batched.1),
        decode::is_step(b, s, v, v.seq, params, ends, max_context, alone.0, alone.1),
        v.due(params.max_tokens as nat, max_context) is None ==> drew(v, batched.0) && drew(
            v,
            alone.0,
        ),
    ensures
        batched.1 == alone.1,
        batched.0 == (SessionView { seq: batched.0.seq, ..alone.0 }),
        v.due(params.max_tokens as nat, max_context) is None ==> b.holds(
            batched.0.seq,
            v.context,
        ) && b.holds(alone.0.seq, v.context),
{
    if v.due(params.max_tokens as nat, max_context) is None {
        let pass = choose|pass: (SeqView, Option<Seq<u32>>)| #[trigger]
            decode::is_answer(b, v.context, began, pass) && batched == decode::after_pass(
                s,
                v,
                params,
                ends,
                pass,
            );
        assert(pass.1 is Some);
        if began != v.seq {
            an_answer_that_was_made_ahead(b, v, began, pass);
        }
        assert(decode::is_answer(b, v.context, v.seq, pass));
    }
}

/// A batched step equals a single step: where no pass of its own fails, a session that the
/// model knows is left and reported in a batch as it is alone, but for the cells of its
/// cache, which hold the same context in both cases.
///
/// There is one way out. A shared pass that fails may have read the context by then, and a
/// model that refuses to read nothing new then refuses the step of the session's own. It
/// draws no token, and is reported as a full context.
pub proof fn a_batched_step_is_a_step_alone<B: InferenceBackend, S: Sampler>(
    b: &B,
    s: &S,
    v: SessionView,
    params: SamplingParams,
    ends: Ends,
    max_context: nat,
    batched: (SessionView, Result<Token, StopReason>),
    alone: (SessionView, Result<Token, StopReason>),
)
    requires
        v.seq.wf(),
        backend::knows(b, v.seq, v.context),
        passes_come_through(b, v),
        decode::steps_in_batch(b, s, v, params, ends, max_context, batched.0, batched.1),
        decode::is_step(b, s, v, v.seq, params, ends, max_context, alone.0, alone.1),
    ensures
        ({
            ||| v.due(params.max_tokens as nat, max_context) is Some
            ||| drew(v, batched.0)
            ||| repeats_come_through(b, v)
        }) ==> {
            &&& batched.1 == alone.1
            &&& batched.0 == (SessionView { seq: batched.0.seq, ..alone.0 })
            &&& v.due(params.max_tokens as nat, max_context) is None ==> b.holds(
                batched.0.seq,
                v.context,
            ) && b.holds(alone.0.seq, v.context)
        },
        !drew(v, batched.0) && v.due(params.max_tokens as nat, max_context) is None ==> batched.1
            == Err::<Token, StopReason>(StopReason::ContextFull) && batched.0.context == v.context
            && batched.0.finished,
{
    let began = choose|began: SeqView|
        {
            &&& began.wf()
            &&& #[trigger] decode::left_by_a_failure(b, v, began)
            &&& decode::is_step(b, s, v, began, params, ends, max_context, batched.0, batched.1)
        };
    if v.due(params.max_tokens as nat, max_context) is None {
        let pass = choose|pass: (SeqView, Option<Seq<u32>>)| #[trigger]
            decode::is_answer(b, v.context, began, pass) && batched == decode::after_pass(
                s,
                v,
                params,
                ends,
                pass,
            );
        if pass.1 is Some {
            if began != v.seq {
                an_answer_that_was_made_ahead(b, v, began, pass);
            }
            assert(decode::is_answer(b, v.context, v.seq, pass));
        }
    }
}

/// Where plain greedy decoding ends that goes on from `context`, and why.
pub open spec fn plain_run(
    m: spec_fn(Seq<Token>) -> Token,
    context: Seq<Token>,
    prompt_len: nat,
    eos: Token,
    max_tokens: nat,
    max_context: nat,
) -> (Seq<Token>, StopReason)
    decreases max_context - context.len(),
{
    if context.len() - prompt_len >= max_tokens {
        (context, StopReason::Length)
    } else if context.len() >= max_context {
        (context, StopReason::ContextFull)
    } else if m(context) == eos {
        (context.push(eos), StopReason::Eos)
    } else {
        plain_run(m, context.push(m(context)), prompt_len, eos, max_tokens, max_context)
    }
}

/// A session that is running, and of which the model has read all but the last token at
/// most.
pub open spec fn is_ready<B: InferenceBackend>(b: &B, v: SessionView) -> bool {
    &&& v.wf()
    &&& !v.finished
    &&& backend::knows(b, v.seq, v.context)
    &&& v.seq.len() < v.context.len()
}

/// A session that was started is ready, with all of the prompt but its last token read and
/// attention as far back as every sequence of the runtime has it, whether it began with a
/// hit in the prompt cache or cold. The cache stays true to the model. `prompts` are those
/// that the runtime is asked to start with, and the digests tell them apart.
pub proof fn a_started_session_is_ready<B: InferenceBackend>(
    b: &B,
    before: RuntimeView,
    template: KvConfig,
    prompts: Set<Seq<Token>>,
    prompt: Seq<Token>,
    params: SamplingParams,
    s: SessionView,
    after: RuntimeView,
)
    requires
        backend::keeps_to_the_sequence(b),
        are_told_apart(prompts),
        prompts.contains(prompt.drop_last()),
        is_true_to(b, template.sliding_window, prompts, before.cache),
        before.cache.wf(),
        prompt.len() > 0,
        s.wf(),
        decode::is_start(b, before, template, prompt, params, s, after),
    ensures
        is_ready(b, s),
        s.context == prompt,
        s.prompt_len == prompt.len(),
        s.seq.len() == prompt.len() - 1,
        s.seq.window() == template.sliding_window,
        is_true_to(b, template.sliding_window, prompts, after.cache),
{
    let p = before.pending(template, prompt, params);
    let prefix = prompt.drop_last();
    a_hit_continues_as_a_cold_start(b, before, template, prompts, prompt, params);
    assert(prompt.take(prefix.len() as int) =~= prefix);
    if p.remaining() == 0 {
        if !before.hits(prompt) {
            assert(prefix =~= Seq::<Token>::empty());
        }
    } else {
        assert(!before.hits(prompt));
        assert(prefix.take(0) =~= Seq::<Token>::empty());
        a_cold_start_is_known(b, template, before.next_seq, prefix, s.seq);
        let q = PendingView { seq: s.seq, consumed: prefix.len(), ..p };
        absorbed_prompts_are_remembered_truly(
            b,
            template.sliding_window,
            prompts,
            before.started(prompt),
            q,
        );
    }
}

/// A call on `v` that reports `reason` did not fail. A pass that fails, and a cache that
/// cannot be taken back, are reported as a full context where there is room left.
pub open spec fn ends_on_its_own(
    v: SessionView,
    params: SamplingParams,
    max_context: nat,
    reason: StopReason,
) -> bool {
    reason == StopReason::ContextFull ==> v.due(params.max_tokens as nat, max_context) is Some
}

/// Where `v` ends under plain greedy decoding.
pub open spec fn end_of<B: InferenceBackend>(
    b: &B,
    v: SessionView,
    params: SamplingParams,
    ends: Ends,
    max_context: nat,
) -> (Seq<Token>, StopReason) {
    plain_run(
        greedy_model(b, v.seq.window(), ends),
        v.context,
        v.prompt_len,
        ends.eos,
        params.max_tokens as nat,
        max_context,
    )
}

/// The token that ends a sequence, where one does.
pub open spec fn tail(reason: StopReason, ends: Ends) -> Seq<Token> {
    if reason == StopReason::Eos {
        seq![ends.eos]
    } else {
        Seq::empty()
    }
}

proof fn a_step_is_on_the_run<B: InferenceBackend, S: Sampler>(
    b: &B,
    s: &S,
    v: SessionView,
    params: SamplingParams,
    ends: Ends,
    max_context: nat,
    w: SessionView,
    r: Result<Token, StopReason>,
)
    requires
        b.shape().vocab_size > 0,
        params.greedy(),
        is_ready(b, v),
        decode::is_step(b, s, v, v.seq, params, ends, max_context, w, r),
        r matches Err(reason) ==> ends_on_its_own(v, params, max_context, reason),
    ensures
        v.due(params.max_tokens as nat, max_context) is None ==> w.seq.len() == w.context.len() - 1,
        v.due(params.max_tokens as nat, max_context) is Some ==> r is Err && w == v.stopped(),
        w.seq.window() == v.seq.window(),
        w.prompt_len == v.prompt_len,
        match r {
            Ok(t) => {
                &&& is_ready(b, w)
                &&& w.seq.len() == w.context.len() - 1
                &&& w.context == v.context.push(t)
                &&& end_of(b, v, params, ends, max_context) == end_of(
                    b,
                    w,
                    params,
                    ends,
                    max_context,
                )
            },
            Err(reason) => {
                &&& end_of(b, v, params, ends, max_context) == (w.context, reason)
                &&& w.context == v.context + tail(reason, ends)
            },
        },
{
    if v.due(params.max_tokens as nat, max_context) is None {
        assert(r != Err::<Token, StopReason>(StopReason::ContextFull));
        a_step_takes_the_models_answer(b, s, v, params, ends, max_context, w, r);
        assert(v.context + seq![ends.eos] =~= v.context.push(ends.eos));
    } else {
        assert(v.context + Seq::<Token>::empty() =~= v.context);
    }
}

/// `n` plain steps that neither end the sequence nor run out of room stay on the run.
proof fn plain_steps_are_on_the_run(
    m: spec_fn(Seq<Token>) -> Token,
    context: Seq<Token>,
    prompt_len: nat,
    eos: Token,
    max_tokens: nat,
    max_context: nat,
    n: nat,
)
    requires
        prompt_len <= context.len(),
        context.len() - prompt_len + n <= max_tokens,
        context.len() + n <= max_context,
        forall|k: nat| 1 <= k <= n ==> (#[trigger] runtime_laws::plain(m, context, k)).last() != eos,
    ensures
        runtime_laws::plain(m, context, n).len() == context.len() + n,
        plain_run(m, context, prompt_len, eos, max_tokens, max_context) == plain_run(
            m,
            runtime_laws::plain(m, context, n),
            prompt_len,
            eos,
            max_tokens,
            max_context,
        ),
    decreases n,
{
    if n > 0 {
        plain_steps_are_on_the_run(
            m,
            context,
            prompt_len,
            eos,
            max_tokens,
            max_context,
            (n - 1) as nat,
        );
        let before = runtime_laws::plain(m, context, (n - 1) as nat);
        assert(runtime_laws::plain(m, context, n) == before.push(m(before)));
        assert(runtime_laws::plain(m, context, n).last() != eos);
    }
}

proof fn a_round_is_on_the_run<B: InferenceBackend, D: InferenceBackend, S: Sampler>(
    b: &B,
    drafter: Option<&D>,
    template: Option<KvConfig>,
    s: &S,
    v: SessionView,
    params: SamplingParams,
    lookahead: nat,
    ends: Ends,
    max_context: nat,
    round: Round,
    w: SessionView,
    r: Result<(), StopReason>,
    out: Seq<Token>,
    out_after: Seq<Token>,
)
    requires
        b.shape().vocab_size > 0,
        backend::keeps_to_the_sequence(b),
        params.greedy(),
        is_ready(b, v),
        w.wf(),
        v.due(params.max_tokens as nat, max_context) is None,
        r != Err::<(), StopReason>(StopReason::ContextFull),
        decode::is_round(
            b,
            drafter,
            template,
            s,
            v,
            params,
            lookahead,
            ends,
            max_context,
            round,
            w,
            r,
            out,
            out_after,
        ),
    ensures
        w.seq.len() == w.context.len() - 1,
        w.seq.window() == v.seq.window(),
        match r {
            Ok(_) => {
                &&& is_ready(b, w)
                &&& w.prompt_len == v.prompt_len
                &&& end_of(b, v, params, ends, max_context) == end_of(
                    b,
                    w,
                    params,
                    ends,
                    max_context,
                )
                &&& out_after == out + w.context.skip(v.context.len() as int)
                &&& w.context == v.context + w.context.skip(v.context.len() as int)
            },
            Err(reason) => {
                let added = out_after.skip(out.len() as int);
                &&& end_of(b, v, params, ends, max_context) == (w.context, reason)
                &&& out_after == out + added
                &&& w.context == v.context + added + tail(reason, ends)
            },
        },
{
    let m = greedy_model(b, v.seq.window(), ends);
    let max_tokens = params.max_tokens as nat;
    let verdicts = round.verdicts;
    assert(verdicts.len() > 0);
    speculation_stays_on_the_greedy_path(
        b,
        drafter,
        template,
        s,
        v,
        params,
        lookahead,
        ends,
        max_context,
        round,
        w,
        r,
        out,
        out_after,
    );
    // What the last answer said, once more.
    assert(verdicts.take(0) =~= Seq::<Verdict>::empty());
    assert(verdicts.take(verdicts.len() as int) =~= verdicts);
    assert(midway(v, verdicts, 0) =~= v);
    a_known_round_is_greedy(b, s, v, params, ends, round);
    answers_make_a_greedy_round(b, v.seq.window(), v, round, ends, max_tokens, 0);
    runtime_laws::speculation_equals_greedy_decoding(v, m, round.draft, ends.eos, max_tokens);
    let stop = round.stop(v, ends.eos, max_tokens);
    let n = (w.context.len() - v.context.len()) as nat;
    let added = w.context.skip(v.context.len() as int);
    let u = round.session(v);
    assert(u.kept() == w.kept());
    assert(w.context == runtime_laws::plain(m, v.context, n));
    let before = runtime_laws::plain(m, v.context, (n - 1) as nat);
    assert(w.context == before.push(m(before)));
    assert(w.context =~= v.context + added) by {
        handed_out_is_what_was_added(
            v,
            verdicts,
            out,
            ends.eos,
            max_tokens,
            verdicts.len() - 1,
        );
        assert(verdicts.take(verdicts.len() - 1) =~= verdicts.drop_last());
    }
    plain_steps_are_on_the_run(
        m,
        v.context,
        v.prompt_len,
        ends.eos,
        max_tokens,
        max_context,
        (n - 1) as nat,
    );
    if w.context.last() == ends.eos {
        assert(added =~= added.drop_last() + seq![ends.eos]);
        assert(w.context =~= v.context + added.drop_last() + seq![ends.eos]);
        assert(out_after.skip(out.len() as int) =~= added.drop_last());
    } else {
        plain_steps_are_on_the_run(
            m,
            v.context,
            v.prompt_len,
            ends.eos,
            max_tokens,
            max_context,
            n,
        );
        assert(out_after.skip(out.len() as int) =~= added);
        assert(w.context =~= v.context + added + Seq::<Token>::empty());
    }
}

/// A run of single steps, one after the other until one reports why there is no more.
pub open spec fn is_plain_run<B: InferenceBackend, S: Sampler>(
    b: &B,
    s: &S,
    params: SamplingParams,
    ends: Ends,
    max_context: nat,
    states: Seq<SessionView>,
    results: Seq<Result<Token, StopReason>>,
) -> bool {
    &&& results.len() > 0
    &&& states.len() == results.len() + 1
    &&& results.last() is Err
    &&& forall|i: int|
        0 <= i < results.len() ==> {
            &&& i < results.len() - 1 ==> #[trigger] results[i] is Ok
            &&& decode::is_step(
                b,
                s,
                states[i],
                states[i].seq,
                params,
                ends,
                max_context,
                states[i + 1],
                results[i],
            )
        }
}

/// The tokens of the steps from `i` on.
pub open spec fn tokens_from(results: Seq<Result<Token, StopReason>>, i: int) -> Seq<Token>
    decreases results.len() - i,
{
    if i >= results.len() - 1 {
        Seq::empty()
    } else {
        seq![results[i]->Ok_0] + tokens_from(results, i + 1)
    }
}

/// A run of steps that guess ahead, each by its own `lookaheads`, until one reports why
/// there is no more. What they put out goes behind `outs[0]`.
pub open spec fn is_guessing_run<B: InferenceBackend, D: InferenceBackend, S: Sampler>(
    b: &B,
    drafter: Option<&D>,
    s: &S,
    rt: RuntimeView,
    params: SamplingParams,
    ends: Ends,
    lookaheads: Seq<nat>,
    states: Seq<SessionView>,
    results: Seq<Result<(), StopReason>>,
    outs: Seq<Seq<Token>>,
) -> bool {
    &&& results.len() > 0
    &&& states.len() == results.len() + 1
    &&& outs.len() == results.len() + 1
    &&& lookaheads.len() == results.len()
    &&& results.last() is Err
    &&& forall|i: int|
        0 <= i < results.len() ==> {
            &&& i < results.len() - 1 ==> #[trigger] results[i] is Ok
            &&& states[i + 1].wf()
            &&& decode::is_speculation(
                b,
                drafter,
                s,
                rt,
                states[i],
                params,
                lookaheads[i],
                ends,
                states[i + 1],
                results[i],
                outs[i],
                outs[i + 1],
            )
        }
}

proof fn a_plain_run_ends_there<B: InferenceBackend, S: Sampler>(
    b: &B,
    s: &S,
    params: SamplingParams,
    ends: Ends,
    max_context: nat,
    states: Seq<SessionView>,
    results: Seq<Result<Token, StopReason>>,
    i: int,
)
    requires
        b.shape().vocab_size > 0,
        params.greedy(),
        is_plain_run(b, s, params, ends, max_context, states, results),
        ends_on_its_own(
            states[results.len() - 1],
            params,
            max_context,
            results.last()->Err_0,
        ),
        0 <= i < results.len(),
        is_ready(b, states[i]),
    ensures
        ({
            let reason = results.last()->Err_0;
            &&& end_of(b, states[i], params, ends, max_context) == (states.last().context, reason)
            &&& states.last().context == states[i].context + tokens_from(results, i) + tail(
                reason,
                ends,
            )
            &&& states.last().prompt_len == states[i].prompt_len
        }),
    decreases results.len() - i,
{
    let r = results[i];
    a_step_is_on_the_run(b, s, states[i], params, ends, max_context, states[i + 1], r);
    if i < results.len() - 1 {
        assert(r is Ok);
        a_plain_run_ends_there(b, s, params, ends, max_context, states, results, i + 1);
        let rest = tokens_from(results, i + 1);
        assert(states[i].context.push(r->Ok_0) + rest =~= states[i].context + (seq![r->Ok_0]
            + rest));
    } else {
        assert(states[i].context + tokens_from(results, i) =~= states[i].context);
    }
}

/// One call that may guess ahead stays on the run, and leaves one cache position fewer
/// than there are tokens.
proof fn a_guess_is_on_the_run<B: InferenceBackend, D: InferenceBackend, S: Sampler>(
    b: &B,
    drafter: Option<&D>,
    s: &S,
    rt: RuntimeView,
    v: SessionView,
    params: SamplingParams,
    lookahead: nat,
    ends: Ends,
    w: SessionView,
    r: Result<(), StopReason>,
    out: Seq<Token>,
    out_after: Seq<Token>,
)
    requires
        b.shape().vocab_size > 0,
        backend::keeps_to_the_sequence(b),
        params.greedy(),
        is_ready(b, v),
        w.wf(),
        r matches Err(reason) ==> ends_on_its_own(v, params, rt.max_context, reason),
        decode::is_speculation(
            b,
            drafter,
            s,
            rt,
            v,
            params,
            lookahead,
            ends,
            w,
            r,
            out,
            out_after,
        ),
    ensures
        v.seq.len() == v.context.len() - 1 ==> w.seq.len() == w.context.len() - 1,
        w.prompt_len == v.prompt_len,
        match r {
            Ok(_) => {
                &&& is_ready(b, w)
                &&& w.seq.len() == w.context.len() - 1
                &&& end_of(b, v, params, ends, rt.max_context) == end_of(
                    b,
                    w,
                    params,
                    ends,
                    rt.max_context,
                )
                &&& out_after == out + w.context.skip(v.context.len() as int)
                &&& w.context == v.context + w.context.skip(v.context.len() as int)
            },
            Err(reason) => {
                let added = out_after.skip(out.len() as int);
                &&& end_of(b, v, params, ends, rt.max_context) == (w.context, reason)
                &&& out_after == out + added
                &&& w.context == v.context + added + tail(reason, ends)
            },
        },
{
    let max_tokens = params.max_tokens as nat;
    if v.due(max_tokens, rt.max_context) is Some {
        assert(out_after.skip(out.len() as int) =~= Seq::<Token>::empty());
        assert(out =~= out + Seq::<Token>::empty());
        assert(v.context =~= v.context + Seq::<Token>::empty() + Seq::<Token>::empty());
    } else if lookahead == 0 || !b.rewinds() {
        let t = choose|t: Result<Token, StopReason>|
            {
                &&& #[trigger] decode::is_step(
                    b,
                    s,
                    v,
                    v.seq,
                    params,
                    ends,
                    rt.max_context,
                    w,
                    t,
                )
                &&& match t {
                    Ok(token) => r == Ok::<(), StopReason>(()) && out_after == out.push(token),
                    Err(reason) => r == Err::<(), StopReason>(reason) && out_after == out,
                }
            };
        a_step_is_on_the_run(b, s, v, params, ends, rt.max_context, w, t);
        match t {
            Ok(token) => {
                assert(w.context.skip(v.context.len() as int) =~= seq![token]);
                assert(out.push(token) =~= out + seq![token]);
                assert(v.context.push(token) =~= v.context + seq![token]);
            },
            Err(_) => {
                assert(out_after.skip(out.len() as int) =~= Seq::<Token>::empty());
                assert(out =~= out + Seq::<Token>::empty());
                assert(v.context + Seq::<Token>::empty() =~= v.context);
            },
        }
    } else {
        let round = choose|round: Round| #[trigger]
            decode::is_round(
                b,
                drafter,
                rt.draft_template,
                s,
                v,
                params,
                lookahead,
                ends,
                rt.max_context,
                round,
                w,
                r,
                out,
                out_after,
            );
        a_round_is_on_the_run(
            b,
            drafter,
            rt.draft_template,
            s,
            v,
            params,
            lookahead,
            ends,
            rt.max_context,
            round,
            w,
            r,
            out,
            out_after,
        );
    }
}

proof fn a_guessing_run_ends_there<B: InferenceBackend, D: InferenceBackend, S: Sampler>(
    b: &B,
    drafter: Option<&D>,
    s: &S,
    rt: RuntimeView,
    params: SamplingParams,
    ends: Ends,
    lookaheads: Seq<nat>,
    states: Seq<SessionView>,
    results: Seq<Result<(), StopReason>>,
    outs: Seq<Seq<Token>>,
    i: int,
)
    requires
        b.shape().vocab_size > 0,
        backend::keeps_to_the_sequence(b),
        params.greedy(),
        is_guessing_run(b, drafter, s, rt, params, ends, lookaheads, states, results, outs),
        ends_on_its_own(
            states[results.len() - 1],
            params,
            rt.max_context,
            results.last()->Err_0,
        ),
        0 <= i < results.len(),
        is_ready(b, states[i]),
    ensures
        ({
            let reason = results.last()->Err_0;
            let added = outs.last().skip(outs[i].len() as int);
            &&& end_of(b, states[i], params, ends, rt.max_context) == (
                states.last().context,
                reason,
            )
            &&& outs.last() == outs[i] + added
            &&& states.last().context == states[i].context + added + tail(reason, ends)
            &&& states.last().prompt_len == states[i].prompt_len
            &&& forall|j: int|
                i < j < states.len() - 1 ==> (#[trigger] states[j]).seq.len()
                    == states[j].context.len() - 1
            &&& states[i].seq.len() == states[i].context.len() - 1 ==> states.last().seq.len()
                == states.last().context.len() - 1
        }),
    decreases results.len() - i,
{
    let r = results[i];
    a_guess_is_on_the_run(
        b,
        drafter,
        s,
        rt,
        states[i],
        params,
        lookaheads[i],
        ends,
        states[i + 1],
        r,
        outs[i],
        outs[i + 1],
    );
    if i < results.len() - 1 {
        assert(r is Ok);
        a_guessing_run_ends_there(
            b,
            drafter,
            s,
            rt,
            params,
            ends,
            lookaheads,
            states,
            results,
            outs,
            i + 1,
        );
        let x = states[i + 1].context.skip(states[i].context.len() as int);
        let y = outs.last().skip(outs[i + 1].len() as int);
        assert(outs.last() =~= outs[i] + (x + y));
        assert(outs.last().skip(outs[i].len() as int) =~= x + y);
        assert(states[i].context + x + y =~= states[i].context + (x + y));
    }
}

/// Two runs of single greedy steps from the same context, with attention as far back, give
/// the same tokens and end for the same reason, provided that neither ends with a call that
/// failed. So a session that began with a hit in the prompt cache runs to the same end as
/// one that began cold.
pub proof fn known_contexts_end_alike<B: InferenceBackend, S: Sampler>(
    b: &B,
    s: &S,
    params: SamplingParams,
    ends: Ends,
    max_context: nat,
    states: Seq<SessionView>,
    results: Seq<Result<Token, StopReason>>,
    others: Seq<SessionView>,
    other_results: Seq<Result<Token, StopReason>>,
)
    requires
        b.shape().vocab_size > 0,
        params.greedy(),
        is_plain_run(b, s, params, ends, max_context, states, results),
        is_plain_run(b, s, params, ends, max_context, others, other_results),
        is_ready(b, states[0]),
        is_ready(b, others[0]),
        others[0].context == states[0].context,
        others[0].prompt_len == states[0].prompt_len,
        others[0].seq.window() == states[0].seq.window(),
        ends_on_its_own(states[results.len() - 1], params, max_context, results.last()->Err_0),
        ends_on_its_own(
            others[other_results.len() - 1],
            params,
            max_context,
            other_results.last()->Err_0,
        ),
    ensures
        tokens_from(other_results, 0) == tokens_from(results, 0),
        other_results.last()->Err_0 == results.last()->Err_0,
        others.last().context == states.last().context,
{
    a_plain_run_ends_there(b, s, params, ends, max_context, states, results, 0);
    a_plain_run_ends_there(b, s, params, ends, max_context, others, other_results, 0);
    the_middle_is_the_same(
        states[0].context,
        tokens_from(other_results, 0),
        tokens_from(results, 0),
        tail(results.last()->Err_0, ends),
    );
}

proof fn the_middle_is_the_same(c: Seq<Token>, x: Seq<Token>, y: Seq<Token>, t: Seq<Token>)
    requires
        c + x + t == c + y + t,
    ensures
        x == y,
{
    assert((c + x + t).len() == c.len() + x.len() + t.len());
    assert((c + y + t).len() == c.len() + y.len() + t.len());
    assert forall|i: int| 0 <= i < x.len() implies x[i] == y[i] by {
        assert((c + x + t)[c.len() + i] == x[i]);
        assert((c + y + t)[c.len() + i] == y[i]);
    }
    assert(x =~= y);
}

/// Guessing ahead changes nothing: from the same context, with attention as far back, under
/// any lookahead and whoever guesses, calls that guess ahead put out exactly the tokens that
/// single greedy steps give, end for the same reason, and leave the same context and as many
/// tokens generated. After every call the cache holds exactly one position fewer than there
/// are tokens.
///
/// This is said of runs that do not end with a call that failed: no pass of their own fails
/// at the end, and no cache of theirs turns out not to be one that can be taken back.
pub proof fn guessing_ahead_changes_nothing<
    B: InferenceBackend,
    D: InferenceBackend,
    S: Sampler,
>(
    b: &B,
    drafter: Option<&D>,
    s: &S,
    rt: RuntimeView,
    params: SamplingParams,
    ends: Ends,
    plain_states: Seq<SessionView>,
    plain_results: Seq<Result<Token, StopReason>>,
    lookaheads: Seq<nat>,
    states: Seq<SessionView>,
    results: Seq<Result<(), StopReason>>,
    outs: Seq<Seq<Token>>,
)
    requires
        b.shape().vocab_size > 0,
        backend::keeps_to_the_sequence(b),
        params.greedy(),
        is_plain_run(b, s, params, ends, rt.max_context, plain_states, plain_results),
        is_guessing_run(b, drafter, s, rt, params, ends, lookaheads, states, results, outs),
        is_ready(b, plain_states[0]),
        is_ready(b, states[0]),
        states[0].context == plain_states[0].context,
        states[0].prompt_len == plain_states[0].prompt_len,
        states[0].seq.window() == plain_states[0].seq.window(),
        ends_on_its_own(
            plain_states[plain_results.len() - 1],
            params,
            rt.max_context,
            plain_results.last()->Err_0,
        ),
        ends_on_its_own(
            states[results.len() - 1],
            params,
            rt.max_context,
            results.last()->Err_0,
        ),
    ensures
        outs.last() == outs[0] + tokens_from(plain_results, 0),
        results.last()->Err_0 == plain_results.last()->Err_0,
        states.last().context == plain_states.last().context,
        states.last().generated() == plain_states.last().generated(),
        forall|j: int|
            0 < j < states.len() - 1 ==> (#[trigger] states[j]).seq.len()
                == states[j].context.len() - 1,
        states[0].seq.len() == states[0].context.len() - 1 ==> states.last().seq.len()
            == states.last().context.len() - 1,
{
    a_plain_run_ends_there(b, s, params, ends, rt.max_context, plain_states, plain_results, 0);
    a_guessing_run_ends_there(
        b,
        drafter,
        s,
        rt,
        params,
        ends,
        lookaheads,
        states,
        results,
        outs,
        0,
    );
    the_middle_is_the_same(
        states[0].context,
        outs.last().skip(outs[0].len() as int),
        tokens_from(plain_results, 0),
        tail(results.last()->Err_0, ends),
    );
}

/// Greedy decoding takes the greatest logit, the first of them, and reads the end of a turn as
/// the end of the text. A guess stands exactly where it is that token.
pub proof fn greedy_answers_are_the_greatest(
    logits: Seq<u32>,
    i: int,
    guess: Option<Token>,
    ends: Ends,
)
    requires
        sampling::is_argmax(logits, i),
        logits.len() <= u32::MAX,
    ensures
        ({
            let token = if ends.turn_end == Some(i as Token) {
                ends.eos
            } else {
                i as Token
            };
            &&& decode::greedy_token(logits, ends) == Some(token)
            &&& decode::greedy_judgement(logits, guess, ends) == (Verdict::Drawn {
                kept: guess == Some(token),
                token,
            })
        }),
        decode::greedy_token(Seq::empty(), ends) is None,
        decode::greedy_judgement(Seq::empty(), guess, ends) is Failed,
{
    sampling::argmax_is_unique(logits, i);
}

/// A verdict keeps a guess only where the token that comes out is that guess; where there is no
/// guess none is kept; and greedy decoding leaves the generator alone.
pub proof fn only_guesses_are_kept<S: Sampler>(
    s: &S,
    logits: Seq<u32>,
    guess: Option<Token>,
    params: SamplingParams,
    ends: Ends,
    rng: Rng,
)
    ensures
        decode::verdict_on(s, logits, guess, params, ends, rng).0 matches Verdict::Drawn {
            kept,
            token,
        } ==> (kept ==> guess == Some(token)),
        params.greedy() ==> decode::verdict_on(s, logits, guess, params, ends, rng).1 == rng,
        params.greedy() ==> decode::token_from(s, logits, params, ends, rng) == (
            decode::greedy_token(logits, ends),
            rng,
        ),
        !params.greedy() ==> decode::token_from(s, logits, params, ends, rng).1 == s.drawn(
            logits,
            params,
            rng,
        ).1,
        !params.greedy() ==> (decode::token_from(s, logits, params, ends, rng).0 is None <==> s.drawn(
            logits,
            params,
            rng,
        ).0 is None),
        !params.greedy() ==> (s.drawn(logits, params, rng).0 matches Some(t) ==> decode::token_from(
            s,
            logits,
            params,
            ends,
            rng,
        ).0 == Some(
            if ends.turn_end == Some(t) {
                ends.eos
            } else {
                t
            },
        )),
{
}

/// What a round draws is put behind the context, one token after the other, and handed out up
/// to the end of the text, which is not.
pub proof fn drawn_tokens_follow_the_context(
    context: Seq<Token>,
    out: Seq<Token>,
    verdicts: Seq<Verdict>,
    kept: bool,
    token: Token,
    eos: Token,
)
    ensures
        ({
            let more = verdicts.push(Verdict::Drawn { kept, token });
            &&& decode::with_tokens(context, more) == decode::with_tokens(context, verdicts).push(
                token,
            )
            &&& token != eos ==> decode::handed_out(out, more, eos) == decode::handed_out(
                out,
                verdicts,
                eos,
            ).push(token)
            &&& token == eos ==> decode::handed_out(out, more, eos) == decode::handed_out(
                out,
                verdicts,
                eos,
            )
        }),
        decode::with_tokens(context, Seq::empty()) == context,
        decode::handed_out(out, Seq::empty(), eos) == out,
{
    let more = verdicts.push(Verdict::Drawn { kept, token });
    assert(more.drop_last() =~= verdicts);
    assert(more.last() == (Verdict::Drawn { kept, token }));
}

} // verus!
