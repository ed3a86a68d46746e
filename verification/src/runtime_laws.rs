//! What the decode loop and the prefill promise as a whole.

use crate::cache::kv;
use crate::cache::sequence::SeqView;
use crate::double;
use crate::double_laws;
use crate::runtime;
use crate::runtime::{Next, SessionView, StopReason, Verdict};
use crate::types::Token;
use vstd::arithmetic::power2::*;
use vstd::prelude::*;

verus! {

/// The context after `n` plain greedy steps of a model that answers `m`.
pub open spec fn plain(m: spec_fn(Seq<Token>) -> Token, context: Seq<Token>, n: nat) -> Seq<Token>
    decreases n,
{
    if n == 0 {
        context
    } else {
        let before = plain(m, context, (n - 1) as nat);
        before.push(m(before))
    }
}

/// What the model says about guess `i` of `draft`, having seen the guesses before it.
pub open spec fn greedy_verdict(
    m: spec_fn(Seq<Token>) -> Token,
    context: Seq<Token>,
    draft: Seq<Token>,
    i: nat,
) -> Verdict {
    let token = m(context + draft.take(i as int));
    Verdict::Drawn { kept: i < draft.len() && token == draft[i as int], token }
}

/// A session, and what the round said last, after a greedy round went on from answer
/// `i`. The round began with `context`.
pub open spec fn greedy_round(
    v: SessionView,
    m: spec_fn(Seq<Token>) -> Token,
    context: Seq<Token>,
    draft: Seq<Token>,
    i: nat,
    eos: Token,
    max_tokens: nat,
) -> (SessionView, Option<StopReason>)
    decreases draft.len() + 1 - i,
    when i <= draft.len()
{
    let verdict = greedy_verdict(m, context, draft, i);
    match v.next(verdict, eos, max_tokens) {
        Next::Done(stop) => (v.answered(verdict), stop),
        Next::More => if i < draft.len() {
            greedy_round(v.answered(verdict), m, context, draft, i + 1, eos, max_tokens)
        } else {
            (v.answered(verdict), None)
        },
    }
}

/// Speculative decoding produces exactly what plain greedy decoding produces, whatever
/// was guessed: a round leaves the context that some number of plain steps leave, it
/// stops where they would stop, and it takes at least one step.
pub proof fn speculation_equals_greedy_decoding(
    v: SessionView,
    m: spec_fn(Seq<Token>) -> Token,
    draft: Seq<Token>,
    eos: Token,
    max_tokens: nat,
)
    requires
        v.wf(),
        v.generated() < max_tokens,
    ensures
        ({
            let (w, stop) = greedy_round(v, m, v.context, draft, 0, eos, max_tokens);
            let n = (w.context.len() - v.context.len()) as nat;
            &&& 1 <= n <= draft.len() + 1
            &&& w == (SessionView { context: plain(m, v.context, n), ..v })
            &&& forall|k: nat| 1 <= k < n ==> (#[trigger] plain(m, v.context, k)).last() != eos
            &&& stop == Some(StopReason::Eos) <==> w.context.last() == eos
            &&& stop == Some(StopReason::Length) ==> w.generated() == max_tokens
            &&& w.generated() <= max_tokens
        }),
{
    assert(v.context + draft.take(0) =~= v.context);
    assert(SessionView { context: v.context, ..v } =~= v);
    round_from(v, v, m, draft, 0, eos, max_tokens);
}

proof fn round_from(
    start: SessionView,
    v: SessionView,
    m: spec_fn(Seq<Token>) -> Token,
    draft: Seq<Token>,
    i: nat,
    eos: Token,
    max_tokens: nat,
)
    requires
        start.wf(),
        i <= draft.len(),
        v == (SessionView { context: plain(m, start.context, i), ..start }),
        v.context == start.context + draft.take(i as int),
        v.generated() < max_tokens,
        forall|k: nat| 1 <= k <= i ==> (#[trigger] plain(m, start.context, k)).last() != eos,
    ensures
        ({
            let (w, stop) = greedy_round(v, m, start.context, draft, i, eos, max_tokens);
            let n = (w.context.len() - start.context.len()) as nat;
            &&& i + 1 <= n <= draft.len() + 1
            &&& w == (SessionView { context: plain(m, start.context, n), ..start })
            &&& forall|k: nat| 1 <= k < n ==> (#[trigger] plain(m, start.context, k)).last() != eos
            &&& stop == Some(StopReason::Eos) <==> w.context.last() == eos
            &&& stop == Some(StopReason::Length) ==> w.generated() == max_tokens
            &&& w.generated() <= max_tokens
        }),
    decreases draft.len() - i,
{
    let verdict = greedy_verdict(m, start.context, draft, i);
    let token = m(start.context + draft.take(i as int));
    let after = v.answered(verdict);
    assert(plain(m, start.context, i + 1) == v.context.push(token));
    assert(after == (SessionView { context: plain(m, start.context, i + 1), ..start }));
    assert(draft.take(i as int).len() == i);
    match v.next(verdict, eos, max_tokens) {
        Next::Done(_) => {},
        Next::More => {
            assert(i < draft.len() && token == draft[i as int]);
            assert(after.context =~= start.context + draft.take(i as int + 1));
            assert(plain(m, start.context, i + 1).last() == token);
            round_from(start, after, m, draft, i + 1, eos, max_tokens);
        },
    }
}

/// Where the stretches of a prefill end, each taking `step` tokens, from `consumed` on.
pub open spec fn stretches(consumed: nat, prefix_len: nat, step: nat) -> Seq<nat>
    decreases prefix_len - consumed,
    when consumed <= prefix_len && step > 0
{
    if consumed == prefix_len {
        Seq::empty()
    } else {
        let target = (consumed + runtime::lesser(prefix_len - consumed, step as int)) as nat;
        seq![target] + stretches(target, prefix_len, step)
    }
}

/// A prompt that goes in a piece at a time goes in once and whole: every stretch goes
/// further than the one before it, and the last one ends where the prefix ends.
pub proof fn chunked_prefill_absorbs_the_prefix_once(consumed: nat, prefix_len: nat, step: nat)
    requires
        consumed < prefix_len,
        step > 0,
    ensures
        stretches(consumed, prefix_len, step).len() > 0,
        stretches(consumed, prefix_len, step)[0] > consumed,
        stretches(consumed, prefix_len, step).last() == prefix_len,
        forall|i: int|
            0 <= i < stretches(consumed, prefix_len, step).len() - 1 ==> stretches(
                consumed,
                prefix_len,
                step,
            )[i] < #[trigger] stretches(consumed, prefix_len, step)[i + 1],
    decreases prefix_len - consumed,
{
    let target = (consumed + runtime::lesser(prefix_len - consumed, step as int)) as nat;
    let rest = stretches(target, prefix_len, step);
    let all = stretches(consumed, prefix_len, step);
    assert(all =~= seq![target] + rest);
    if target < prefix_len {
        chunked_prefill_absorbs_the_prefix_once(target, prefix_len, step);
        assert(all.last() == rest.last());
        assert forall|i: int| 0 <= i < all.len() - 1 implies all[i] < #[trigger] all[i + 1] by {
            if i == 0 {
                assert(all[1] == rest[0]);
            } else {
                assert(all[i + 1] == rest[i - 1 + 1]);
                assert(all[i] == rest[i - 1]);
            }
        }
    }
}

/// A step that is refused reports the reason and touches nothing but the mark that
/// the session is finished.
pub proof fn finished_sessions_stay_finished(v: SessionView, max_tokens: nat, max_context: nat)
    requires
        v.wf(),
        v.due(max_tokens, max_context) is Some,
    ensures
        v.polled(max_tokens, max_context).finished,
        v.polled(max_tokens, max_context).context == v.context,
        v.polled(max_tokens, max_context).seq == v.seq,
        v.polled(max_tokens, max_context).due(max_tokens, max_context) == Some(StopReason::Length),
{
}

/// No sequence of steps generates more than `max_tokens` tokens: a session that may
/// run has room for one more, and a step adds at most one.
pub proof fn output_is_bounded_by_max_tokens(
    v: SessionView,
    drawn: Option<Token>,
    eos: Token,
    max_tokens: nat,
    max_context: nat,
)
    requires
        v.wf(),
        v.due(max_tokens, max_context) is None,
    ensures
        v.stepped(drawn, eos).generated() <= max_tokens,
        v.stepped(drawn, eos).context.len() <= max_context,
        v.stepped(drawn, eos).wf(),
{
}

/// Closing a round leaves one cache position fewer than there are tokens, where the
/// pass had consumed at least that many.
pub proof fn closed_round_is_aligned(v: SessionView)
    requires
        v.wf(),
        v.closes(),
        v.context.len() > 0,
        v.seq.len() >= v.context.len() - 1,
    ensures
        v.seq.cut((v.context.len() - 1) as nat).len() == v.context.len() - 1,
{
}

/// A guess from the context is what followed the latest earlier passage that reads as the
/// context ends, as much of it as may be guessed; and there is a guess wherever there is such
/// a passage.
pub proof fn guesses_continue_the_latest_passage(
    context: Seq<Token>,
    max_tokens: nat,
    ngram: nat,
    draft: Seq<Token>,
    at: int,
)
    requires
        runtime::is_draft(context, max_tokens, ngram, draft),
        max_tokens > 0,
        ngram > 0,
        0 <= at < context.len() - ngram,
        context.subrange(at, at + ngram) == context.skip(context.len() - ngram),
    ensures
        draft.len() > 0,
        draft.len() <= max_tokens,
        exists|start: int|
            at <= start < context.len() - ngram && #[trigger] context.subrange(start, start + ngram)
                == context.skip(context.len() - ngram) && draft == context.subrange(
                start + ngram,
                start + ngram + draft.len(),
            ) && (draft.len() == max_tokens || start + ngram + draft.len() == context.len()),
{
    assert(context.skip(context.len() - ngram) =~= context.subrange(
        context.len() - ngram,
        context.len() as int,
    ));
    assert(runtime::echoes(context, ngram as int, at));
    assert(!runtime::no_guess(context, max_tokens, ngram));
    let start = choose|start: int|
        {
            &&& #[trigger] runtime::is_latest_echo(context, ngram as int, start)
            &&& draft.len() == runtime::lesser(max_tokens as int, context.len() - start - ngram)
            &&& draft == context.subrange(start + ngram, start + ngram + draft.len())
        };
    assert(runtime::is_latest_echo(context, ngram as int, start));
    assert(start >= at);
    assert(context.subrange(start, start + ngram) == context.skip(context.len() - ngram));
}

/// Where no earlier passage reads as the context ends there is no guess.
pub proof fn no_passage_no_guess(
    context: Seq<Token>,
    max_tokens: nat,
    ngram: nat,
    draft: Seq<Token>,
)
    requires
        runtime::is_draft(context, max_tokens, ngram, draft),
        forall|at: int|
            0 <= at < context.len() - ngram ==> #[trigger] context.subrange(at, at + ngram)
                != context.skip(context.len() - ngram),
    ensures
        draft.len() == 0,
{
    if !runtime::no_guess(context, max_tokens, ngram) {
        assert(context.skip(context.len() - ngram) =~= context.subrange(
            context.len() - ngram,
            context.len() as int,
        ));
        let start = choose|start: int| runtime::echoes(context, ngram as int, start);
        assert(runtime::echoes(context, ngram as int, start));
        assert(context.subrange(start, start + ngram) != context.skip(context.len() - ngram));
    }
}

/// What guessing gains is an average of what each round won: seven tenths of it are old and
/// three are new, each as near as a number comes to that. A round wins what it produced beyond
/// the one token that a round without a guess produces, and one that guessed nothing counts for
/// nothing.
pub proof fn gains_follow_what_was_won(v: SessionView, guessed: nat, produced: nat, stopped: bool)
    ensures
        ({
            let all = if stopped {
                produced + 1
            } else {
                produced
            };
            let won = if all == 0 {
                0
            } else {
                (all - 1) as nat
            };
            let after = v.scored(guessed, produced, stopped);
            &&& guessed == 0 ==> after == v
            &&& guessed > 0 ==> after == (SessionView {
                spec_gain: double::at_most_largest(
                    double::sum(
                        double::product(v.spec_gain, runtime::old_part()),
                        double::product(double::rounded(won, 0), runtime::new_part()),
                    ),
                ),
                ..v
            })
        }),
        double_laws::near(7 * pow2(53) as int, 10, runtime::old_part(), 53),
        double_laws::near(3 * pow2(54) as int, 10, runtime::new_part(), 54),
        double_laws::near(35 * pow2(54) as int, 100, runtime::worth_it(), 54),
        double::is_full(runtime::old_part()),
        double::is_full(runtime::new_part()),
        double::is_full(runtime::worth_it()),
{
    lemma2_to64();
    lemma2_to64_rest();
    let unit = 100 * pow2(0);
    assert(unit == 100 && 35 * pow2(54) == 630_503_947_831_869_440);
    assert(runtime::worth_it().0 * unit == 630_503_947_831_869_400);
}

/// A session stops for its length once it is finished or has generated as many tokens as it
/// may, and otherwise for the context once that is full; where none of this holds it runs on. A
/// token that is drawn goes behind the context, and one that ends the text ends the session.
pub proof fn sessions_stop_when_they_must(
    v: SessionView,
    drawn: Option<Token>,
    eos: Token,
    max_tokens: nat,
    max_context: nat,
)
    requires
        v.prompt_len <= v.context.len(),
    ensures
        v.due(max_tokens, max_context) is None <==> !v.finished && v.context.len() < v.prompt_len
            + max_tokens && v.context.len() < max_context,
        v.due(max_tokens, max_context) == Some(StopReason::ContextFull) <==> !v.finished
            && v.context.len() < v.prompt_len + max_tokens && v.context.len() >= max_context,
        drawn matches Some(t) ==> v.stepped(drawn, eos).context == v.context.push(t)
            && v.stepped(drawn, eos).finished == (v.finished || t == eos),
        drawn is None ==> v.stepped(drawn, eos).context == v.context && v.stepped(
            drawn,
            eos,
        ).finished,
        SessionView::step_result(drawn, eos) is Ok <==> drawn is Some && drawn != Some(eos),
        SessionView::step_result(drawn, eos) matches Ok(t) ==> drawn == Some(t),
        drawn == Some(eos) ==> SessionView::step_result(drawn, eos) == Err::<Token, StopReason>(
            StopReason::Eos,
        ),
{
}

} // verus!
