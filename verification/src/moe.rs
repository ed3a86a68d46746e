//! The mixture-of-experts block: what is checked before a pass, and what the shape of an
//! expert must be. Only the experts that a token routes to are ever pulled into RAM for
//! it.

use crate::cache::kv::{KVCacheState, KvView};
use crate::prefetch::{PrefetchEngine, PrefetchView};
use crate::text;
use crate::text::{push_number, push_size};
use crate::types::{Expert, ExpertId, Fault, GarudaError, ModelDims, Token};
use vstd::prelude::*;
use vstd::slice::{slice_subrange, slice_to_vec};
use vstd::string::*;

verus! {

pub open spec fn shape_message(e: Expert, plane: nat) -> Seq<char> {
    "expert "@ + text::decimal(e.id as nat) + " has tensors of size ("@ + text::decimal(
        e.gate@.len(),
    ) + ", "@ + text::decimal(e.up@.len()) + ", "@ + text::decimal(e.down@.len())
        + ") but dims require ("@ + text::decimal(plane) + ", "@ + text::decimal(plane) + ", "@
        + text::decimal(plane) + ")"@
}

/// Why an expert does not fit the model, if so.
pub open spec fn expert_fault(e: Expert, dims: ModelDims) -> Option<Fault> {
    let plane = dims.d_ff * dims.d_model;
    if e.gate@.len() != plane || e.up@.len() != plane || e.down@.len() != plane {
        Some(Fault::Model(shape_message(e, plane as nat)))
    } else {
        None
    }
}

/// Checks an expert's shape against the model's, so that a checkpoint whose tensors
/// disagree with the configuration is an error here and not a wrong result deeper in.
pub fn check_expert(e: &Expert, dims: &ModelDims) -> (r: Result<(), GarudaError>)
    requires
        dims.d_ff * dims.d_model <= usize::MAX,
    ensures
        match r {
            Ok(_) => expert_fault(*e, *dims) is None,
            Err(err) => expert_fault(*e, *dims) matches Some(f) && f.is(err),
        },
        r is Ok <==> e.gate@.len() == dims.d_ff * dims.d_model && e.up@.len() == dims.d_ff
            * dims.d_model && e.down@.len() == dims.d_ff * dims.d_model,
{
    assert(dims.d_ff * dims.d_model >= 0) by (nonlinear_arith);
    let plane: usize = dims.d_ff * dims.d_model;
    if e.gate.len() != plane || e.up.len() != plane || e.down.len() != plane {
        let mut m = "expert ".to_owned();
        push_number(&mut m, e.id as u64);
        m.append(" has tensors of size (");
        push_size(&mut m, e.gate.len());
        m.append(", ");
        push_size(&mut m, e.up.len());
        m.append(", ");
        push_size(&mut m, e.down.len());
        m.append(") but dims require (");
        push_size(&mut m, plane);
        m.append(", ");
        push_size(&mut m, plane);
        m.append(", ");
        push_size(&mut m, plane);
        m.append(")");
        return Err(GarudaError::Model(m));
    }
    Ok(())
}

/// Why a pass cannot start, if so.
pub open spec fn start_fault(context: Seq<Token>, already: nat) -> Option<Fault> {
    if context.len() == 0 {
        Some(Fault::Inference("empty context"@))
    } else if already > context.len() {
        Some(
            Fault::Inference(
                "sequence state holds "@ + text::decimal(already)
                    + " positions but the context is only "@ + text::decimal(context.len())
                    + " long"@,
            ),
        )
    } else if already == context.len() {
        Some(Fault::Inference("no new tokens to process for this context"@))
    } else {
        None
    }
}

/// The tokens that a sequence which holds `already` positions has not seen: the whole
/// prompt on a fresh one, exactly one on each decode step.
pub fn unseen(context: &[Token], already: usize) -> (r: Result<Vec<Token>, GarudaError>)
    ensures
        match r {
            Ok(new) => start_fault(context@, already as nat) is None && new@ == context@.skip(
                already as int,
            ),
            Err(e) => start_fault(context@, already as nat) matches Some(f) && f.is(e),
        },
        r is Ok <==> already < context@.len(),
{
    if context.len() == 0 {
        return Err(GarudaError::Inference("empty context".to_owned()));
    }
    if already > context.len() {
        let mut m = "sequence state holds ".to_owned();
        push_size(&mut m, already);
        m.append(" positions but the context is only ");
        push_size(&mut m, context.len());
        m.append(" long");
        return Err(GarudaError::Inference(m));
    }
    if already == context.len() {
        return Err(GarudaError::Inference("no new tokens to process for this context".to_owned()));
    }
    let new = slice_to_vec(slice_subrange(context, already, context.len()));
    assert(new@ =~= context@.skip(already as int));
    Ok(new)
}

/// Refuses a token that the model has no row for.
pub fn check_token(token: Token, vocab: usize) -> (r: Result<(), GarudaError>)
    ensures
        match r {
            Ok(_) => token < vocab,
            Err(e) => token >= vocab && Fault::InvalidToken(token).is(e),
        },
{
    if token as u64 >= vocab as u64 {
        Err(GarudaError::InvalidToken(token))
    } else {
        Ok(())
    }
}

/// Learns from a step in which `used` fired, and gives the experts that the next one
/// probably needs, each to be warmed. This is advisory: whatever is predicted, the next
/// step loads what it routes to.
pub fn observe_step(kv: &mut KVCacheState, prefetch: &mut PrefetchEngine, used: Vec<ExpertId>) -> (
predicted: Vec<ExpertId>)
    requires
        old(prefetch).wf(),
    ensures
        final(prefetch).wf(),
        final(kv)@ == (KvView {
            last_experts: used@,
            last_predicted: predicted@,
            ..old(kv)@
        }),
        final(prefetch)@ == (PrefetchView {
            predictor: final(prefetch)@.predictor,
            ..old(prefetch)@
        }),
        if old(prefetch)@.enabled {
            &&& old(prefetch)@.learned(
                old(kv)@.last_experts,
                used@,
                old(kv)@.last_predicted,
                final(prefetch)@.predictor,
            )
            &&& final(prefetch)@.predictor.predicts(used@, old(prefetch)@.depth, predicted@)
        } else {
            final(prefetch)@ == old(prefetch)@ && predicted@.len() == 0
        },
{
    let (last, guessed) = kv.noted();
    let predicted = prefetch.observe_step(last.as_slice(), used.as_slice(), guessed.as_slice());
    let kept = slice_to_vec(predicted.as_slice());
    kv.note_predicted(kept);
    kv.note_experts(used);
    predicted
}

/// Feeding a context one token at a time consumes the same tokens as feeding it whole:
/// what is unseen after `a` positions is what is unseen up to `b`, and next from `b` on.
pub proof fn piecewise_consumes_the_same_tokens(context: Seq<Token>, a: nat, b: nat)
    requires
        a < b < context.len(),
    ensures
        start_fault(context.take(b as int), a) is None,
        start_fault(context, b) is None,
        context.take(b as int).skip(a as int) + context.skip(b as int) == context.skip(a as int),
{
    assert(context.take(b as int).skip(a as int) + context.skip(b as int) =~= context.skip(
        a as int,
    ));
}

} // verus!
