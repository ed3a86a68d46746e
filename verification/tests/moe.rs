use garuda::cache::kv::{KVCacheState, KvConfig};
use garuda::forward::{plan_batch, BatchPlan, ModelSide, Pass, SequenceSide};
use garuda::moe::{check_expert, check_token, observe_step, unseen};
use garuda::predictor::ExpertPredictor;
use garuda::prefetch::PrefetchEngine;
use garuda::router::{Router, RouterType};
use garuda::routing::{global_ids, members, top_experts};
use garuda::types::{Expert, GarudaError, ModelDims, Token};

#[test]
fn empty_context_is_an_error() {
    assert!(matches!(
        unseen(&[], 0).unwrap_err(),
        GarudaError::Inference(_)
    ));
}

#[test]
fn out_of_vocab_token_is_an_error_not_a_panic() {
    let dims = ModelDims::default();
    let bad = dims.vocab_size as Token + 5;
    assert!(matches!(
        check_token(bad, dims.vocab_size).unwrap_err(),
        GarudaError::InvalidToken(_)
    ));
    assert!(check_token(dims.vocab_size as Token - 1, dims.vocab_size).is_ok());
}

#[test]
fn only_unseen_tokens_are_consumed() {
    assert_eq!(unseen(&[1, 2, 3], 0).unwrap(), vec![1, 2, 3]);
    assert_eq!(
        unseen(&[1, 2, 3, 4], 3).unwrap(),
        vec![4],
        "only the new token should be processed"
    );
    // Re-asking for a context the cache has fully absorbed is an error, not a
    // silent recompute against a stale cache.
    assert_eq!(
        unseen(&[1, 2, 3, 4], 4).unwrap_err().message(),
        "inference error: no new tokens to process for this context"
    );
    assert_eq!(
        unseen(&[1], 4).unwrap_err().message(),
        "inference error: sequence state holds 4 positions but the context is only 1 long"
    );
}

#[test]
fn only_top_k_experts_are_loaded_per_token() {
    // A token must not pull the whole layer into RAM.
    let dims = ModelDims::default();
    let r = Router::new(RouterType::Mixtral, dims.n_experts, dims.top_k);
    for token in 0..dims.vocab_size as Token {
        assert_eq!(r.route(token).len(), dims.top_k);
    }
}

#[test]
fn an_expert_of_the_wrong_shape_is_refused() {
    let dims = ModelDims::default();
    let n = dims.d_ff * dims.d_model;
    let mut e = Expert {
        id: 6,
        gate: vec![0; n],
        up: vec![0; n],
        down: vec![0; n],
        dims,
    };
    assert!(check_expert(&e, &dims).is_ok());
    e.up.pop();
    assert_eq!(
        check_expert(&e, &dims).unwrap_err().message(),
        "model error: expert 6 has tensors of size (32768, 32767, 32768) but dims require \
         (32768, 32768, 32768)"
    );
}

#[test]
fn a_step_is_learnt_from_and_its_guess_is_kept() {
    let dims = ModelDims::default();
    let mut kv = KVCacheState::new(&KvConfig::mha(dims, 8, 4, None, None), 1);
    let mut pf = PrefetchEngine::new(ExpertPredictor::new(8), true, 1);
    assert!(observe_step(&mut kv, &mut pf, vec![0]).is_empty());
    assert!(observe_step(&mut kv, &mut pf, vec![1]).is_empty());
    assert_eq!(observe_step(&mut kv, &mut pf, vec![0]), vec![1]);
    assert_eq!(kv.last_experts, vec![0]);
    assert_eq!(kv.last_predicted, vec![1]);
    observe_step(&mut kv, &mut pf, vec![1]);
    assert_eq!(pf.predictor_stats().correct, 1);
}

#[test]
fn the_best_experts_are_chosen_and_tokens_grouped_by_them() {
    let scores: Vec<u32> = [0.1f32, 3.0, -1.0, 3.0, 2.0]
        .iter()
        .map(|x| x.to_bits())
        .collect();
    assert_eq!(top_experts(&scores, 3), vec![1, 3, 4]);
    assert_eq!(top_experts(&scores, 9).len(), 5);
    let routed = vec![vec![1usize, 3], vec![3, 0]];
    let by_expert = members(&routed, 4);
    let shape: Vec<Vec<(usize, usize)>> = by_expert
        .iter()
        .map(|m| m.iter().map(|x| (x.token, x.choice)).collect())
        .collect();
    assert_eq!(
        shape,
        vec![vec![(1, 1)], vec![(0, 0)], vec![], vec![(0, 1), (1, 0)]]
    );
    assert_eq!(global_ids(2, 4, &[1, 3]), vec![9, 11]);
}

fn model(chunk: usize) -> ModelSide {
    ModelSide {
        n_layers: 2,
        vocab: 10,
        chunk,
        kv_layers: true,
    }
}

fn sequence(len: usize, max_positions: usize) -> SequenceSide {
    SequenceSide {
        len,
        n_layers: 2,
        max_positions,
    }
}

#[test]
fn a_pass_takes_the_new_tokens_in_chunks() {
    let context: Vec<Token> = (0..7).collect();
    let mut p = Pass::begin(&context, sequence(2, 16), model(2), 1).unwrap();
    let mut seen = Vec::new();
    while let Some(chunk) = p.next_chunk().unwrap() {
        assert!(chunk.len() <= 2);
        seen.extend(chunk);
    }
    assert_eq!(seen, vec![2, 3, 4, 5, 6]);
    assert_eq!(p.finish().unwrap(), 1);
}

#[test]
fn context_window_exhaustion_is_an_error_not_a_panic() {
    let err = Pass::begin(&[1, 2, 3], sequence(0, 2), model(4), 1).unwrap_err();
    assert!(matches!(err, GarudaError::Cache(_)), "got {err:?}");
}

#[test]
fn a_pass_stops_at_a_token_outside_the_vocabulary() {
    let mut p = Pass::begin(&[1, 10], sequence(0, 8), model(4), 1).unwrap();
    assert_eq!(p.next_chunk(), Err(GarudaError::InvalidToken(10)));
}

#[test]
fn a_ragged_batch_is_run_one_by_one() {
    let plan = |contexts: &[Vec<Token>], seqs: &[SequenceSide]| {
        plan_batch(contexts, seqs, model(4))
    };
    let one = vec![1, 2, 3];
    let two = vec![4, 5];
    let BatchPlan::Together(tokens) = plan(
        &[one.clone(), two.clone()],
        &[sequence(2, 8), sequence(1, 8)],
    )
    .unwrap() else {
        panic!("not together");
    };
    assert_eq!(tokens, vec![3, 5]);
    assert!(matches!(
        plan(
            &[one.clone(), two.clone()],
            &[sequence(0, 8), sequence(1, 8)]
        ),
        Ok(BatchPlan::OneByOne)
    ));
    assert!(matches!(
        plan(&[one.clone()], &[sequence(2, 8)]),
        Ok(BatchPlan::OneByOne)
    ));
    assert_eq!(
        plan(&[one.clone()], &[]).unwrap_err().message(),
        "inference error: logits_batch got 1 contexts for 0 sequences"
    );
    assert_eq!(
        plan(
            &[one.clone(), vec![4, 99]],
            &[sequence(2, 8), sequence(1, 8)]
        )
        .unwrap_err(),
        GarudaError::InvalidToken(99)
    );
    assert_eq!(
        plan(&[one, two], &[sequence(2, 8), sequence(1, 1)])
            .unwrap_err()
            .message(),
        "cache error: context window of 1 positions is exhausted"
    );
}
