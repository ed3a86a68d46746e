use garuda::attention::{attend, Attention};
use garuda::cache::kv::{KVCacheState, KvConfig};
use garuda::types::{GarudaError, ModelDims, StorageBackend};
use std::sync::atomic::AtomicUsize;
use std::sync::atomic::Ordering::Relaxed;
use std::sync::Arc;

/// Projection matrices, row-major.
struct Weights {
    wq: Vec<f32>,
    wk: Vec<f32>,
    wv: Vec<f32>,
    wo: Vec<f32>,
}

fn weights(d: usize) -> Weights {
    let m = |k: usize| -> Vec<f32> {
        (0..d * d)
            .map(|i| (((i * 31 + k * 17) % 97) as f32 / 97.0 - 0.5) * 0.1)
            .collect()
    };
    Weights {
        wq: m(1),
        wk: m(2),
        wv: m(3),
        wo: m(4),
    }
}

fn matvec(m: &[f32], x: &[f32]) -> Vec<f32> {
    m.chunks_exact(x.len())
        .map(|row| row.iter().zip(x).map(|(a, b)| a * b).sum())
        .collect()
}

fn rope(v: &mut [f32], pos: usize, theta: f32) {
    let n = v.len();
    for i in 0..n / 2 {
        let angle = pos as f32 / theta.powf(2.0 * i as f32 / n as f32);
        let (sin, cos) = angle.sin_cos();
        let (a, b) = (v[2 * i], v[2 * i + 1]);
        v[2 * i] = a * cos - b * sin;
        v[2 * i + 1] = a * sin + b * cos;
    }
}

fn bits(v: &[f32]) -> Vec<u32> {
    v.iter().map(|x| x.to_bits()).collect()
}

fn floats(v: &[u32]) -> Vec<f32> {
    v.iter().map(|&x| f32::from_bits(x)).collect()
}

/// One step of attention: the library checks, stores and says what to read; the arithmetic
/// is here.
fn forward(
    attn: &Attention,
    x: &[f32],
    w: &Weights,
    kv: &mut KVCacheState,
) -> Result<Vec<f32>, GarudaError> {
    attn.check_input(x.len())?;
    let dims = attn.dims();
    let theta = f32::from_bits(dims.rope_theta_bits);
    let pos = kv.len();
    let (mut q, mut k, v) = (matvec(&w.wq, x), matvec(&w.wk, x), matvec(&w.wv, x));
    for h in 0..dims.n_heads {
        let (a, b) = attn.head_range(h);
        rope(&mut q[a..b], pos, theta);
        rope(&mut k[a..b], pos, theta);
    }
    let (start, end) = attend(kv, &bits(&k), &bits(&v))?;
    let mut ctx = vec![0.0f32; x.len()];
    for h in 0..dims.n_heads {
        let (a, b) = attn.head_range(h);
        let scores: Vec<f32> = (start..end)
            .map(|p| {
                let key = floats(&kv.key_at(p).unwrap()[a..b]);
                let dot: f32 = q[a..b].iter().zip(&key).map(|(x, y)| x * y).sum();
                dot / (dims.head_dim as f32).sqrt()
            })
            .collect();
        let top = scores.iter().cloned().fold(f32::NEG_INFINITY, f32::max);
        let exps: Vec<f32> = scores.iter().map(|s| (s - top).exp()).collect();
        let total: f32 = exps.iter().sum();
        for (p, e) in (start..end).zip(&exps) {
            let value = floats(&kv.value_at(p).unwrap()[a..b]);
            for (c, v) in ctx[a..b].iter_mut().zip(&value) {
                *c += e / total * v;
            }
        }
    }
    Ok(matvec(&w.wo, &ctx))
}

fn cfg(dims: ModelDims, sliding_window: Option<usize>) -> KvConfig {
    KvConfig::mha(dims, 256, 64, sliding_window, None)
}

fn setup() -> (Attention, Weights, KVCacheState) {
    let dims = ModelDims::default();
    (
        Attention::new(dims).unwrap(),
        weights(dims.d_model),
        KVCacheState::new(&cfg(dims, None), 1),
    )
}

#[test]
fn rejects_wrong_width_instead_of_panicking() {
    let (attn, w, mut kv) = setup();
    assert!(matches!(
        forward(&attn, &[], &w, &mut kv).unwrap_err(),
        GarudaError::Inference(_)
    ));
    assert!(matches!(
        forward(&attn, &[1.0, 2.0], &w, &mut kv).unwrap_err(),
        GarudaError::Inference(_)
    ));
    assert_eq!(kv.len(), 0, "a rejected call must not touch the cache");
}

#[test]
fn appends_exactly_one_position_per_call_and_stays_finite() {
    let (attn, w, mut kv) = setup();
    let d = attn.dims().d_model;
    for step in 0..5 {
        let x: Vec<f32> = (0..d).map(|i| ((step + i) as f32).sin()).collect();
        let out = forward(&attn, &x, &w, &mut kv).unwrap();
        assert_eq!(out.len(), d);
        assert!(out.iter().all(|v| v.is_finite()));
        assert_eq!(kv.len(), step + 1);
    }
}

#[test]
fn first_token_attends_only_to_itself() {
    // With a single position, softmax over one score is exactly 1.0, so the
    // context is that token's own value vector: out == Wo · (Wv · x).
    let (attn, w, mut kv) = setup();
    let d = attn.dims().d_model;
    let x: Vec<f32> = (0..d).map(|i| (i as f32 * 0.05).cos()).collect();

    let got = forward(&attn, &x, &w, &mut kv).unwrap();
    let expect = matvec(&w.wo, &matvec(&w.wv, &x));

    for (a, b) in got.iter().zip(expect.iter()) {
        assert!((a - b).abs() < 1e-4, "{a} vs {b}");
    }
}

#[test]
fn is_causal_earlier_output_is_unaffected_by_later_tokens() {
    let dims = ModelDims::default();
    let d = dims.d_model;
    let attn = Attention::new(dims).unwrap();
    let w = weights(d);
    let inputs: Vec<Vec<f32>> = (0..4)
        .map(|s| (0..d).map(|i| ((s * 7 + i) as f32 * 0.03).sin()).collect())
        .collect();

    let mut kv_a = KVCacheState::new(&cfg(dims, None), 1);
    forward(&attn, &inputs[0], &w, &mut kv_a).unwrap();
    let short = forward(&attn, &inputs[1], &w, &mut kv_a).unwrap();

    // Run all four. Token 1's output must be identical: a causal model cannot
    // see positions 2 and 3 from position 1.
    let mut kv_b = KVCacheState::new(&cfg(dims, None), 2);
    forward(&attn, &inputs[0], &w, &mut kv_b).unwrap();
    let long = forward(&attn, &inputs[1], &w, &mut kv_b).unwrap();
    forward(&attn, &inputs[2], &w, &mut kv_b).unwrap();
    forward(&attn, &inputs[3], &w, &mut kv_b).unwrap();

    for (a, b) in short.iter().zip(long.iter()) {
        assert!((a - b).abs() < 1e-6, "causality violated: {a} vs {b}");
    }
}

#[test]
fn sliding_window_bounds_the_attended_range() {
    let dims = ModelDims::default();
    let d = dims.d_model;
    let attn = Attention::new(dims).unwrap();
    let w = weights(d);

    let x: Vec<f32> = (0..d).map(|i| (i as f32 * 0.02).sin()).collect();
    let mut windowed = KVCacheState::new(&cfg(dims, Some(2)), 1);
    let mut full = KVCacheState::new(&cfg(dims, None), 2);

    for _ in 0..6 {
        assert!(forward(&attn, &x, &w, &mut windowed)
            .unwrap()
            .iter()
            .all(|v| v.is_finite()));
        assert!(forward(&attn, &x, &w, &mut full)
            .unwrap()
            .iter()
            .all(|v| v.is_finite()));
    }
    assert_eq!(
        windowed.attention_start(),
        4,
        "window of 2 over 6 positions"
    );
    assert_eq!(full.attention_start(), 0);
}

#[test]
fn dimensions_that_do_not_add_up_are_refused() {
    let mut dims = ModelDims::default();
    dims.head_dim = 31;
    assert_eq!(
        Attention::new(dims).unwrap_err().message(),
        "configuration error: n_heads * head_dim (4 * 31) must equal d_model (128)"
    );
    // Wider heads are a shape that a model may have, but not one that tiles its width.
    dims.head_dim = 64;
    assert!(dims.validate().is_ok());
    assert!(Attention::new(dims).is_err());
    dims.head_dim = 32;
    dims.top_k = 9;
    assert_eq!(
        Attention::new(dims).unwrap_err().message(),
        "configuration error: top_k (9) must be in 1..=8"
    );
    dims.top_k = 1;
    dims.block_size = 0;
    assert_eq!(
        Attention::new(dims).unwrap_err().message(),
        "configuration error: block_size must be non-zero"
    );
}

/// A tier that takes a number of writes, and gives nothing back.
struct Tray(AtomicUsize);

impl StorageBackend for Tray {
    fn read(&self, path: &str) -> Result<Vec<u8>, GarudaError> {
        Err(GarudaError::Storage(format!("no {path}")))
    }

    fn write(&self, path: &str, _: &[u8]) -> Result<(), GarudaError> {
        if self.0.load(Relaxed) == 0 {
            return Err(GarudaError::Storage(format!("no room for {path}")));
        }
        self.0.fetch_sub(1, Relaxed);
        Ok(())
    }

    fn remove(&self, _: &str) -> Result<(), GarudaError> {
        Ok(())
    }

    fn holds(&self, _: &str) -> bool {
        false
    }
}

/// A token is in the cache whatever storage says, and the error is storage's.
#[test]
fn attention_reports_what_storage_refuses() {
    let d = ModelDims {
        block_size: 2,
        ..ModelDims::default()
    };
    let row = vec![1u32; d.d_model];
    let state = |room: usize| {
        let tray = Arc::new(Tray(AtomicUsize::new(room)));
        KVCacheState::new(&KvConfig::mha(d, 16, 1, None, Some(tray)), 1)
    };
    let message = |r: Result<(usize, usize), GarudaError>| r.unwrap_err().message();
    // No room for the first block: it stays where it is.
    let mut kv = state(0);
    assert_eq!(attend(&mut kv, &row, &row).unwrap(), (0, 1));
    assert_eq!(attend(&mut kv, &row, &row).unwrap(), (0, 2));
    assert!(message(attend(&mut kv, &row, &row)).contains("no room for"));
    assert_eq!((kv.len(), kv.spill_count()), (3, 0));
    assert!(kv.key_at(0).is_some() && kv.key_at(2).is_some());
    // Room for it, but it does not come back.
    let mut kv = state(1);
    attend(&mut kv, &row, &row).unwrap();
    attend(&mut kv, &row, &row).unwrap();
    assert!(message(attend(&mut kv, &row, &row)).contains("no kv/seq_1/layer_0/block_0.bin"));
    assert_eq!((kv.len(), kv.spill_count(), kv.reload_count()), (3, 1, 0));
    assert!(kv.key_at(0).is_none() && kv.key_at(2).is_some());
    // Without storage nothing can go wrong.
    let mut kv = KVCacheState::new(&KvConfig::mha(d, 16, 1, None, None), 1);
    for n in 1..=16 {
        assert_eq!(attend(&mut kv, &row, &row).unwrap(), (0, n));
    }
}
