//! A tiny hybrid checkpoint, written byte by byte, loaded and run: the arithmetic is
//! here, and everything that is decided comes from the library.

use garuda::config::AppConfig;
use garuda::attention::attend;
use garuda::cache::kv::KvConfig;
use garuda::cache::sequence::SeqState;
use garuda::forward::{plan_batch, BatchPlan, ModelSide, Pass, SequenceSide};
use garuda::gguf::{block_tensor_name, Gguf};
use garuda::llama::loader::LoadError;
use garuda::llama::weight::{Source, Weight};
use garuda::quant;
use garuda::quant::Element;
use garuda::qwen35::block::{
    conv_window, delta_token, key_head_of, kv_head_of, shift_history, split_query_gate,
};
use garuda::qwen35::config::Qwen35Config;
use garuda::qwen35::loader::{Mixer, Qwen35Backend};
use garuda::server::{BuildError, Engine, Warming};
use garuda::types::{GarudaError, Token};

const D: usize = 32;
const N_LAYERS: usize = 4;
const VOCAB: usize = 64;
const D_FF: usize = 32;
const N_HEADS: usize = 4;
const N_KV_HEADS: usize = 2;
const HEAD_DIM: usize = 16;
const N_ROT: usize = 4;
const CONV_KERNEL: usize = 4;
const KEY_HEAD_DIM: usize = 8;
const N_K_HEADS: usize = 2;
const N_V_HEADS: usize = 4;
const INNER: usize = N_V_HEADS * KEY_HEAD_DIM;
const CONV_DIM: usize = 2 * N_K_HEADS * KEY_HEAD_DIM + INNER;
const ATTN_DIM: usize = N_HEADS * HEAD_DIM;
const KV_DIM: usize = N_KV_HEADS * HEAD_DIM;

// ---- arithmetic ----

fn dot(a: &[f32], b: &[f32]) -> f32 {
    a.iter().zip(b).map(|(x, y)| x * y).sum()
}

fn add(a: &mut [f32], b: &[f32], k: f32) {
    a.iter_mut().zip(b).for_each(|(x, y)| *x += y * k);
}

fn softmax(x: &mut [f32]) {
    let max = x.iter().copied().fold(f32::NEG_INFINITY, f32::max);
    let mut sum = 0.0;
    for v in x.iter_mut() {
        *v = (*v - max).exp();
        sum += *v;
    }
    x.iter_mut().for_each(|v| *v /= sum);
}

fn silu(x: f32) -> f32 {
    x / (1.0 + (-x).exp())
}

fn sigmoid(x: f32) -> f32 {
    1.0 / (1.0 + (-x).exp())
}

fn rms(x: &[f32], weight: &[f32], eps: f32) -> Vec<f32> {
    let mean = x.iter().map(|v| v * v).sum::<f32>() / x.len() as f32;
    let scale = 1.0 / (mean + eps).sqrt();
    x.iter().zip(weight).map(|(v, w)| v * scale * w).collect()
}

fn unit(x: &mut [f32]) {
    let scale = 1.0 / (x.iter().map(|v| v * v).sum::<f32>() + 1e-6).sqrt();
    x.iter_mut().for_each(|v| *v *= scale);
}

fn rope_partial(v: &mut [f32], pos: usize, theta: f32, n_rot: usize) {
    let half = n_rot / 2;
    for i in 0..half {
        let freq = 1.0 / theta.powf(2.0 * i as f32 / n_rot as f32);
        let (sin, cos) = (pos as f32 * freq).sin_cos();
        let (a, b) = (v[i], v[i + half]);
        v[i] = a * cos - b * sin;
        v[i + half] = b * cos + a * sin;
    }
}

fn bits(x: &[f32]) -> Vec<u32> {
    x.iter().map(|v| v.to_bits()).collect()
}

fn floats(x: &[u32]) -> Vec<f32> {
    x.iter().map(|v| f32::from_bits(*v)).collect()
}

/// One head's gated delta rule for one token.
fn delta_step(
    s: &mut [f32],
    q: &[f32],
    k: &[f32],
    v: &[f32],
    decay: f32,
    beta: f32,
    q_scale: f32,
) -> Vec<f32> {
    let vh = v.len();
    s.iter_mut().for_each(|x| *x *= decay);
    let mut mem = vec![0.0; vh];
    for (r, kr) in k.iter().enumerate() {
        add(&mut mem, &s[r * vh..(r + 1) * vh], *kr);
    }
    let delta: Vec<f32> = v.iter().zip(&mem).map(|(v, m)| (v - m) * beta).collect();
    for (r, kr) in k.iter().enumerate() {
        add(&mut s[r * vh..(r + 1) * vh], &delta, *kr);
    }
    let mut out = vec![0.0; vh];
    for (r, qr) in q.iter().enumerate() {
        add(&mut out, &s[r * vh..(r + 1) * vh], qr * q_scale);
    }
    out
}

struct Model<'a> {
    plan: Qwen35Backend,
    header: &'a Gguf,
    file: &'a [u8],
}

impl Model<'_> {
    fn cfg(&self) -> &Qwen35Config {
        self.plan.config()
    }

    fn tensor(&self, name: &str) -> Vec<f32> {
        let elements = self.header.tensor_f32(self.file, name).unwrap();
        elements
            .iter()
            .map(|e| match *e {
                Element::Plain(b) => f32::from_bits(b),
                _ => panic!("the fixture holds plain numbers"),
            })
            .collect()
    }

    fn rows(&self, w: &Weight, name: &str, from: usize, n: usize) -> Vec<f32> {
        match *w {
            Weight::Full { cols } => self.tensor(name)[from * cols..(from + n) * cols].to_vec(),
            Weight::Packed { qtype, cols, .. } => {
                let (start, len) = w.row_bytes_range(from, n).unwrap();
                let raw = &self.file[start..start + len];
                quant::dequantize(qtype, raw, n * cols)
                    .unwrap()
                    .iter()
                    .map(|e| match *e {
                        Element::Plain(b) => f32::from_bits(b),
                        _ => panic!("the fixture holds plain numbers"),
                    })
                    .collect()
            }
        }
    }

    fn product(&self, w: &Weight, name: &str, n: usize, x: &[f32]) -> Vec<f32> {
        let m = self.rows(w, name, 0, n);
        m.chunks_exact(x.len()).map(|row| dot(row, x)).collect()
    }

    fn eps(&self) -> f32 {
        f32::from_bits(self.cfg().rms_eps_bits)
    }

    fn attention(&self, l: usize, h: &[f32], seq: &mut SeqState) -> Result<Vec<f32>, GarudaError> {
        let c = self.cfg();
        let Mixer::Attn { wqg, wk, wv, wo } = self.plan.layer(l).mixer else {
            panic!("not an attention block");
        };
        let name = |n: &str| block_tensor_name(l as u64, n);
        let hd = c.head_dim;
        let qg = self.product(&wqg, &name("attn_q"), 2 * c.attn_dim(), h);
        let mut k = self.product(&wk, &name("attn_k"), c.kv_dim(), h);
        let v = self.product(&wv, &name("attn_v"), c.kv_dim(), h);
        let (q, gate) = split_query_gate(&bits(&qg), c.n_heads, hd);
        let (mut q, gate) = (floats(&q), floats(&gate));
        let (qn, kn) = (
            self.tensor(&name("attn_q_norm")),
            self.tensor(&name("attn_k_norm")),
        );
        let theta = f32::from_bits(c.rope_theta_bits);
        let kv = seq.layer(l);
        let pos = kv.len();
        for (heads, w) in [(&mut q, &qn), (&mut k, &kn)] {
            for head in heads.chunks_exact_mut(hd) {
                let normed = rms(head, w, self.eps());
                head.copy_from_slice(&normed);
                rope_partial(head, pos, theta, c.n_rot);
            }
        }
        let (start, end) = attend(kv, &bits(&k), &bits(&v))?;
        let mut context = vec![0.0; c.attn_dim()];
        for head in 0..c.n_heads {
            let shared = kv_head_of(head, c.n_heads, c.n_kv_heads) * hd;
            let mut scores: Vec<f32> = (start..end)
                .map(|j| {
                    let key = floats(&kv.key_at(j).unwrap()[shared..shared + hd]);
                    dot(&q[head * hd..(head + 1) * hd], &key) / (hd as f32).sqrt()
                })
                .collect();
            softmax(&mut scores);
            for (j, p) in (start..end).zip(scores) {
                let value = floats(&kv.value_at(j).unwrap()[shared..shared + hd]);
                add(&mut context[head * hd..(head + 1) * hd], &value, p);
            }
        }
        context.iter_mut().zip(gate).for_each(|(c, g)| *c *= sigmoid(g));
        Ok(self.product(&wo, &name("attn_output"), c.d_model, &context))
    }

    fn delta_net(&self, l: usize, h: &[f32], seq: &mut SeqState) -> Result<Vec<f32>, GarudaError> {
        let c = self.cfg();
        let Mixer::Linear {
            wqkv,
            wz,
            wbeta,
            walpha,
            wout,
        } = self.plan.layer(l).mixer
        else {
            panic!("not a delta net block");
        };
        let name = |n: &str| block_tensor_name(l as u64, n);
        let (kh, vh) = (c.key_head_dim, c.value_head_dim);
        let raw = self.product(&wqkv, &name("attn_qkv"), c.conv_dim(), h);
        let z = self.product(&wz, &name("attn_gate"), c.value_dim(), h);
        let beta = self.product(&wbeta, &name("ssm_beta"), c.n_v_heads, h);
        let alpha = self.product(&walpha, &name("ssm_alpha"), c.n_v_heads, h);
        let conv = self.tensor(&name("ssm_conv1d"));
        let a = self.tensor(&format!("blk.{l}.ssm_a"));
        let dt = self.tensor(&format!("blk.{l}.ssm_dt.bias"));
        let norm = self.tensor(&name("ssm_norm"));

        let windows = delta_token(seq, c, l, &bits(&raw))?;
        let mut y: Vec<f32> = windows
            .iter()
            .zip(conv.chunks_exact(c.conv_kernel))
            .map(|(w, taps)| silu(dot(taps, &floats(w))))
            .collect();
        let (q, rest) = y.split_at_mut(c.key_dim());
        let (k, v) = rest.split_at_mut(c.key_dim());
        q.chunks_exact_mut(kh).for_each(unit);
        k.chunks_exact_mut(kh).for_each(unit);
        let (conv_len, state_len) = c.linear_state_shape();
        let ls = seq.linear(l, conv_len, state_len)?;
        let mut state = floats(&ls.state);
        let mut mixed = Vec::new();
        for hv in 0..c.n_v_heads {
            let hk = key_head_of(hv, c.n_k_heads);
            let decay = (a[hv] * (alpha[hv] + dt[hv]).exp().ln_1p()).exp();
            let out = delta_step(
                &mut state[hv * kh * vh..(hv + 1) * kh * vh],
                &q[hk * kh..(hk + 1) * kh],
                &k[hk * kh..(hk + 1) * kh],
                &v[hv * vh..(hv + 1) * vh],
                decay,
                sigmoid(beta[hv]),
                1.0 / (kh as f32).sqrt(),
            );
            let normed = rms(&out, &norm, self.eps());
            mixed.extend(
                normed
                    .iter()
                    .zip(&z[hv * vh..(hv + 1) * vh])
                    .map(|(x, g)| x * silu(*g)),
            );
        }
        ls.state = bits(&state);
        ls.advance();
        seq.layer(l).append(&[], &[])?;
        Ok(self.product(&wout, &name("ssm_out"), c.d_model, &mixed))
    }

    fn layer(&self, l: usize, x: &mut Vec<f32>, seq: &mut SeqState) -> Result<(), GarudaError> {
        let c = self.cfg();
        let name = |n: &str| block_tensor_name(l as u64, n);
        let h = rms(x, &self.tensor(&name("attn_norm")), self.eps());
        let mixed = if c.recurrent[l] {
            self.delta_net(l, &h, seq)?
        } else {
            self.attention(l, &h, seq)?
        };
        add(x, &mixed, 1.0);
        let h = rms(x, &self.tensor(&name("post_attention_norm")), self.eps());
        let layer = self.plan.layer(l);
        let gate = self.product(&layer.ffn_gate, &name("ffn_gate"), c.d_ff, &h);
        let up = self.product(&layer.ffn_up, &name("ffn_up"), c.d_ff, &h);
        let hidden: Vec<f32> = gate.iter().zip(&up).map(|(g, u)| silu(*g) * u).collect();
        let out = self.product(&layer.ffn_down, &name("ffn_down"), c.d_model, &hidden);
        add(x, &out, 1.0);
        Ok(())
    }

    fn embed(&self, token: Token) -> Vec<f32> {
        self.rows(&self.plan.token_embd(), "token_embd.weight", token as usize, 1)
    }

    fn head(&self, x: &[f32]) -> Vec<f32> {
        let name = if self.plan.has_tied_embeddings() {
            "token_embd.weight"
        } else {
            "output.weight"
        };
        let h = rms(x, &self.tensor("output_norm.weight"), self.eps());
        self.product(&self.plan.output(), name, self.cfg().vocab, &h)
    }

    fn side(&self) -> ModelSide {
        ModelSide {
            n_layers: self.cfg().n_layers,
            vocab: self.cfg().vocab,
            chunk: self.plan.prefill_chunk(),
            kv_layers: false,
        }
    }

    fn logits(&self, context: &[Token], seq: &mut SeqState) -> Result<Vec<f32>, GarudaError> {
        let mut pass = Pass::begin(context, sequence_side(seq), self.side(), 1)?;
        let mut last = Vec::new();
        while let Some(chunk) = pass.next_chunk()? {
            let mut xs: Vec<Vec<f32>> = chunk.iter().map(|t| self.embed(*t)).collect();
            for l in 0..self.cfg().n_layers {
                for x in xs.iter_mut() {
                    self.layer(l, x, seq)?;
                }
            }
            last = xs.pop().unwrap();
        }
        pass.finish()?;
        Ok(self.head(&last))
    }

    fn logits_batch(
        &self,
        contexts: &[Vec<Token>],
        seqs: &mut [&mut SeqState],
    ) -> Result<Vec<Vec<f32>>, GarudaError> {
        let sides: Vec<SequenceSide> = seqs.iter().map(|s| sequence_side(s)).collect();
        match plan_batch(contexts, &sides, self.side())? {
            BatchPlan::OneByOne => contexts
                .iter()
                .zip(seqs.iter_mut())
                .map(|(c, s)| self.logits(c, s))
                .collect(),
            BatchPlan::Together(tokens) => {
                let mut xs: Vec<Vec<f32>> = tokens.iter().map(|t| self.embed(*t)).collect();
                for l in 0..self.cfg().n_layers {
                    for (x, s) in xs.iter_mut().zip(seqs.iter_mut()) {
                        self.layer(l, x, s)?;
                    }
                }
                Ok(xs.iter().map(|x| self.head(x)).collect())
            }
        }
    }
}

fn sequence_side(s: &SeqState) -> SequenceSide {
    SequenceSide {
        len: s.len(),
        n_layers: s.n_layers(),
        max_positions: s.max_positions(),
    }
}

// ---- the checkpoint ----

fn put_str(out: &mut Vec<u8>, s: &str) {
    out.extend_from_slice(&(s.len() as u64).to_le_bytes());
    out.extend_from_slice(s.as_bytes());
}

/// Deterministic small weights, distinct per tensor.
fn weights(seed: usize, n: usize) -> Vec<f32> {
    (0..n)
        .map(|i| {
            let h = seed
                .wrapping_mul(2_654_435_761)
                .wrapping_add(i.wrapping_mul(40_503));
            (h % 2000) as f32 / 2000.0 - 0.5
        })
        .collect()
}

#[derive(Clone, Copy, PartialEq)]
enum Head {
    Separate,
    Tied,
}

fn build_qwen35_gguf(head: Head, arch: &str) -> Vec<u8> {
    let mut tensors: Vec<(String, Vec<u64>, Vec<f32>)> = Vec::new();
    let mut seed = 1usize;
    let mut put = |name: String, dims: &[usize]| {
        let n: usize = dims.iter().product();
        let data = if name.contains("norm") {
            vec![1.0; n]
        } else if name.ends_with("ssm_a") {
            // Negative, so that the decay lies between zero and one.
            weights(seed, n).iter().map(|v| -(v.abs()) - 0.01).collect()
        } else if name.ends_with("ssm_dt.bias") {
            vec![0.5; n]
        } else {
            weights(seed, n)
        };
        seed += 1;
        tensors.push((name, dims.iter().map(|d| *d as u64).collect(), data));
    };
    put("token_embd.weight".into(), &[D, VOCAB]);
    put("output_norm.weight".into(), &[D]);
    if head == Head::Separate {
        put("output.weight".into(), &[D, VOCAB]);
    }
    for l in 0..N_LAYERS {
        let p = |n: &str| format!("blk.{l}.{n}.weight");
        put(p("attn_norm"), &[D]);
        put(p("post_attention_norm"), &[D]);
        // Three blocks in four are recurrent; the last of each group attends.
        if (l + 1) % 4 != 0 {
            put(p("attn_qkv"), &[D, CONV_DIM]);
            put(p("attn_gate"), &[D, INNER]);
            put(p("ssm_conv1d"), &[CONV_KERNEL, CONV_DIM]);
            put(p("ssm_beta"), &[D, N_V_HEADS]);
            put(p("ssm_alpha"), &[D, N_V_HEADS]);
            put(format!("blk.{l}.ssm_dt.bias"), &[N_V_HEADS]);
            put(format!("blk.{l}.ssm_a"), &[N_V_HEADS]);
            put(p("ssm_norm"), &[KEY_HEAD_DIM]);
            put(p("ssm_out"), &[INNER, D]);
        } else {
            put(p("attn_q"), &[D, 2 * ATTN_DIM]);
            put(p("attn_k"), &[D, KV_DIM]);
            put(p("attn_v"), &[D, KV_DIM]);
            put(p("attn_output"), &[ATTN_DIM, D]);
            put(p("attn_q_norm"), &[HEAD_DIM]);
            put(p("attn_k_norm"), &[HEAD_DIM]);
        }
        put(p("ffn_gate"), &[D, D_FF]);
        put(p("ffn_up"), &[D, D_FF]);
        put(p("ffn_down"), &[D_FF, D]);
    }

    let mut meta = Vec::new();
    put_str(&mut meta, "general.architecture");
    meta.extend_from_slice(&8u32.to_le_bytes());
    put_str(&mut meta, arch);
    let mut kv_count = 1u64;
    for (key, v) in [
        ("qwen35.embedding_length", D),
        ("qwen35.block_count", N_LAYERS),
        ("qwen35.attention.head_count", N_HEADS),
        ("qwen35.attention.head_count_kv", N_KV_HEADS),
        ("qwen35.attention.key_length", HEAD_DIM),
        ("qwen35.attention.value_length", HEAD_DIM),
        ("qwen35.feed_forward_length", D_FF),
        ("qwen35.context_length", 64),
        ("qwen35.rope.dimension_count", N_ROT),
        ("qwen35.ssm.conv_kernel", CONV_KERNEL),
        ("qwen35.ssm.state_size", KEY_HEAD_DIM),
        ("qwen35.ssm.group_count", N_K_HEADS),
        ("qwen35.ssm.time_step_rank", N_V_HEADS),
        ("qwen35.ssm.inner_size", INNER),
        ("qwen35.full_attention_interval", 4),
    ] {
        put_str(&mut meta, key);
        meta.extend_from_slice(&4u32.to_le_bytes());
        meta.extend_from_slice(&(v as u32).to_le_bytes());
        kv_count += 1;
    }
    for (key, v) in [
        ("qwen35.attention.layer_norm_rms_epsilon", 1e-6f32),
        ("qwen35.rope.freq_base", 10_000_000.0),
    ] {
        put_str(&mut meta, key);
        meta.extend_from_slice(&6u32.to_le_bytes());
        meta.extend_from_slice(&v.to_le_bytes());
        kv_count += 1;
    }
    put_str(&mut meta, "tokenizer.ggml.tokens");
    meta.extend_from_slice(&9u32.to_le_bytes());
    meta.extend_from_slice(&8u32.to_le_bytes());
    meta.extend_from_slice(&(VOCAB as u64).to_le_bytes());
    for i in 0..VOCAB {
        put_str(&mut meta, &format!("t{i}"));
    }
    kv_count += 1;

    let mut offsets = Vec::new();
    let mut cursor = 0usize;
    for (_, _, data) in &tensors {
        let off = cursor.next_multiple_of(32);
        offsets.push(off as u64);
        cursor = off + data.len() * 4;
    }
    let mut out = Vec::new();
    out.extend_from_slice(b"GGUF");
    out.extend_from_slice(&3u32.to_le_bytes());
    out.extend_from_slice(&(tensors.len() as u64).to_le_bytes());
    out.extend_from_slice(&kv_count.to_le_bytes());
    out.extend_from_slice(&meta);
    for ((name, dims, _), off) in tensors.iter().zip(&offsets) {
        put_str(&mut out, name);
        out.extend_from_slice(&(dims.len() as u32).to_le_bytes());
        for dim in dims {
            out.extend_from_slice(&dim.to_le_bytes());
        }
        out.extend_from_slice(&0u32.to_le_bytes());
        out.extend_from_slice(&off.to_le_bytes());
    }
    let base = out.len().next_multiple_of(32);
    out.resize(base + cursor.next_multiple_of(32), 0);
    for ((_, _, data), off) in tensors.iter().zip(&offsets) {
        let at = base + *off as usize;
        for (i, v) in data.iter().enumerate() {
            out[at + i * 4..at + i * 4 + 4].copy_from_slice(&v.to_le_bytes());
        }
    }
    out
}

fn loaded<'a>(header: &'a Gguf, file: &'a [u8], mapped: bool) -> Model<'a> {
    let source = if mapped {
        Source::mapped(file)
    } else {
        Source::expanded(file)
    };
    Model {
        plan: Qwen35Backend::try_from_gguf(header, source).unwrap(),
        header,
        file,
    }
}

fn seq_with_capacity(m: &Model, max_positions: usize) -> SeqState {
    let c = m.cfg();
    SeqState::new(
        &KvConfig {
            dims: m.plan.dims(),
            kv_dim: c.kv_dim(),
            n_layers: c.n_layers,
            kv_dims: Some(c.kv_dims()),
            max_positions,
            max_resident_blocks: 64,
            sliding_window: None,
            storage: None,
        },
        1,
    )
}

fn seq_for(m: &Model) -> SeqState {
    seq_with_capacity(m, 64)
}

fn close(a: &[f32], b: &[f32], tolerance: f32) {
    assert_eq!(a.len(), b.len());
    for (i, (x, y)) in a.iter().zip(b).enumerate() {
        assert!((x - y).abs() < tolerance, "value {i}: {x} vs {y}");
    }
}

// ---- tests ----

#[test]
fn a_hybrid_checkpoint_loads_and_answers() {
    let bytes = build_qwen35_gguf(Head::Separate, "qwen35");
    let g = Gguf::parse(&bytes).unwrap();
    let b = loaded(&g, &bytes, false);
    let cfg = b.cfg();
    assert_eq!(cfg.n_layers, N_LAYERS);
    assert_eq!(cfg.recurrent, vec![true, true, true, false]);
    assert_eq!(cfg.attn_dim(), ATTN_DIM);
    assert!(cfg.attn_dim() > cfg.d_model, "heads are wider than d_model");
    assert_eq!(cfg.conv_dim(), CONV_DIM);
    assert_eq!(cfg.value_head_dim, KEY_HEAD_DIM);
    assert_eq!(cfg.kv_dims(), vec![0, 0, 0, KV_DIM]);
    b.plan.dims().validate().unwrap();

    let logits = b.logits(&[1, 2, 3], &mut seq_for(&b)).unwrap();
    assert_eq!(logits.len(), VOCAB);
    assert!(logits.iter().all(|v| v.is_finite()));
    // Same input, same answer: the prompt cache relies on it.
    let repeat = b.logits(&[1, 2, 3], &mut seq_for(&b)).unwrap();
    assert_eq!(logits, repeat);
}

#[test]
fn every_layer_advances_one_position_per_token() {
    let bytes = build_qwen35_gguf(Head::Separate, "qwen35");
    let g = Gguf::parse(&bytes).unwrap();
    let b = loaded(&g, &bytes, false);
    let mut seq = seq_for(&b);
    for n in 1..=5 {
        let ctx: Vec<Token> = (0..n as Token).collect();
        b.logits(&ctx, &mut seq).unwrap();
        assert_eq!(seq.len(), n);
        for l in 0..N_LAYERS {
            assert_eq!(seq.layer_len(l), n, "layer {l} fell behind");
        }
    }
    // The recurrent blocks hold no per-position bytes; the attention block does.
    for l in 0..3 {
        assert_eq!(seq.layer(l).resident_bytes(), 0, "layer {l} stored vectors");
    }
    assert!(seq.layer(3).resident_bytes() > 0);
    assert!(seq.has_linear_state());
}

#[test]
fn recurrent_state_is_sized_by_the_config_and_reused() {
    let bytes = build_qwen35_gguf(Head::Separate, "qwen35");
    let g = Gguf::parse(&bytes).unwrap();
    let b = loaded(&g, &bytes, false);
    let (conv, state) = b.cfg().linear_state_shape();
    assert_eq!(conv, CONV_DIM * (CONV_KERNEL - 1));
    assert_eq!(state, N_V_HEADS * KEY_HEAD_DIM * KEY_HEAD_DIM);

    let mut seq = seq_for(&b);
    b.logits(&[1, 2], &mut seq).unwrap();
    let before = seq.resident_bytes();
    let s0 = seq.linear(0, conv, state).unwrap().state.clone();
    assert!(s0.iter().any(|v| f32::from_bits(*v) != 0.0), "the state never got written");

    // Asking for a different shape is a bug, not a silent reallocation.
    assert!(seq.linear(0, conv + 1, state).is_err());
    assert_eq!(seq.linear(0, conv, state).unwrap().state, s0);

    // Recurrent state does not grow with the sequence.
    b.logits(&[1, 2, 3, 4, 5, 6], &mut seq).unwrap();
    let growth = seq.resident_bytes() - before;
    assert_eq!(growth, 4 * KV_DIM * 2 * 4);
    assert_eq!(b.cfg().recurrent_blocks(), 3);
    assert_eq!(b.cfg().linear_state_bytes(), 3 * (conv + state) * 4);
}

#[test]
fn a_hybrid_batched_prefill_matches_feeding_tokens_one_at_a_time() {
    let bytes = build_qwen35_gguf(Head::Separate, "qwen35");
    let g = Gguf::parse(&bytes).unwrap();
    let stepwise = loaded(&g, &bytes, false);
    let mut batched = loaded(&g, &bytes, false);
    batched.plan = batched.plan.with_prefill_chunk(8);
    let ctx: Vec<Token> = vec![3, 1, 4, 1, 5, 9, 2, 6, 5, 3, 5];
    let one = stepwise.logits(&ctx, &mut seq_for(&stepwise)).unwrap();
    let many = batched.logits(&ctx, &mut seq_for(&batched)).unwrap();
    close(&one, &many, 1e-4);
}

#[test]
fn value_heads_read_key_heads_in_the_order_the_file_stores_them() {
    let got: Vec<usize> = (0..6).map(|hv| key_head_of(hv, 16)).collect();
    assert_eq!(got, vec![0, 1, 2, 3, 4, 5]);
    assert_eq!(key_head_of(16, 16), 0, "the block repeats after n_k_heads");
    assert_eq!(key_head_of(47, 16), 15);
    assert_ne!(got, vec![0, 0, 0, 1, 1, 1]);
    assert_eq!(
        (0..16).map(|h| key_head_of(h, 16)).collect::<Vec<_>>(),
        (0..16).collect::<Vec<_>>()
    );
}

#[test]
fn a_sequence_carrying_recurrent_state_refuses_to_be_rewound() {
    let bytes = build_qwen35_gguf(Head::Separate, "qwen35");
    let g = Gguf::parse(&bytes).unwrap();
    let b = loaded(&g, &bytes, false);
    assert!(!b.plan.speculation_supported());
    let mut seq = seq_for(&b);
    b.logits(&[1, 2, 3], &mut seq).unwrap();
    assert!(seq.truncate(3).is_ok(), "a no-op truncation is fine");
    let err = seq.truncate(1).unwrap_err().message();
    assert!(err.contains("recurrent state"), "unexpected error: {err}");
    assert_eq!(seq.len(), 3, "a refused truncation changes nothing");
}

#[test]
fn packed_and_expanded_weights_agree() {
    let bytes = build_qwen35_gguf(Head::Separate, "qwen35");
    let g = Gguf::parse(&bytes).unwrap();
    let (expanded, packed) = (loaded(&g, &bytes, false), loaded(&g, &bytes, true));
    assert!(packed.plan.is_mmapped() && !expanded.plan.is_mmapped());
    let ctx: Vec<Token> = vec![7, 8, 9, 10];
    let a = expanded.logits(&ctx, &mut seq_for(&expanded)).unwrap();
    let b = packed.logits(&ctx, &mut seq_for(&packed)).unwrap();
    close(&a, &b, 1e-4);
}

#[test]
fn a_checkpoint_that_ties_its_head_to_the_embeddings_still_answers() {
    let bytes = build_qwen35_gguf(Head::Tied, "qwen35");
    let g = Gguf::parse(&bytes).unwrap();
    let b = loaded(&g, &bytes, false);
    assert!(b.plan.has_tied_embeddings());
    let logits = b.logits(&[5, 6], &mut seq_for(&b)).unwrap();
    assert_eq!(logits.len(), VOCAB);
    assert!(logits.iter().all(|v| v.is_finite()));
}

#[test]
fn the_mixture_of_experts_variant_is_refused_by_name() {
    let load_err = |arch: &str| match Qwen35Backend::load(&build_qwen35_gguf(Head::Separate, arch))
    {
        Err(LoadError::Refused(e)) => e.message(),
        _ => panic!("architecture '{arch}' should not have loaded"),
    };
    let err = load_err("qwen35moe");
    assert!(err.contains("qwen35moe"), "unexpected error: {err}");
    let err = load_err("llama");
    assert!(err.contains("not Qwen3.5"), "unexpected error: {err}");
}

#[test]
fn a_hybrid_checkpoint_without_its_weights_is_refused() {
    let bytes = build_qwen35_gguf(Head::Separate, "qwen35");
    let g = Gguf::parse(&bytes).unwrap();
    match Qwen35Backend::load(&bytes[..g.data_offset]) {
        Err(LoadError::Refused(e)) => {
            assert!(e.message().contains("runs past the end of the file"), "{}", e.message())
        }
        _ => panic!("a file that ends after its header must not load"),
    }
    assert!(Qwen35Backend::load(&bytes).is_ok());
}

#[test]
fn an_oversized_prompt_is_refused_before_any_layer_runs() {
    let bytes = build_qwen35_gguf(Head::Separate, "qwen35");
    let g = Gguf::parse(&bytes).unwrap();
    let b = loaded(&g, &bytes, false);
    let mut seq = seq_with_capacity(&b, 4);
    let ctx: Vec<Token> = (0..5).collect();
    assert!(b.logits(&ctx, &mut seq).is_err());
    assert_eq!(seq.len(), 0, "nothing was consumed");
}

#[test]
fn a_hybrid_batched_decode_step_matches_decoding_each_sequence_alone() {
    let bytes = build_qwen35_gguf(Head::Separate, "qwen35");
    let g = Gguf::parse(&bytes).unwrap();
    let b = loaded(&g, &bytes, false);
    let ctxs: Vec<Vec<Token>> = vec![vec![1, 2, 3, 4], vec![9, 8], vec![5, 5, 6]];
    let mut alone = Vec::new();
    for c in &ctxs {
        let mut seq = seq_for(&b);
        b.logits(&c[..c.len() - 1], &mut seq).unwrap();
        alone.push(b.logits(c, &mut seq).unwrap());
    }
    let mut seqs: Vec<SeqState> = ctxs.iter().map(|_| seq_for(&b)).collect();
    for (c, s) in ctxs.iter().zip(seqs.iter_mut()) {
        b.logits(&c[..c.len() - 1], s).unwrap();
    }
    let mut refs: Vec<&mut SeqState> = seqs.iter_mut().collect();
    let batched = b.logits_batch(&ctxs, &mut refs).unwrap();
    assert_eq!(batched.len(), alone.len());
    for (x, y) in batched.iter().zip(&alone) {
        close(x, y, 1e-4);
    }
    for (i, s) in seqs.iter().enumerate() {
        assert_eq!(s.len(), ctxs[i].len(), "sequence {i} did not advance once");
    }
}

#[test]
fn a_hybrid_ragged_batch_falls_back_and_still_answers_correctly() {
    let bytes = build_qwen35_gguf(Head::Separate, "qwen35");
    let g = Gguf::parse(&bytes).unwrap();
    let b = loaded(&g, &bytes, false);
    let ctxs: Vec<Vec<Token>> = vec![vec![1, 2, 3], vec![4, 5, 6, 7]];
    let mut seqs: Vec<SeqState> = ctxs.iter().map(|_| seq_for(&b)).collect();
    // Only the first sequence is one token behind its context.
    b.logits(&[1, 2], &mut seqs[0]).unwrap();
    let mut refs: Vec<&mut SeqState> = seqs.iter_mut().collect();
    let out = b.logits_batch(&ctxs, &mut refs).unwrap();
    assert_eq!(out.len(), 2);
    assert!(out.iter().all(|t| t.len() == VOCAB));
    assert_eq!(seqs[0].len(), 3);
    assert_eq!(seqs[1].len(), 4);
    // Mismatched lengths are an error, not a panic.
    let mut one: Vec<&mut SeqState> = seqs.iter_mut().take(1).collect();
    assert!(b.logits_batch(&ctxs, &mut one).is_err());
}

#[test]
fn a_batch_is_rejected_before_any_sequence_advances() {
    let bytes = build_qwen35_gguf(Head::Separate, "qwen35");
    let g = Gguf::parse(&bytes).unwrap();
    let b = loaded(&g, &bytes, false);
    let mut seqs: Vec<SeqState> = (0..2).map(|_| seq_for(&b)).collect();
    for s in seqs.iter_mut() {
        b.logits(&[1, 2], s).unwrap();
    }
    // The second batch member names a token outside the vocabulary.
    let ctxs: Vec<Vec<Token>> = vec![vec![1, 2, 3], vec![1, 2, VOCAB as Token]];
    let mut refs: Vec<&mut SeqState> = seqs.iter_mut().collect();
    assert!(matches!(
        b.logits_batch(&ctxs, &mut refs),
        Err(GarudaError::InvalidToken(_))
    ));
    for s in &seqs {
        assert_eq!(s.len(), 2, "a refused batch leaves every sequence alone");
    }
}

#[test]
fn an_out_of_vocabulary_token_is_rejected() {
    let bytes = build_qwen35_gguf(Head::Separate, "qwen35");
    let g = Gguf::parse(&bytes).unwrap();
    let b = loaded(&g, &bytes, false);
    let err = b.logits(&[VOCAB as Token], &mut seq_for(&b)).unwrap_err();
    assert!(matches!(err, GarudaError::InvalidToken(_)));
}

#[test]
fn a_block_spans_its_own_tensors() {
    let bytes = build_qwen35_gguf(Head::Separate, "qwen35");
    let g = Gguf::parse(&bytes).unwrap();
    let b = loaded(&g, &bytes, true);
    let spans = b.plan.layer_spans();
    assert_eq!(spans.len(), N_LAYERS);
    for (l, (start, len)) in spans.iter().enumerate() {
        for t in g.tensors.iter().filter(|t| t.name.starts_with(&format!("blk.{l}."))) {
            let at = g.data_offset + t.offset as usize;
            let size = t.dims.iter().product::<u64>() as usize * 4;
            assert!(*start <= at && at + size <= start + len, "{} is outside", t.name);
        }
        assert!(start + len <= bytes.len());
    }
    // The blocks follow one another in the file.
    for w in spans.windows(2) {
        assert!(w[0].0 + w[0].1 <= w[1].0);
    }
}

#[test]
fn a_convolution_sees_the_recent_inputs_oldest_first() {
    // Two channels, a kernel of three: two remembered inputs each.
    let mut conv: Vec<u32> = vec![1, 2, 11, 12];
    assert_eq!(conv_window(&conv, &[3, 13], 0, 3), vec![1, 2, 3]);
    assert_eq!(conv_window(&conv, &[3, 13], 1, 3), vec![11, 12, 13]);
    shift_history(&mut conv, &[3, 13], 3);
    assert_eq!(conv, vec![2, 3, 12, 13]);
    assert_eq!(split_query_gate(&[1, 2, 3, 4, 5, 6, 7, 8], 2, 2), (vec![1, 2, 5, 6], vec![3, 4, 7, 8]));
    let shared: Vec<usize> = (0..6).map(|h| kv_head_of(h, 6, 2)).collect();
    assert_eq!(shared, vec![0, 0, 0, 1, 1, 1]);
}

/// A hybrid engine has a cache width for every block and no draft, and its output head
/// has to match the vocabulary that the file lists.
#[test]
fn a_hybrid_checkpoint_settles_its_engine() {
    let bytes = build_qwen35_gguf(Head::Separate, "qwen35");
    let g = Gguf::parse(&bytes).unwrap();
    assert!(Engine::is_hybrid(&g));
    let mut c = AppConfig::default();
    let (backend, e) = Engine::build_qwen35(&c, "q", &g, Source::mapped(&bytes), VOCAB).unwrap();
    let widths = e.kv.kv_dims.unwrap();
    for (l, recurrent) in backend.config().recurrent.iter().enumerate() {
        assert_eq!(widths[l], if *recurrent { 0 } else { KV_DIM });
    }
    assert!(matches!(e.warming, Warming::Blocks));
    assert!(matches!(
        Engine::build_qwen35(&c, "q", &g, Source::expanded(&bytes), VOCAB + 1),
        Err(BuildError::Refused(m)) if m.starts_with(
            "the checkpoint's output head covers 64 tokens but its vocabulary lists 65"
        )
    ));
    c.model.draft_gguf = "d.gguf".into();
    c.memory.prompt_cache = "some".into();
    assert!(matches!(
        Engine::build_qwen35(&c, "q", &g, Source::expanded(&bytes), VOCAB),
        Err(BuildError::Refused(m)) if m.starts_with("model.draft_gguf is set (d.gguf)")
    ));
    // What is wrong with the checkpoint is told before anything else.
    let short = &bytes[..g.data_offset];
    assert!(matches!(
        Engine::build_qwen35(&c, "q", &g, Source::expanded(short), VOCAB + 1),
        Err(BuildError::Load(LoadError::Refused(_)))
    ));
    c.model.draft_gguf = String::new();
    assert!(matches!(
        Engine::build_qwen35(&c, "q", &g, Source::expanded(&bytes), VOCAB),
        Err(BuildError::Config(GarudaError::Config(_)))
    ));
}

/// A layer that is not there, or whose state has another shape, is named.
#[test]
fn a_delta_block_names_the_layer_that_it_cannot_use() {
    let bytes = build_qwen35_gguf(Head::Separate, "qwen35");
    let g = Gguf::parse(&bytes).unwrap();
    let b = loaded(&g, &bytes, false);
    let cfg = b.cfg();
    let raw = vec![0u32; cfg.conv_dim()];
    let mut seq = seq_for(&b);
    let e = delta_token(&mut seq, cfg, N_LAYERS, &raw).unwrap_err();
    assert_eq!(
        e.message(),
        "cache error: layer 4 is out of range for a 4-layer sequence"
    );
    seq.linear(1, 6, 7).unwrap();
    let e = delta_token(&mut seq, cfg, 1, &raw).unwrap_err();
    assert!(matches!(e, GarudaError::Cache(_)));
    assert!(e.message().contains("layer 1"), "{}", e.message());
    assert!(delta_token(&mut seq, cfg, 0, &raw).is_ok());
}
