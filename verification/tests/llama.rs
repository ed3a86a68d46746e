//! A tiny mixture-of-experts checkpoint, written byte by byte, loaded and run: the
//! arithmetic is here, and everything that is decided comes from the library.

use garuda::attention::attend;
use garuda::backend::{InferenceBackend, Sampler};
use garuda::cache::kv::KvConfig;
use garuda::chat::ChatFormat;
use garuda::config::AppConfig;
use garuda::decode::Ends;
use garuda::cache::sequence::SeqState;
use garuda::forward::{plan_batch, BatchPlan, ModelSide, Pass, SequenceSide};
use garuda::gguf::{
    block_tensor_name, expert_tensor_name, loadable, Entry, Gguf, Loadable, Scalar, TensorInfo,
    Value,
};
use garuda::llama::config::LlamaConfig;
use garuda::llama::loader::{Ffn, LlamaBackend, LoadError};
use garuda::llama::weight::{load_norm, load_weight, ExpertWeight, Source, Weight};
use garuda::moe::observe_step;
use garuda::predictor::ExpertPredictor;
use garuda::prefetch::{GgufPagePrefetcher, PrefetchEngine};
use garuda::quant;
use garuda::quant::Element;
use garuda::routing::{global_ids, members, top_experts};
use garuda::runtime::InferenceRuntime;
use garuda::sampling::{Rng, SamplingParams};
use garuda::server::{Backend, BuildError, Engine, Warming};
use garuda::types::{ExpertId, GarudaError, ModelDims, Token};
use std::cell::RefCell;
use std::collections::HashSet;

// ---- arithmetic ----

fn dot(a: &[f32], b: &[f32]) -> f32 {
    a.iter().zip(b).map(|(x, y)| x * y).sum()
}

fn softmax(x: &mut [f32]) {
    let max = x.iter().copied().fold(f32::NEG_INFINITY, f32::max);
    let mut sum = 0.0;
    for v in x.iter_mut() {
        *v = (*v - max).exp();
        sum += *v;
    }
    x.iter_mut().for_each(|v| *v /= sum);
}

fn rope(v: &mut [f32], pos: usize, theta: f32) {
    let n = v.len();
    for i in 0..n / 2 {
        let freq = 1.0 / theta.powf(2.0 * i as f32 / n as f32);
        let (sin, cos) = (pos as f32 * freq).sin_cos();
        let (a, b) = (v[2 * i], v[2 * i + 1]);
        v[2 * i] = a * cos - b * sin;
        v[2 * i + 1] = a * sin + b * cos;
    }
}

fn bits(x: &[f32]) -> Vec<u32> {
    x.iter().map(|v| v.to_bits()).collect()
}

fn floats(x: &[u32]) -> Vec<f32> {
    x.iter().map(|v| f32::from_bits(*v)).collect()
}

fn value_of(e: &Element) -> f32 {
    match *e {
        Element::Plain(b) => f32::from_bits(b),
        Element::Scaled {
            d,
            scale,
            quant,
            dmin,
            min,
        } => {
            f32::from_bits(quant::f16_to_f32(d)) * scale as f32 * quant as f32
                - f32::from_bits(quant::f16_to_f32(dmin)) * min as f32
        }
    }
}

/// A model with its numbers. Rows of packed weights are decoded as they are used.
struct Model<'a> {
    plan: LlamaBackend,
    header: &'a Gguf,
    file: &'a [u8],
    prefetch: Option<PrefetchEngine>,
}

impl Model<'_> {
    fn cfg(&self) -> LlamaConfig {
        self.plan.config()
    }

    fn tensor(&self, name: &str) -> Vec<f32> {
        let elements = self.header.tensor_f32(self.file, name).unwrap();
        elements.iter().map(value_of).collect()
    }

    /// Rows of a weight, expanded.
    fn rows(&self, w: &Weight, name: &str, from: usize, n: usize) -> Vec<f32> {
        match *w {
            Weight::Full { cols } => self.tensor(name)[from * cols..(from + n) * cols].to_vec(),
            Weight::Packed { qtype, cols, .. } => {
                let (start, len) = w.row_bytes_range(from, n).unwrap();
                let raw = &self.file[start..start + len];
                let elements = quant::dequantize(qtype, raw, n * cols).unwrap();
                elements.iter().map(value_of).collect()
            }
        }
    }

    fn product(&self, w: &Weight, name: &str, from: usize, n: usize, x: &[f32]) -> Vec<f32> {
        let m = self.rows(w, name, from, n);
        m.chunks_exact(x.len()).map(|row| dot(row, x)).collect()
    }

    fn expert_product(
        &self,
        w: &ExpertWeight,
        l: usize,
        base: &str,
        e: usize,
        block: usize,
        x: &[f32],
    ) -> Vec<f32> {
        let (which, from) = w.expert_slot(e, block);
        match w {
            ExpertWeight::Stacked(one) => {
                let name = block_tensor_name(l as u64, &format!("{base}_exps"));
                self.product(one, &name, from, block, x)
            }
            ExpertWeight::Split(each) => {
                let name = expert_tensor_name(l as u64, base, e as u64);
                self.product(&each[which], &name, from, block, x)
            }
        }
    }

    fn norm(&self, x: &[f32], weight: &[f32]) -> Vec<f32> {
        let eps = f32::from_bits(self.cfg().rms_eps_bits);
        let mean = x.iter().map(|v| v * v).sum::<f32>() / x.len() as f32;
        let scale = 1.0 / (mean + eps).sqrt();
        x.iter().zip(weight).map(|(v, w)| v * scale * w).collect()
    }

    fn attention(&self, l: usize, h: &[f32], seq: &mut SeqState) -> Result<Vec<f32>, GarudaError> {
        let c = self.cfg();
        let layer = self.plan.layer(l);
        let name = |n: &str| block_tensor_name(l as u64, n);
        let (d, kvd, hd) = (c.d_model, c.kv_dim(), c.head_dim);
        let mut q = self.product(&layer.wq, &name("attn_q"), 0, d, h);
        let mut k = self.product(&layer.wk, &name("attn_k"), 0, kvd, h);
        let v = self.product(&layer.wv, &name("attn_v"), 0, kvd, h);
        let theta = f32::from_bits(c.rope_theta_bits);
        let kv = seq.layer(l);
        let pos = kv.len();
        q.chunks_exact_mut(hd).for_each(|x| rope(x, pos, theta));
        k.chunks_exact_mut(hd).for_each(|x| rope(x, pos, theta));
        let (start, end) = attend(kv, &bits(&k), &bits(&v))?;
        let mut context = vec![0.0; d];
        for head in 0..c.n_heads {
            let shared = head / (c.n_heads / c.n_kv_heads) * hd;
            let mut scores: Vec<f32> = (start..end)
                .map(|j| {
                    let key = floats(&kv.key_at(j).unwrap()[shared..shared + hd]);
                    dot(&q[head * hd..(head + 1) * hd], &key) / (hd as f32).sqrt()
                })
                .collect();
            softmax(&mut scores);
            for (j, p) in (start..end).zip(scores) {
                let value = floats(&kv.value_at(j).unwrap()[shared..shared + hd]);
                for (o, x) in context[head * hd..].iter_mut().zip(value) {
                    *o += p * x;
                }
            }
        }
        Ok(self.product(&layer.wo, &name("attn_output"), 0, d, &context))
    }

    /// One layer over a batch; token `t` belongs to `seqs[owner(t)]`.
    fn layer(
        &mut self,
        l: usize,
        xs: &mut [Vec<f32>],
        seqs: &mut [&mut SeqState],
        owner: &[usize],
    ) -> Result<(), GarudaError> {
        let c = self.cfg();
        let (d, f, ne) = (c.d_model, c.d_ff, c.n_experts);
        let name = |n: &str| block_tensor_name(l as u64, n);
        let (attn_norm, ffn_norm) = (
            self.tensor(&name("attn_norm")),
            self.tensor(&name("ffn_norm")),
        );
        let mut hs = Vec::new();
        for (x, &o) in xs.iter_mut().zip(owner) {
            let h = self.norm(x, &attn_norm);
            let mixed = self.attention(l, &h, seqs[o])?;
            x.iter_mut().zip(mixed).for_each(|(a, b)| *a += b);
            hs.push(self.norm(x, &ffn_norm));
        }
        let mut picks = Vec::new();
        let mut shares = Vec::new();
        for (h, &o) in hs.iter().zip(owner) {
            let Ffn::Moe { router, .. } = &self.plan.layer(l).ffn else {
                panic!("every layer of the fixture has experts");
            };
            let mut scores = self.product(router, &name("ffn_gate_inp"), 0, ne, h);
            softmax(&mut scores);
            let chosen = top_experts(&bits(&scores), c.n_experts_used);
            let sum: f32 = chosen.iter().map(|&e| scores[e]).sum();
            shares.push(chosen.iter().map(|&e| scores[e] / sum).collect::<Vec<_>>());
            if let Some(pf) = &mut self.prefetch {
                let used = global_ids(l, ne, &chosen);
                let predicted = observe_step(seqs[o].layer(l), pf, used);
                for id in predicted {
                    if pf.warm(id, false) {
                        pf.finished(id);
                    }
                }
            }
            picks.push(chosen);
        }
        for (e, owed) in members(&picks, ne).iter().enumerate() {
            for m in owed {
                let Ffn::Moe { gate, up, down, .. } = &self.plan.layer(l).ffn else {
                    panic!("every layer of the fixture has experts");
                };
                let h = &hs[m.token];
                let g = self.expert_product(gate, l, "ffn_gate", e, f, h);
                let u = self.expert_product(up, l, "ffn_up", e, f, h);
                let hidden: Vec<f32> = g
                    .iter()
                    .zip(&u)
                    .map(|(g, u)| g / (1.0 + (-g).exp()) * u)
                    .collect();
                let y = self.expert_product(down, l, "ffn_down", e, d, &hidden);
                let share = shares[m.token][m.choice];
                xs[m.token].iter_mut().zip(y).for_each(|(a, b)| *a += share * b);
            }
        }
        Ok(())
    }

    fn embed(&self, token: Token) -> Vec<f32> {
        self.rows(&self.plan.token_embd(), "token_embd.weight", token as usize, 1)
    }

    fn head(&self, x: &[f32]) -> Vec<f32> {
        let name = if self.plan.has_tied_embeddings() {
            "token_embd.weight"
        } else {
            "output.weight"
        };
        let h = self.norm(x, &self.tensor("output_norm.weight"));
        self.product(&self.plan.output(), name, 0, self.cfg().vocab, &h)
    }

    fn side(&self) -> ModelSide {
        ModelSide {
            n_layers: self.cfg().n_layers,
            vocab: self.cfg().vocab,
            chunk: self.plan.prefill_chunk(),
            kv_layers: true,
        }
    }

    fn logits_multi(
        &mut self,
        context: &[Token],
        seq: &mut SeqState,
        n: usize,
    ) -> Result<Vec<Vec<f32>>, GarudaError> {
        let mut pass = Pass::begin(context, sequence_side(seq), self.side(), n)?;
        let mut tail = Vec::new();
        while let Some(chunk) = pass.next_chunk()? {
            let mut xs: Vec<Vec<f32>> = chunk.iter().map(|t| self.embed(*t)).collect();
            for l in 0..self.cfg().n_layers {
                self.layer(l, &mut xs, &mut [&mut *seq], &vec![0; chunk.len()])?;
            }
            tail.append(&mut xs);
        }
        let kept = pass.finish()?;
        let last = &tail[tail.len() - kept..];
        Ok(last.iter().map(|x| self.head(x)).collect())
    }

    fn logits(&mut self, context: &[Token], seq: &mut SeqState) -> Result<Vec<f32>, GarudaError> {
        Ok(self.logits_multi(context, seq, 1)?.pop().unwrap())
    }

    fn logits_batch(
        &mut self,
        contexts: &[Vec<Token>],
        seqs: &mut [&mut SeqState],
    ) -> Result<Vec<Vec<f32>>, GarudaError> {
        let sides: Vec<SequenceSide> = seqs.iter().map(|s| sequence_side(s)).collect();
        match plan_batch(contexts, &sides, self.side())? {
            BatchPlan::OneByOne => {
                let mut out = Vec::new();
                for (c, s) in contexts.iter().zip(seqs.iter_mut()) {
                    out.push(self.logits(c, s)?);
                }
                Ok(out)
            }
            BatchPlan::Together(tokens) => {
                let mut xs: Vec<Vec<f32>> = tokens.iter().map(|t| self.embed(*t)).collect();
                let owner: Vec<usize> = (0..tokens.len()).collect();
                for l in 0..self.cfg().n_layers {
                    self.layer(l, &mut xs, seqs, &owner)?;
                }
                Ok(xs.iter().map(|x| self.head(x)).collect())
            }
        }
    }
}

fn sequence_side(s: &SeqState) -> SequenceSide {
    SequenceSide {
        len: s.len(),
        n_layers: s.n_layers(),
        max_positions: s.max_positions(),
    }
}

// ---- the checkpoint ----

fn put_str(out: &mut Vec<u8>, s: &str) {
    out.extend_from_slice(&(s.len() as u64).to_le_bytes());
    out.extend_from_slice(s.as_bytes());
}

fn kv_u32(out: &mut Vec<u8>, key: &str, v: u32) {
    put_str(out, key);
    out.extend_from_slice(&4u32.to_le_bytes());
    out.extend_from_slice(&v.to_le_bytes());
}

fn kv_f32(out: &mut Vec<u8>, key: &str, v: f32) {
    put_str(out, key);
    out.extend_from_slice(&6u32.to_le_bytes());
    out.extend_from_slice(&v.to_le_bytes());
}

fn kv_str(out: &mut Vec<u8>, key: &str, v: &str) {
    put_str(out, key);
    out.extend_from_slice(&8u32.to_le_bytes());
    put_str(out, v);
}

fn kv_str_array(out: &mut Vec<u8>, key: &str, vals: &[String]) {
    put_str(out, key);
    out.extend_from_slice(&9u32.to_le_bytes());
    out.extend_from_slice(&8u32.to_le_bytes());
    out.extend_from_slice(&(vals.len() as u64).to_le_bytes());
    for v in vals {
        put_str(out, v);
    }
}

/// Deterministic small weights, distinct per tensor.
fn weights(seed: usize, n: usize) -> Vec<f32> {
    (0..n)
        .map(|i| {
            let h = seed
                .wrapping_mul(2_654_435_761)
                .wrapping_add(i.wrapping_mul(40_503));
            (h % 2000) as f32 / 2000.0 - 0.5
        })
        .collect()
}

#[derive(Clone, Copy)]
enum ExpertLayout {
    /// One stacked tensor, expert `e` at rows `e * block` and on.
    Merged,
    /// One tensor per expert.
    Split,
}

#[derive(Clone, Copy, PartialEq)]
enum Head {
    Separate,
    Tied,
}

fn build_moe_gguf(layout: ExpertLayout) -> Vec<u8> {
    build_gguf(layout, Head::Separate)
}

fn build_gguf(layout: ExpertLayout, head: Head) -> Vec<u8> {
    let (d, kv_dim, ff, nl, vocab, ne) = (32usize, 16usize, 32usize, 2usize, 64usize, 4usize);
    let mut tensors: Vec<(String, Vec<u64>, Vec<f32>)> = Vec::new();
    let data = |name: &str, dims: &[u64], seed: usize| {
        let n = dims.iter().product::<u64>() as usize;
        if name.contains("norm") {
            vec![1.0; n]
        } else {
            weights(seed, n)
        }
    };
    let mut s = 1;
    for (name, dims) in [
        ("token_embd.weight", vec![d as u64, vocab as u64]),
        ("output_norm.weight", vec![d as u64]),
        ("output.weight", vec![d as u64, vocab as u64]),
    ] {
        if name != "output.weight" || head == Head::Separate {
            tensors.push((name.to_owned(), dims.clone(), data(name, &dims, s)));
        }
        s += 1;
    }
    for l in 0..nl {
        for (base, dims) in [
            ("attn_norm", vec![d as u64]),
            ("attn_q", vec![d as u64, d as u64]),
            ("attn_k", vec![d as u64, kv_dim as u64]),
            ("attn_v", vec![d as u64, kv_dim as u64]),
            ("attn_output", vec![d as u64, d as u64]),
            ("ffn_norm", vec![d as u64]),
            ("ffn_gate_inp", vec![d as u64, ne as u64]),
        ] {
            let name = format!("blk.{l}.{base}.weight");
            tensors.push((name.clone(), dims.clone(), data(&name, &dims, s)));
            s += 1;
        }
        for (base, rows, cols) in [("ffn_gate", ff, d), ("ffn_up", ff, d), ("ffn_down", d, ff)] {
            let flat = weights(s, ne * rows * cols);
            s += 1;
            match layout {
                ExpertLayout::Merged => tensors.push((
                    format!("blk.{l}.{base}_exps.weight"),
                    vec![cols as u64, rows as u64, ne as u64],
                    flat,
                )),
                ExpertLayout::Split => {
                    let block = rows * cols;
                    for e in 0..ne {
                        tensors.push((
                            format!("blk.{l}.{base}.{e}.weight"),
                            vec![cols as u64, rows as u64],
                            flat[e * block..(e + 1) * block].to_vec(),
                        ));
                    }
                }
            }
        }
    }

    let mut meta = Vec::new();
    kv_str(&mut meta, "general.architecture", "llama");
    kv_u32(&mut meta, "llama.embedding_length", d as u32);
    kv_u32(&mut meta, "llama.block_count", nl as u32);
    kv_u32(&mut meta, "llama.attention.head_count", 4);
    kv_u32(&mut meta, "llama.attention.head_count_kv", 2);
    kv_u32(&mut meta, "llama.feed_forward_length", ff as u32);
    kv_u32(&mut meta, "llama.context_length", 64);
    kv_f32(&mut meta, "llama.attention.layer_norm_rms_epsilon", 1e-5);
    kv_u32(&mut meta, "llama.expert_count", ne as u32);
    kv_u32(&mut meta, "llama.expert_used_count", 2);
    let toks: Vec<String> = (0..vocab).map(|i| format!("t{i}")).collect();
    kv_str_array(&mut meta, "tokenizer.ggml.tokens", &toks);
    assemble(&meta, 11, &tensors)
}

fn assemble(meta: &[u8], kv_count: u64, tensors: &[(String, Vec<u64>, Vec<f32>)]) -> Vec<u8> {
    let mut offsets = Vec::new();
    let mut cursor = 0usize;
    for (_, _, data) in tensors {
        let off = cursor.next_multiple_of(32);
        offsets.push(off as u64);
        cursor = off + data.len() * 4;
    }
    let mut out = Vec::new();
    out.extend_from_slice(b"GGUF");
    out.extend_from_slice(&3u32.to_le_bytes());
    out.extend_from_slice(&(tensors.len() as u64).to_le_bytes());
    out.extend_from_slice(&kv_count.to_le_bytes());
    out.extend_from_slice(meta);
    for ((name, dims, _), off) in tensors.iter().zip(&offsets) {
        put_str(&mut out, name);
        out.extend_from_slice(&(dims.len() as u32).to_le_bytes());
        for dim in dims {
            out.extend_from_slice(&dim.to_le_bytes());
        }
        out.extend_from_slice(&0u32.to_le_bytes());
        out.extend_from_slice(&off.to_le_bytes());
    }
    let base = out.len().next_multiple_of(32);
    out.resize(base + cursor.next_multiple_of(32), 0);
    for ((_, _, data), off) in tensors.iter().zip(&offsets) {
        let at = base + *off as usize;
        for (i, v) in data.iter().enumerate() {
            out[at + i * 4..at + i * 4 + 4].copy_from_slice(&v.to_le_bytes());
        }
    }
    out
}

fn loaded<'a>(header: &'a Gguf, file: &'a [u8], mapped: bool) -> Model<'a> {
    let source = if mapped {
        Source::mapped(file)
    } else {
        Source::expanded(file)
    };
    Model {
        plan: LlamaBackend::try_from_gguf(header, source).unwrap(),
        header,
        file,
        prefetch: None,
    }
}

fn seq_with_capacity(b: &LlamaBackend, max_positions: usize) -> SeqState {
    let c = b.config();
    SeqState::new(
        &KvConfig {
            dims: b.dims(),
            kv_dim: c.kv_dim(),
            n_layers: c.n_layers,
            kv_dims: None,
            max_positions,
            max_resident_blocks: 64,
            sliding_window: None,
            storage: None,
        },
        1,
    )
}

fn seq_for(m: &Model) -> SeqState {
    seq_with_capacity(&m.plan, 64)
}

fn close(a: &[f32], b: &[f32], tolerance: f32) {
    assert_eq!(a.len(), b.len());
    for (i, (x, y)) in a.iter().zip(b).enumerate() {
        assert!((x - y).abs() < tolerance, "value {i}: {x} vs {y}");
    }
}

// ---- the header ----

#[test]
fn a_header_reads_back_what_was_written() {
    let bytes = build_moe_gguf(ExpertLayout::Merged);
    let g = Gguf::parse(&bytes).unwrap();
    assert_eq!(g.version, 3);
    assert_eq!(g.entries.len(), 11);
    assert_eq!(g.architecture(), Some("llama"));
    assert_eq!(g.arch_u64("embedding_length"), Some(32));
    assert_eq!(g.arch_f32("attention.layer_norm_rms_epsilon"), Some(1e-5f32.to_bits()));
    assert_eq!(g.vocab_len(), Some(64));
    assert_eq!(g.data_offset % 32, 0);
    let t = g.tensor("blk.1.ffn_down_exps.weight").unwrap();
    assert_eq!(t.dims, vec![32, 32, 4]);
    assert_eq!(t.ggml_type, quant::F32);
    assert!(g.is_addressable());
    let embedding = g.tensor_f32(&bytes, "token_embd.weight").unwrap();
    let values: Vec<f32> = embedding.iter().map(value_of).collect();
    assert_eq!(values, weights(1, 32 * 64));
    assert!(matches!(loadable(&g), Loadable::Yes));
    assert_eq!(g.expert_count(), Some(4));
    assert_eq!(g.expert_used_count(), Some(2));
}

#[test]
fn every_kind_of_value_is_read() {
    let mut meta = Vec::new();
    let put = |out: &mut Vec<u8>, key: &str, kind: u32, raw: &[u8]| {
        put_str(out, key);
        out.extend_from_slice(&kind.to_le_bytes());
        out.extend_from_slice(raw);
    };
    put(&mut meta, "u8", 0, &[200]);
    put(&mut meta, "i8", 1, &[0xFF]);
    put(&mut meta, "u16", 2, &60_000u16.to_le_bytes());
    put(&mut meta, "i16", 3, &(-2i16).to_le_bytes());
    put(&mut meta, "i32", 5, &7i32.to_le_bytes());
    put(&mut meta, "bool", 7, &[1]);
    put(&mut meta, "u64", 10, &u64::MAX.to_le_bytes());
    put(&mut meta, "i64", 11, &i64::MIN.to_le_bytes());
    put(&mut meta, "f64", 12, &0.5f64.to_le_bytes());
    put(&mut meta, "general.alignment", 4, &64u32.to_le_bytes());
    let bytes = assemble(&meta, 10, &[]);
    let g = Gguf::parse(&bytes).unwrap();
    let one = |key: &str| match g.get(key) {
        Some(Value::One(s)) => s,
        _ => panic!("{key} is not a single value"),
    };
    assert!(matches!(one("u8"), Scalar::Number(200)));
    assert!(matches!(one("i8"), Scalar::Negative(-1)));
    assert!(matches!(one("u16"), Scalar::Number(60_000)));
    assert!(matches!(one("i16"), Scalar::Negative(-2)));
    assert!(matches!(one("i32"), Scalar::Number(7)));
    assert_eq!(one("bool").as_bool(), Some(true));
    assert!(matches!(one("u64"), Scalar::Number(u64::MAX)));
    assert!(matches!(one("i64"), Scalar::Negative(i64::MIN)));
    match one("f64") {
        Scalar::Double(b) => assert_eq!(f64::from_bits(*b), 0.5),
        _ => panic!("not a double"),
    }
    assert_eq!(g.data_offset % 64, 0);
}

#[test]
fn a_broken_header_is_refused() {
    let bytes = build_moe_gguf(ExpertLayout::Merged);
    let message = |b: &[u8]| Gguf::parse(b).unwrap_err().message();
    assert!(message(&bytes[..20]).contains("Invalid GGUF size, too small"));
    let mut other = bytes.clone();
    other[..4].copy_from_slice(b"\xFFGUF");
    assert!(message(&other).contains("Invalid GGUF magic: \u{FFFD}GUF"));
    for end in [24, 40, 300, 900] {
        assert!(message(&bytes[..end]).contains("Malformed GGUF header"), "cut at {end}");
    }
    // A count that the file cannot hold is refused, not allocated for.
    let mut huge = bytes.clone();
    huge[16..24].copy_from_slice(&u64::MAX.to_le_bytes());
    assert!(message(&huge).contains("Malformed GGUF header"));
    // A list does not hold lists.
    let mut meta = Vec::new();
    put_str(&mut meta, "nested");
    meta.extend_from_slice(&9u32.to_le_bytes());
    meta.extend_from_slice(&9u32.to_le_bytes());
    meta.extend_from_slice(&1u64.to_le_bytes());
    meta.extend_from_slice(&[0; 64]);
    assert!(message(&assemble(&meta, 1, &[])).contains("Malformed GGUF header"));
    match LlamaBackend::load(&bytes[..20]) {
        Err(LoadError::Refused(e)) => assert!(e.message().contains("too small")),
        _ => panic!("a cut file must not load"),
    }
}

#[test]
fn a_tensor_outside_the_file_is_refused() {
    let bytes = build_moe_gguf(ExpertLayout::Merged);
    let g = Gguf::parse(&bytes).unwrap();
    let short = &bytes[..bytes.len() - 4096];
    let e = g.tensor_f32(short, "blk.1.ffn_down_exps.weight").unwrap_err();
    assert!(e.message().contains("runs past the end of the file"));
    let e = g.tensor_f32(&bytes, "nothing").unwrap_err();
    assert!(e.message().contains("tensor 'nothing' not found"));
    let e = match LlamaBackend::try_from_gguf(&g, Source::mapped(short)) {
        Err(LoadError::Refused(e)) => e.message(),
        _ => panic!("a cut map must not load"),
    };
    assert!(e.contains("runs past the end of its buffer"), "{e}");
    // A file that ends after its header holds no weights, wherever they would go.
    for end in [g.data_offset, bytes.len() - 4096] {
        match LlamaBackend::load(&bytes[..end]) {
            Err(LoadError::Refused(e)) => {
                assert!(e.message().contains("runs past the end of the file"), "{}", e.message())
            }
            _ => panic!("a file cut at {end} must not load"),
        }
    }
}

/// A matrix that is expanded has to be of a type that can be, and all in the file.
#[test]
fn a_tensor_that_cannot_be_expanded_is_refused() {
    let tensor = |name: &str, dims: Vec<u64>, ggml_type: u32| TensorInfo {
        name: name.to_owned(),
        dims,
        ggml_type,
        offset: 0,
    };
    let g = Gguf {
        version: 3,
        entries: Vec::new(),
        tensors: vec![
            tensor("plain", vec![4, 2], quant::F32),
            tensor("strange", vec![4, 2], 99),
            tensor("ragged", vec![4, 2], quant::Q4_K),
        ],
        data_offset: 64,
    };
    let message = |r: Result<Weight, GarudaError>| r.unwrap_err().message();
    let file = [0u8; 64 + 32];
    let whole = Source::expanded(&file);
    assert_eq!(load_weight(&g, whole, "plain", 2, 4).unwrap(), Weight::Full { cols: 4 });
    let cut = Source::expanded(&file[..64 + 31]);
    assert!(message(load_weight(&g, cut, "plain", 2, 4))
        .contains("tensor 'plain' runs past the end of the file"));
    assert!(message(load_weight(&g, whole, "strange", 2, 4)).contains("99"));
    assert!(message(load_weight(&g, whole, "ragged", 2, 4))
        .contains("not a multiple of the block size 256"));
    assert!(load_norm(&g, &file, "plain", 8).is_ok());
    let norm =
        |len: usize, name: &str, n: usize| load_norm(&g, &file[..len], name, n).unwrap_err().message();
    assert!(norm(64 + 31, "plain", 8).contains("runs past the end of the file"));
    assert!(norm(64 + 32, "strange", 8).contains("99"));
    assert!(norm(64 + 32, "plain", 7).contains("has 8 values, expected 7"));
    assert!(norm(64 + 32, "none", 7).contains("tensor 'none' not found"));
    // A value that is not finite is refused where values are expanded.
    let mut bad = file;
    bad[64 + 12..64 + 16].copy_from_slice(&f32::NAN.to_le_bytes());
    let told = "tensor produced a non-finite value at index 3";
    assert!(message(load_weight(&g, Source::expanded(&bad), "plain", 2, 4)).contains(told));
    assert!(load_norm(&g, &bad, "plain", 8).unwrap_err().message().contains(told));
    assert!(load_weight(&g, Source::mapped(&bad), "plain", 2, 4).is_ok());
}

/// A checkpoint with a weight that is not finite does not load expanded. Packed, only the
/// values that are expanded anyway are looked at.
#[test]
fn a_checkpoint_with_a_weight_that_is_not_finite_is_refused() {
    let mut bytes = build_moe_gguf(ExpertLayout::Merged);
    let g = Gguf::parse(&bytes).unwrap();
    let at = |name: &str| {
        let t = g.tensors.iter().find(|t| t.name == name).unwrap();
        g.data_offset + t.offset as usize
    };
    let matrix = at("blk.1.attn_q.weight");
    bytes[matrix..matrix + 4].copy_from_slice(&f32::INFINITY.to_le_bytes());
    match LlamaBackend::load(&bytes) {
        Err(LoadError::Refused(e)) => assert!(e.message().contains("non-finite value at index 0")),
        _ => panic!("an infinite weight must not load"),
    }
    assert!(LlamaBackend::try_from_gguf(&g, Source::mapped(&bytes)).is_ok());
    let norm = at("output_norm.weight") + 8;
    bytes[norm..norm + 4].copy_from_slice(&f32::NAN.to_le_bytes());
    match LlamaBackend::try_from_gguf(&g, Source::mapped(&bytes)) {
        Err(LoadError::Refused(e)) => assert!(e.message().contains("non-finite value at index 2")),
        _ => panic!("a norm that is no number must not load"),
    }
}

#[test]
fn loadability_names_what_is_missing() {
    let tensor = |name: &str, ggml_type: u32| TensorInfo {
        name: name.to_owned(),
        dims: vec![32],
        ggml_type,
        offset: 0,
    };
    let text = |s: &str| Value::One(Scalar::Text(s.to_owned()));
    let entry = |key: &str, value: Value| Entry {
        key: key.to_owned(),
        value,
    };
    let mut g = Gguf {
        version: 3,
        entries: vec![entry("general.architecture", text("phi"))],
        tensors: vec![tensor("a", quant::F32), tensor("b", 99)],
        data_offset: 0,
    };
    assert!(matches!(loadable(&g), Loadable::Architecture));
    g.entries[0].value = text("llama");
    assert!(matches!(loadable(&g), Loadable::TensorType(1)));
    g.tensors.pop();
    assert!(matches!(loadable(&g), Loadable::Yes));
    g.entries
        .push(entry("llama.expert_count", Value::One(Scalar::Number(4))));
    g.entries
        .push(entry("llama.block_count", Value::One(Scalar::Number(2))));
    assert!(matches!(loadable(&g), Loadable::Experts(0)));
    g.tensors.push(tensor("blk.0.ffn_gate.0.weight", quant::F32));
    assert!(matches!(loadable(&g), Loadable::Experts(1)));
    g.tensors.push(tensor("blk.1.ffn_gate_exps.weight", quant::F32));
    assert!(matches!(loadable(&g), Loadable::Yes));
    // A checkpoint whose sizes overflow is told so.
    g.tensors[0].dims = vec![u64::MAX, 2];
    assert!(matches!(
        LlamaBackend::try_from_gguf(&g, Source::expanded(&[])),
        Err(LoadError::TooLarge)
    ));
}

// ---- weights ----

#[test]
fn matvec_rows_agrees_between_full_and_packed() {
    let (rows, cols) = (6usize, 4usize);
    let mat: Vec<f32> = (0..rows * cols).map(|i| i as f32 * 0.1 - 1.0).collect();
    let x = vec![0.5, -1.0, 2.0, 0.25];
    let bytes: Vec<u8> = mat.iter().flat_map(|v| v.to_le_bytes()).collect();
    let packed = Weight::Packed {
        qtype: quant::F32,
        cols,
        start: 0,
    };
    // A sub-range of rows [2, 5).
    let (start, len) = packed.row_bytes_range(2, 3).unwrap();
    let raw = quant::dequantize(quant::F32, &bytes[start..start + len], 3 * cols).unwrap();
    let decoded: Vec<f32> = raw.iter().map(value_of).collect();
    for r in 0..3 {
        let naive: f32 = (0..cols).map(|c| mat[(2 + r) * cols + c] * x[c]).sum();
        let got = dot(&decoded[r * cols..(r + 1) * cols], &x);
        assert!((got - naive).abs() < 1e-5, "packed row {r}");
    }
    assert_eq!(Weight::Full { cols }.row_bytes_range(2, 3), None);
}

#[test]
fn packed_k_quant_rows_are_addressed_correctly() {
    let (rows, cols) = (6usize, 512usize);
    let blocks_per_row = cols / 256;
    let row_bytes = 210 * blocks_per_row;
    let mut state = 4242u64;
    let mut rnd = || {
        state = state.wrapping_add(0x9E37_79B9_7F4A_7C15);
        let mut z = state;
        z = (z ^ (z >> 30)).wrapping_mul(0xBF58_476D_1CE4_E5B9);
        z = (z ^ (z >> 27)).wrapping_mul(0x94D0_49BB_1331_11EB);
        z ^ (z >> 31)
    };
    let mut packed = Vec::with_capacity(rows * row_bytes);
    for _ in 0..rows * blocks_per_row {
        let mut b = [0u8; 210];
        for byte in b[0..192].iter_mut() {
            *byte = (rnd() % 256) as u8;
        }
        for s in b[192..208].iter_mut() {
            *s = ((rnd() % 127) as i32 - 63) as i8 as u8;
        }
        b[208..210].copy_from_slice(&0x1400u16.to_le_bytes());
        packed.extend_from_slice(&b);
    }
    let full: Vec<f32> = quant::dequantize(quant::Q6_K, &packed, rows * cols)
        .unwrap()
        .iter()
        .map(value_of)
        .collect();
    let w = Weight::Packed {
        qtype: quant::Q6_K,
        cols,
        start: 0,
    };
    let x: Vec<f32> = (0..cols).map(|i| ((i as f32) * 0.017).sin()).collect();

    // A sub-range of rows [2, 5), the way one expert's slice of a stacked tensor is read.
    let (start, len) = w.row_bytes_range(2, 3).unwrap();
    assert_eq!((start, len), (2 * row_bytes, 3 * row_bytes));
    let slice: Vec<f32> = quant::dequantize(quant::Q6_K, &packed[start..start + len], 3 * cols)
        .unwrap()
        .iter()
        .map(value_of)
        .collect();
    let product = |m: &[f32], r: usize| dot(&m[r * cols..(r + 1) * cols], &x);
    for r in 0..3 {
        assert_eq!(product(&slice, r), product(&full, 2 + r), "row {r}");
    }
    // And a wrong offset must be detectable: neighbouring rows differ.
    assert!((product(&full, 2) - product(&full, 3)).abs() > 1e-6);
}

#[test]
fn an_expert_is_found_in_either_layout() {
    let w = |start: usize| Weight::Packed {
        qtype: quant::F32,
        cols: 8,
        start,
    };
    let stacked = ExpertWeight::Stacked(w(1000));
    assert_eq!(stacked.expert_slot(3, 5), (0, 15));
    assert_eq!(stacked.byte_range(3, 5), Some((1000 + 15 * 32, 5 * 32)));
    let split = ExpertWeight::Split(vec![w(0), w(160), w(320), w(480)]);
    assert_eq!(split.expert_slot(3, 5), (3, 0));
    assert_eq!(split.byte_range(3, 5), Some((480, 160)));
    assert_eq!(split.byte_range(4, 5), None);
    let full = ExpertWeight::Stacked(Weight::Full { cols: 8 });
    assert_eq!(full.byte_range(0, 5), None);
}

// ---- loading and running ----

#[test]
fn synthetic_moe_model_loads_routes_and_runs() {
    let bytes = build_moe_gguf(ExpertLayout::Merged);
    let g = Gguf::parse(&bytes).unwrap();
    let plan = LlamaBackend::load(&bytes).unwrap();
    assert_eq!(plan.config().n_experts, 4);
    assert_eq!(plan.config().n_experts_used, 2);
    assert!(!plan.is_mmapped());

    let mut f32b = loaded(&g, &bytes, false);
    let mut s1 = seq_for(&f32b);
    let a = f32b.logits(&[3, 7, 1], &mut s1).unwrap();
    assert_eq!(a.len(), 64);
    assert!(a.iter().all(|v| v.is_finite()));

    // Different context must give different logits.
    let mut s2 = seq_for(&f32b);
    let b = f32b.logits(&[9, 2, 5], &mut s2).unwrap();
    assert_ne!(a, b);

    // The same model with its weights packed and decoded per row: the per-expert slice
    // offsets into the stacked tensors are the same.
    let mut mapped = loaded(&g, &bytes, true);
    assert!(mapped.plan.is_mmapped());
    let mut s3 = seq_for(&mapped);
    let c = mapped.logits(&[3, 7, 1], &mut s3).unwrap();
    close(&a, &c, 1e-3);
}

#[test]
fn split_expert_tensors_match_merged_layout() {
    let (merged, split) = (
        build_moe_gguf(ExpertLayout::Merged),
        build_moe_gguf(ExpertLayout::Split),
    );
    let (gm, gs) = (Gguf::parse(&merged).unwrap(), Gguf::parse(&split).unwrap());
    let (mut m, mut s) = (loaded(&gm, &merged, false), loaded(&gs, &split, false));
    assert_eq!(s.cfg().n_experts, 4);
    let (mut s1, mut s2) = (seq_for(&m), seq_for(&s));
    let a = m.logits(&[3, 7, 1], &mut s1).unwrap();
    let b = s.logits(&[3, 7, 1], &mut s2).unwrap();
    assert_eq!(a, b);
}

#[test]
fn tied_embeddings_share_one_allocation_and_still_produce_the_same_logits() {
    let bytes = build_gguf(ExpertLayout::Merged, Head::Tied);
    let g = Gguf::parse(&bytes).unwrap();
    let mut tied = loaded(&g, &bytes, true);
    assert!(tied.plan.has_tied_embeddings(), "head should be tied");
    assert_eq!(
        tied.plan.token_embd(),
        tied.plan.output(),
        "the tied head must be the same matrix, not a copy"
    );
    let apart = build_gguf(ExpertLayout::Merged, Head::Separate);
    let ga = Gguf::parse(&apart).unwrap();
    let separate = loaded(&ga, &apart, true);
    assert!(!separate.plan.has_tied_embeddings());
    assert_ne!(separate.plan.token_embd(), separate.plan.output());

    let mut seq = seq_for(&tied);
    let logits = tied.logits(&[3, 7, 1], &mut seq).unwrap();
    assert_eq!(logits.len(), tied.cfg().vocab);
    assert!(logits.iter().all(|v| v.is_finite()));
}

#[test]
fn expert_page_ranges_are_in_bounds_and_distinct() {
    for layout in [ExpertLayout::Merged, ExpertLayout::Split] {
        let bytes = build_moe_gguf(layout);
        let g = Gguf::parse(&bytes).unwrap();
        let plan = LlamaBackend::try_from_gguf(&g, Source::mapped(&bytes)).unwrap();
        let cfg = plan.config();
        let ranges = plan.expert_page_ranges();
        assert_eq!(ranges.len(), cfg.n_layers * cfg.n_experts);
        let mut seen = HashSet::new();
        for id_ranges in &ranges {
            // Three weights per expert, each present in the map.
            assert_eq!(id_ranges.len(), 3);
            for &(start, len) in id_ranges {
                assert!(len > 0);
                assert!(start + len <= bytes.len(), "range runs past the file");
                assert!(seen.insert((start, len)), "duplicate range at {start}");
            }
        }
        let pages = GgufPagePrefetcher::new(bytes.len(), ranges.clone());
        assert_eq!(pages.prefetch(5), ranges[5]);
        let plain = LlamaBackend::load(&bytes).unwrap();
        assert!(plain.expert_page_ranges().iter().all(|r| r.is_empty()));
    }
}

#[test]
fn mod_a_batched_prefill_matches_feeding_tokens_one_at_a_time() {
    let bytes = build_moe_gguf(ExpertLayout::Merged);
    let g = Gguf::parse(&bytes).unwrap();
    for mapped in [false, true] {
        let mut stepwise = loaded(&g, &bytes, mapped);
        let vocab = stepwise.cfg().vocab as Token;
        let tokens: Vec<Token> = (0..12).map(|i| (i * 7 + 3) as Token % vocab).collect();
        let mut step_seq = seq_for(&stepwise);
        let mut last = Vec::new();
        for n in 1..=tokens.len() {
            last = stepwise.logits(&tokens[..n], &mut step_seq).unwrap();
        }
        let mut batched = loaded(&g, &bytes, mapped);
        batched.plan = batched.plan.with_prefill_chunk(64);
        let mut batched_seq = seq_for(&batched);
        let got = batched.logits(&tokens, &mut batched_seq).unwrap();
        assert_eq!(got, last);
        assert_eq!(batched_seq.len(), tokens.len());
    }
}

#[test]
fn a_prefill_spanning_several_chunks_matches_a_stepwise_one() {
    let bytes = build_moe_gguf(ExpertLayout::Merged);
    let g = Gguf::parse(&bytes).unwrap();
    let tokens: Vec<Token> = (0..20).map(|i| (i * 11 + 5) % 64).collect();
    let mut one = loaded(&g, &bytes, false);
    let mut a = seq_for(&one);
    let want = one.logits(&tokens, &mut a).unwrap();
    for chunk in [3, 7, 19, 20] {
        let mut many = loaded(&g, &bytes, false);
        many.plan = many.plan.with_prefill_chunk(chunk);
        assert_eq!(many.plan.prefill_chunk(), chunk);
        let mut b = seq_for(&many);
        assert_eq!(many.logits(&tokens, &mut b).unwrap(), want, "chunks of {chunk}");
        assert_eq!(b.len(), tokens.len());
    }
}

#[test]
fn an_oversized_prefill_is_refused_before_the_layers_run() {
    let bytes = build_moe_gguf(ExpertLayout::Merged);
    let g = Gguf::parse(&bytes).unwrap();
    let mut backend = loaded(&g, &bytes, false);
    let vocab = backend.cfg().vocab as Token;
    let tokens: Vec<Token> = (0..40).map(|i| (i as Token) % vocab).collect();
    let mut seq = seq_with_capacity(&backend.plan, 16);
    let err = backend.logits(&tokens, &mut seq).unwrap_err();
    assert!(matches!(err, GarudaError::Cache(_)), "got {err:?}");
    assert_eq!(seq.len(), 0, "a refused prefill must not have touched the kv");
    for l in 0..backend.cfg().n_layers {
        assert_eq!(seq.layer_len(l), 0, "layer {l} was advanced anyway");
    }
}

#[test]
fn mod_a_batched_decode_step_matches_decoding_each_sequence_alone() {
    let bytes = build_moe_gguf(ExpertLayout::Merged);
    let g = Gguf::parse(&bytes).unwrap();
    let mut backend = loaded(&g, &bytes, false);
    let contexts: Vec<Vec<Token>> = vec![vec![3, 7, 1, 9], vec![5, 2], vec![8, 8, 4]];
    let mut alone = Vec::new();
    for c in &contexts {
        let mut s = seq_for(&backend);
        backend.logits(&c[..c.len() - 1], &mut s).unwrap();
        alone.push(backend.logits(c, &mut s).unwrap());
    }
    let mut owned: Vec<SeqState> = contexts.iter().map(|_| seq_for(&backend)).collect();
    for (c, s) in contexts.iter().zip(owned.iter_mut()) {
        backend.logits(&c[..c.len() - 1], s).unwrap();
    }
    let mut seqs: Vec<&mut SeqState> = owned.iter_mut().collect();
    let together = backend.logits_batch(&contexts, &mut seqs).unwrap();
    assert_eq!(together, alone);
    for (c, s) in contexts.iter().zip(&owned) {
        assert_eq!(s.len(), c.len());
    }
}

#[test]
fn mod_a_ragged_batch_falls_back_and_still_answers_correctly() {
    let bytes = build_moe_gguf(ExpertLayout::Merged);
    let g = Gguf::parse(&bytes).unwrap();
    let mut backend = loaded(&g, &bytes, false);
    let contexts: Vec<Vec<Token>> = vec![vec![1, 2, 3], vec![4, 5]];
    let mut want = Vec::new();
    for c in &contexts {
        let mut s = seq_for(&backend);
        want.push(backend.logits(c, &mut s).unwrap());
    }
    let mut owned: Vec<SeqState> = (0..2).map(|_| seq_for(&backend)).collect();
    let mut seqs: Vec<&mut SeqState> = owned.iter_mut().collect();
    let got = backend.logits_batch(&contexts, &mut seqs).unwrap();
    assert_eq!(got, want);
}

#[test]
fn logits_batch_rejects_mismatched_lengths_and_bad_tokens() {
    let bytes = build_moe_gguf(ExpertLayout::Merged);
    let g = Gguf::parse(&bytes).unwrap();
    let mut backend = loaded(&g, &bytes, false);
    let c: Vec<Token> = vec![1, 2];
    let mut owned = [seq_for(&backend), seq_for(&backend)];
    let mut seqs: Vec<&mut SeqState> = owned.iter_mut().collect();
    assert!(
        backend.logits_batch(&[c.clone()], &mut seqs).is_err(),
        "one context for two sequences must not be accepted"
    );
    // Bring both to the same length, then step with an out-of-vocabulary token.
    backend.logits(&c, seqs[0]).unwrap();
    backend.logits(&c, seqs[1]).unwrap();
    let bad: Vec<Token> = vec![1, 2, backend.cfg().vocab as Token + 3];
    let err = backend
        .logits_batch(&[bad.clone(), bad], &mut seqs)
        .unwrap_err();
    assert!(matches!(err, GarudaError::InvalidToken(_)), "got {err:?}");
    assert_eq!(seqs[0].len(), 2, "a refused batch must not advance any cache");
    assert_eq!(seqs[1].len(), 2);
}

#[test]
fn logits_multi_matches_stopping_at_each_position() {
    let bytes = build_moe_gguf(ExpertLayout::Merged);
    let g = Gguf::parse(&bytes).unwrap();
    let mut backend = loaded(&g, &bytes, false);
    let tokens: Vec<Token> = vec![3, 7, 1, 9, 2, 5];
    let n = 4;
    let mut seq = seq_for(&backend);
    let many = backend.logits_multi(&tokens, &mut seq, n).unwrap();
    assert_eq!(many.len(), n);
    assert_eq!(seq.len(), tokens.len(), "the pass must consume every token");
    for (k, got) in many.iter().enumerate() {
        let upto = tokens.len() - n + k + 1;
        let mut alone = seq_for(&backend);
        let want = backend.logits(&tokens[..upto], &mut alone).unwrap();
        assert_eq!(got, &want, "position {upto} differs from stopping there");
    }
}

#[test]
fn logits_multi_refuses_more_positions_than_it_computed() {
    let bytes = build_moe_gguf(ExpertLayout::Merged);
    let g = Gguf::parse(&bytes).unwrap();
    let mut backend = loaded(&g, &bytes, false);
    let tokens: Vec<Token> = vec![3, 7, 1];
    let mut seq = seq_for(&backend);
    backend.logits(&tokens, &mut seq).unwrap();
    // Only one token is new, so there is no earlier position to report on.
    let more: Vec<Token> = vec![3, 7, 1, 9];
    let err = backend.logits_multi(&more, &mut seq, 3).unwrap_err();
    assert!(matches!(err, GarudaError::Inference(_)), "got {err:?}");
}

/// A model as the runtime takes it.
struct Shared<'m, 'a>(RefCell<&'m mut Model<'a>>);

impl InferenceBackend for Shared<'_, '_> {
    fn dims(&self) -> ModelDims {
        self.0.borrow().plan.dims()
    }

    fn hidden(&self, context: &[Token], seq: &mut SeqState) -> Result<Vec<u32>, GarudaError> {
        self.logits(context, seq)
    }

    fn logits(&self, context: &[Token], seq: &mut SeqState) -> Result<Vec<u32>, GarudaError> {
        Ok(bits(&self.0.borrow_mut().logits(context, seq)?))
    }

    fn speculation_supported(&self) -> bool {
        true
    }

    fn logits_multi(
        &self,
        context: &[Token],
        seq: &mut SeqState,
        n: usize,
    ) -> Result<Vec<Vec<u32>>, GarudaError> {
        let answers = self.0.borrow_mut().logits_multi(context, seq, n)?;
        Ok(answers.iter().map(|a| bits(a)).collect())
    }
}

/// No draws here: every request is greedy.
struct NoDraws;

impl Sampler for NoDraws {
    fn draw(&self, _: &[u32], _: &SamplingParams, _: &mut Rng) -> Option<Token> {
        unreachable!("greedy requests are not drawn")
    }

    fn verify(
        &self,
        _: &[u32],
        _: &SamplingParams,
        _: Token,
        _: &mut Rng,
    ) -> Option<(bool, Token)> {
        unreachable!("greedy requests are not drawn")
    }
}

/// A draft model must not change what the target produces. Greedy is the strict case: a
/// guess is kept only where the target's own choice agrees, so the tokens have to match
/// plain decoding exactly, and both caches have to end up describing those same tokens.
#[test]
fn a_draft_model_does_not_change_greedy_output() {
    let bytes = build_moe_gguf(ExpertLayout::Merged);
    let g = Gguf::parse(&bytes).unwrap();
    // A second, independently loaded copy stands in for a draft model: it shares the
    // vocabulary, which is the only thing the mechanism requires. A third one has other
    // weights, so that its guesses miss.
    let other_bytes = build_gguf(ExpertLayout::Split, Head::Tied);
    let og = Gguf::parse(&other_bytes).unwrap();
    let (mut target, mut same, mut other) = (
        loaded(&g, &bytes, false),
        loaded(&g, &bytes, false),
        loaded(&og, &other_bytes, false),
    );
    let kv = |m: &Model| KvConfig {
        dims: m.plan.dims(),
        kv_dim: m.cfg().kv_dim(),
        n_layers: m.cfg().n_layers,
        kv_dims: None,
        max_positions: 64,
        max_resident_blocks: 64,
        sliding_window: None,
        storage: None,
    };
    let mut plain = InferenceRuntime::new(kv(&target), 4, 1 << 20);
    let mut spec = InferenceRuntime::new(kv(&target), 4, 1 << 20).with_drafter(kv(&same));
    assert!(spec.has_drafter() && !plain.has_drafter());
    let ends = Ends {
        eos: 2,
        turn_end: None,
    };
    let p = SamplingParams {
        temperature_bits: 0.0f32.to_bits(),
        top_p_bits: 1.0f32.to_bits(),
        top_k: 0,
        max_tokens: 20,
        seed: Some(1),
    };
    let prompt: Vec<Token> = vec![3, 7, 1, 9, 2];

    let model = Shared(RefCell::new(&mut target));
    let mut a = plain.start(&model, &prompt, &p).unwrap();
    let mut want = Vec::new();
    while let Ok(t) = plain.next_token(&model, &NoDraws, &mut a, &p, ends) {
        want.push(t);
    }

    for (draft, agrees) in [(&mut same, true), (&mut other, false)] {
        let drafter = Shared(RefCell::new(draft));
        let mut b = spec.start(&model, &prompt, &p).unwrap();
        let mut got = Vec::new();
        let mut multi = 0;
        loop {
            let mut batch = Vec::new();
            let done = spec
                .next_tokens_speculative(
                    &model,
                    Some(&drafter),
                    &NoDraws,
                    &mut b,
                    &p,
                    ends,
                    4,
                    &mut batch,
                )
                .is_err();
            if batch.len() > 1 {
                multi += 1;
            }
            got.extend(batch);
            let kept = b.context().len() - 1;
            assert_eq!(b.seq().len(), kept, "one position fewer than tokens");
            if done {
                break;
            }
        }
        assert_eq!(got, want, "the draft model changed the output");
        assert!(
            multi > 0 || !agrees,
            "no round ever won more than one token, so the accept path went untested"
        );
        assert_eq!(a.generated(), b.generated());
    }
}

#[test]
fn prefetch_engine_warms_experts_without_changing_logits() {
    let bytes = build_moe_gguf(ExpertLayout::Merged);
    let g = Gguf::parse(&bytes).unwrap();
    let tokens: Vec<Token> = vec![3, 7, 1, 9, 2, 5, 4, 8, 6, 0];
    let mut plain = loaded(&g, &bytes, true);
    let mut s_plain = seq_for(&plain);
    let baseline: Vec<Vec<f32>> = (1..=tokens.len())
        .map(|n| plain.logits(&tokens[..n], &mut s_plain).unwrap())
        .collect();

    let mut with_pf = loaded(&g, &bytes, true);
    let cfg = with_pf.cfg();
    let predictor = ExpertPredictor::new(cfg.n_layers * cfg.n_experts);
    with_pf.prefetch = Some(PrefetchEngine::new(
        predictor,
        true,
        cfg.n_experts_used.max(1),
    ));
    let mut s_pf = seq_for(&with_pf);
    for (n, want) in (1..=tokens.len()).zip(&baseline) {
        let got = with_pf.logits(&tokens[..n], &mut s_pf).unwrap();
        assert_eq!(&got, want, "prefetch changed output at step {n}");
    }
    let pf = with_pf.prefetch.unwrap();
    assert!(
        pf.launched() + pf.skipped() > 0,
        "prefetcher predicted nothing across {} decode steps",
        tokens.len()
    );
    assert!(pf.is_drained());
    let noted: Vec<ExpertId> = s_pf.layer(1).noted().0.clone();
    assert!(noted.iter().all(|id| (4..8).contains(id)), "layer 1 has ids 4 to 7");
}

/// The engine follows the file where the file decides, and the configuration elsewhere.
#[test]
fn a_checkpoint_settles_its_engine() {
    let bytes = build_moe_gguf(ExpertLayout::Merged);
    let g = Gguf::parse(&bytes).unwrap();
    assert!(!Engine::is_hybrid(&g));
    let mut c = AppConfig::default();
    c.model.context = 48;
    c.model.prefill_batch = 3;
    let (backend, e) = Engine::build_gguf(&c, "m.gguf", &g, Source::mapped(&bytes)).unwrap();
    let cfg = backend.config();
    assert!(
        matches!(&e.backend, Backend::Gguf { path, layers } if path == "m.gguf" && *layers == 2)
    );
    assert_eq!(e.dims, backend.dims());
    assert_eq!(e.chat, ChatFormat::Plain, "the file names no template");
    assert_eq!(e.kv.kv_dim, cfg.kv_dim());
    assert_eq!(e.kv.n_layers, 2);
    assert_eq!(e.kv.max_positions, 48.min(cfg.context));
    assert_eq!(e.prefill_chunk, 3);
    assert_eq!(e.draft, None);
    assert_eq!(
        e.warming,
        Warming::Experts {
            count: 2 * cfg.n_experts,
            depth: cfg.n_experts_used,
        }
    );
    // Weights that were expanded in memory have nothing to warm.
    let (_, e) = Engine::build_gguf(&c, "m.gguf", &g, Source::expanded(&bytes)).unwrap();
    assert_eq!(e.warming, Warming::Nothing);
    c.memory.prompt_cache = "some".into();
    assert!(matches!(
        Engine::build_gguf(&c, "m.gguf", &g, Source::expanded(&bytes)),
        Err(BuildError::Config(GarudaError::Config(_)))
    ));
    // What is wrong with the checkpoint is told first.
    assert!(matches!(
        Engine::build_gguf(&c, "m.gguf", &g, Source::expanded(&bytes[..g.data_offset])),
        Err(BuildError::Load(LoadError::Refused(_)))
    ));
}

#[test]
fn a_draft_of_another_vocabulary_is_refused() {
    let bytes = build_moe_gguf(ExpertLayout::Split);
    let draft = LlamaBackend::load(&bytes).unwrap();
    let c = AppConfig::default();
    let kv = Engine::load_draft(&c, "d.gguf", &draft, 64).unwrap();
    assert_eq!(kv.dims, draft.dims());
    assert_eq!(kv.max_positions, c.model.context.min(draft.config().context));
    assert!(!kv.spills, "small and short-lived");
    assert_eq!(
        Engine::load_draft(&c, "d.gguf", &draft, 65).unwrap_err(),
        "draft checkpoint d.gguf has a 64-token vocabulary but the model has 65 \u{2014} they \
         must be the same, or a token id means different words to each"
    );
}
