//! Which tensors a checkpoint must hold, and where the weights of each block lie.

use crate::gguf::parse;
use crate::gguf::{Gguf, TensorInfo};
use crate::llama::loader;
use crate::llama::loader::{LoadError, Request};
use crate::llama::weight;
use crate::llama::weight::{load_norm, load_weight, Source, Weight};
use crate::quant;
use crate::qwen35::config;
use crate::qwen35::config::Qwen35Config;
use crate::text;
use crate::text::{chars_of, matches_at, parse_unsigned, push_size};
use crate::types::{Fault, GarudaError, ModelDims};
use vstd::prelude::*;
use vstd::slice::slice_subrange;
use vstd::string::*;

verus! {

/// `blk.{l}.{rest}`.
pub open spec fn named(l: nat, rest: Seq<char>) -> Seq<char> {
    "blk."@ + text::decimal(l) + "."@ + rest
}

fn block_name(l: usize, rest: &str) -> (s: String)
    ensures
        s@ == named(l as nat, rest@),
{
    let mut s = "blk.".to_owned();
    push_size(&mut s, l);
    s.append(".");
    s.append(rest);
    s
}

/// A tensor to load.
struct Ask {
    name: String,
    rows: usize,
    /// None for a small tensor, which is always expanded.
    cols: Option<usize>,
}

impl Ask {
    spec fn view(&self) -> Request {
        match self.cols {
            Some(cols) => Request::Matrix(self.name@, self.rows as nat, cols),
            None => Request::Norm(self.name@, self.rows as nat),
        }
    }

    spec fn fits(&self) -> bool {
        self.cols matches Some(cols) ==> self.rows * cols <= usize::MAX
    }
}

spec fn asked(asks: Seq<Ask>) -> Seq<Request> {
    asks.map_values(|a: Ask| a@)
}

/// What was placed for a request.
pub open spec fn answers(g: Gguf, source: Source, r: Request, w: Weight) -> bool {
    r matches Request::Matrix(name, rows, cols) ==> weight::placed(g, source, name, rows, cols)
        == Ok::<Weight, Fault>(w)
}

/// Places tensors in order. A small tensor is checked for, and answered by a matrix of
/// a single row.
fn load_all(g: &Gguf, source: Source, asks: &Vec<Ask>) -> (r: Result<
    Vec<Weight>,
    GarudaError,
>)
    requires
        g.wf(),
        forall|i: int| 0 <= i < asks@.len() ==> (#[trigger] asks@[i]).fits(),
    ensures
        match r {
            Ok(ws) => {
                &&& loader::first_fault(*g, source, asked(asks@)) is None
                &&& ws@.len() == asks@.len()
                &&& forall|i: int|
                    0 <= i < ws@.len() ==> answers(
                        *g,
                        source,
                        asked(asks@)[i],
                        #[trigger] ws@[i],
                    )
            },
            Err(e) => loader::first_fault(*g, source, asked(asks@)) matches Some(f) && f.is(e),
        },
{
    let ghost rs = asked(asks@);
    let mut ws: Vec<Weight> = Vec::new();
    let mut i: usize = 0;
    proof {
        loader::no_request(*g, source, rs);
    }
    while i < asks.len()
        invariant
            g.wf(),
            forall|i: int| 0 <= i < asks@.len() ==> (#[trigger] asks@[i]).fits(),
            rs == asked(asks@),
            i <= asks@.len(),
            ws@.len() == i,
            loader::first_fault(*g, source, rs.take(i as int)) is None,
            forall|k: int| 0 <= k < i ==> answers(*g, source, rs[k], #[trigger] ws@[k]),
        decreases asks@.len() - i,
    {
        proof {
            loader::next_request(*g, source, rs, i as int);
            assert(rs[i as int] == asks@[i as int]@);
            assert(asks@[i as int].fits());
        }
        let a = &asks[i];
        match a.cols {
            Some(cols) => match load_weight(g, source, a.name.as_str(), a.rows, cols) {
                Ok(w) => {
                    ws.push(w);
                },
                Err(e) => {
                    return Err(e);
                },
            },
            None => match load_norm(g, source.bytes, a.name.as_str(), a.rows) {
                Ok(_) => {
                    ws.push(Weight::Full { cols: a.rows });
                },
                Err(e) => {
                    return Err(e);
                },
            },
        }
        i += 1;
    }
    proof {
        loader::all_requests(*g, source, rs);
    }
    Ok(ws)
}

/// A matrix of block `l`.
pub open spec fn matrix(l: nat, name: Seq<char>, rows: int, cols: int) -> Request {
    Request::Matrix(named(l, name), rows as nat, cols as usize)
}

/// A small tensor of block `l`.
pub open spec fn small(l: nat, name: Seq<char>, n: int) -> Request {
    Request::Norm(named(l, name), n as nat)
}

/// What a delta net block is loaded from, in order: the joint projection, the output
/// gate, the convolution taps, write strength, decay, its bias and scale, the norm and
/// the output projection.
pub open spec fn linear_requests(c: Qwen35Config, l: nat) -> Seq<Request> {
    let d = c.d_model as int;
    seq![
        matrix(l, "attn_qkv.weight"@, c.conv_width(), d),
        matrix(l, "attn_gate.weight"@, c.value_width(), d),
        small(l, "ssm_conv1d.weight"@, c.conv_width() * c.conv_kernel),
        matrix(l, "ssm_beta.weight"@, c.n_v_heads as int, d),
        matrix(l, "ssm_alpha.weight"@, c.n_v_heads as int, d),
        small(l, "ssm_dt.bias"@, c.n_v_heads as int),
        small(l, "ssm_a"@, c.n_v_heads as int),
        small(l, "ssm_norm.weight"@, c.value_head_dim as int),
        matrix(l, "ssm_out.weight"@, d, c.value_width()),
    ]
}

/// What an attention block is loaded from, in order. The query projection emits a gate
/// next to every head's query.
pub open spec fn attn_requests(c: Qwen35Config, l: nat) -> Seq<Request> {
    let d = c.d_model as int;
    seq![
        matrix(l, "attn_q.weight"@, 2 * c.attn_width(), d),
        matrix(l, "attn_k.weight"@, c.kv_width(), d),
        matrix(l, "attn_v.weight"@, c.kv_width(), d),
        matrix(l, "attn_output.weight"@, d, c.attn_width()),
        small(l, "attn_q_norm.weight"@, c.head_dim as int),
        small(l, "attn_k_norm.weight"@, c.head_dim as int),
    ]
}

/// What every block is loaded from besides its mixer, in order.
pub open spec fn common_requests(c: Qwen35Config, l: nat) -> Seq<Request> {
    let (d, f) = (c.d_model as int, c.d_ff as int);
    seq![
        small(l, "attn_norm.weight"@, d),
        small(l, "post_attention_norm.weight"@, d),
        matrix(l, "ffn_gate.weight"@, f, d),
        matrix(l, "ffn_up.weight"@, f, d),
        matrix(l, "ffn_down.weight"@, d, f),
    ]
}

/// What block `l` is loaded from, in order.
pub open spec fn block_requests(c: Qwen35Config, l: nat) -> Seq<Request> {
    (if c.recurrent@[l as int] {
        linear_requests(c, l)
    } else {
        attn_requests(c, l)
    }) + common_requests(c, l)
}

/// What is loaded before the blocks, in order.
pub open spec fn head_requests(g: Gguf, c: Qwen35Config) -> Seq<Request> {
    let embedding = Request::Matrix("token_embd.weight"@, c.vocab as nat, c.d_model);
    let norm = Request::Norm("output_norm.weight"@, c.d_model as nat);
    if g.has("output.weight"@) {
        seq![embedding, norm, Request::Matrix("output.weight"@, c.vocab as nat, c.d_model)]
    } else {
        seq![embedding, norm]
    }
}

/// The first fault in loading `n` blocks after the head.
pub open spec fn load_fault(g: Gguf, source: Source, c: Qwen35Config, n: nat) -> Option<
    Fault,
>
    decreases n,
{
    if n == 0 {
        loader::first_fault(g, source, head_requests(g, c))
    } else if load_fault(g, source, c, (n - 1) as nat) is Some {
        load_fault(g, source, c, (n - 1) as nat)
    } else {
        loader::first_fault(g, source, block_requests(c, (n - 1) as nat))
    }
}

proof fn early_load_fault(g: Gguf, source: Source, c: Qwen35Config, a: nat, b: nat)
    requires
        load_fault(g, source, c, a) is Some,
        a <= b,
    ensures
        load_fault(g, source, c, b) == load_fault(g, source, c, a),
    decreases b - a,
{
    if a < b {
        early_load_fault(g, source, c, a, (b - 1) as nat);
    }
}

/// Products that stay below the ones known to fit.
pub(crate) proof fn sizes_bounded(c: Qwen35Config)
    requires
        c.wf(),
        c.fits(),
    ensures
        0 <= c.value_width() <= usize::MAX,
        c.value_width() * c.d_model <= usize::MAX,
        c.d_model * c.value_width() <= usize::MAX,
        0 <= c.kv_width() <= usize::MAX,
        c.kv_width() * c.d_model <= usize::MAX,
        0 <= c.attn_width() <= usize::MAX,
        c.d_model * c.attn_width() <= usize::MAX,
        c.d_model * c.d_ff <= usize::MAX,
        0 <= c.conv_width() * c.conv_kernel <= usize::MAX,
{
    config::widths_are_natural(c);
    config::kv_within_attn(c);
    let (d, f) = (c.d_model as int, c.d_ff as int);
    let (v, w, a, k) = (c.value_width(), c.conv_width(), c.attn_width(), c.kv_width());
    assert(v * d <= w * d && d * v == v * d) by (nonlinear_arith)
        requires
            0 <= v <= w,
            d >= 0,
    ;
    assert(k * d <= a * d && a * d <= 2 * a * d && d * a == a * d) by (nonlinear_arith)
        requires
            0 <= k <= a,
            d >= 0,
    ;
    assert(d * f == f * d) by (nonlinear_arith);
    let q = c.conv_kernel as int;
    assert(w * q >= 0) by (nonlinear_arith)
        requires
            w >= 0,
            q >= 0,
    ;
}

fn ask(asks: &mut Vec<Ask>, l: usize, rest: &str, rows: usize, cols: Option<usize>)
    requires
        cols matches Some(k) ==> rows * k <= usize::MAX,
        forall|i: int| 0 <= i < old(asks)@.len() ==> (#[trigger] old(asks)@[i]).fits(),
    ensures
        forall|i: int| 0 <= i < final(asks)@.len() ==> (#[trigger] final(asks)@[i]).fits(),
        asked(final(asks)@) == asked(old(asks)@).push(
            match cols {
                Some(k) => matrix(l as nat, rest@, rows as int, k as int),
                None => small(l as nat, rest@, rows as int),
            },
        ),
{
    let a = Ask { name: block_name(l, rest), rows, cols };
    let ghost before = asks@;
    asks.push(a);
    assert(asked(asks@) =~= asked(before).push(a@));
}

/// Asks for everything that block `l` is loaded from.
fn block_asks(c: &Qwen35Config, l: usize) -> (asks: Vec<Ask>)
    requires
        c.wf(),
        c.fits(),
        l < c.n_layers,
    ensures
        asked(asks@) == block_requests(*c, l as nat),
        forall|i: int| 0 <= i < asks@.len() ==> (#[trigger] asks@[i]).fits(),
{
    proof {
        sizes_bounded(*c);
    }
    let (d, f): (usize, usize) = (c.d_model, c.d_ff);
    let mut asks: Vec<Ask> = Vec::new();
    assert(asked(asks@) =~= Seq::<Request>::empty());
    if c.recurrent[l] {
        let conv: usize = c.conv_dim();
        let value: usize = c.value_dim();
        let nv: usize = c.n_v_heads;
        ask(&mut asks, l, "attn_qkv.weight", conv, Some(d));
        ask(&mut asks, l, "attn_gate.weight", value, Some(d));
        ask(&mut asks, l, "ssm_conv1d.weight", conv * c.conv_kernel, None);
        ask(&mut asks, l, "ssm_beta.weight", nv, Some(d));
        ask(&mut asks, l, "ssm_alpha.weight", nv, Some(d));
        ask(&mut asks, l, "ssm_dt.bias", nv, None);
        ask(&mut asks, l, "ssm_a", nv, None);
        ask(&mut asks, l, "ssm_norm.weight", c.value_head_dim, None);
        ask(&mut asks, l, "ssm_out.weight", d, Some(value));
        assert(asked(asks@) =~= linear_requests(*c, l as nat));
    } else {
        let attn: usize = c.attn_dim();
        let kv: usize = c.kv_dim();
        ask(&mut asks, l, "attn_q.weight", 2 * attn, Some(d));
        ask(&mut asks, l, "attn_k.weight", kv, Some(d));
        ask(&mut asks, l, "attn_v.weight", kv, Some(d));
        ask(&mut asks, l, "attn_output.weight", d, Some(attn));
        ask(&mut asks, l, "attn_q_norm.weight", c.head_dim, None);
        ask(&mut asks, l, "attn_k_norm.weight", c.head_dim, None);
        assert(asked(asks@) =~= attn_requests(*c, l as nat));
    }
    let ghost mixer = asked(asks@);
    ask(&mut asks, l, "attn_norm.weight", d, None);
    ask(&mut asks, l, "post_attention_norm.weight", d, None);
    ask(&mut asks, l, "ffn_gate.weight", f, Some(d));
    ask(&mut asks, l, "ffn_up.weight", f, Some(d));
    ask(&mut asks, l, "ffn_down.weight", d, Some(f));
    assert(asked(asks@) =~= mixer + common_requests(*c, l as nat));
    asks
}

/// One block's token mixer: grouped-query attention, or a gated delta net.
#[derive(Debug, Clone, Copy, PartialEq, Eq)]
pub enum Mixer {
    Attn {
        /// Query *and* output gate, one after the other per head.
        wqg: Weight,
        wk: Weight,
        wv: Weight,
        wo: Weight,
    },
    Linear {
        /// Joint query/key/value projection.
        wqkv: Weight,
        /// The output gate.
        wz: Weight,
        /// Write strength, one row per value head.
        wbeta: Weight,
        /// Decay, one row per value head.
        walpha: Weight,
        wout: Weight,
    },
}

/// Where one block's matrices lie. Its small tensors are present and of the right size.
#[derive(Debug, Clone, Copy, PartialEq, Eq)]
pub struct Layer {
    pub mixer: Mixer,
    pub ffn_gate: Weight,
    pub ffn_up: Weight,
    pub ffn_down: Weight,
}

/// The weights are those of block `l`.
pub open spec fn is_block(x: Layer, g: Gguf, source: Source, c: Qwen35Config, l: nat) -> bool {
    let common = common_requests(c, l);
    &&& match x.mixer {
        Mixer::Linear { wqkv, wz, wbeta, walpha, wout } => {
            let rs = linear_requests(c, l);
            &&& c.recurrent@[l as int]
            &&& answers(g, source, rs[0], wqkv)
            &&& answers(g, source, rs[1], wz)
            &&& answers(g, source, rs[3], wbeta)
            &&& answers(g, source, rs[4], walpha)
            &&& answers(g, source, rs[8], wout)
        },
        Mixer::Attn { wqg, wk, wv, wo } => {
            let rs = attn_requests(c, l);
            &&& !c.recurrent@[l as int]
            &&& answers(g, source, rs[0], wqg)
            &&& answers(g, source, rs[1], wk)
            &&& answers(g, source, rs[2], wv)
            &&& answers(g, source, rs[3], wo)
        },
    }
    &&& answers(g, source, common[2], x.ffn_gate)
    &&& answers(g, source, common[3], x.ffn_up)
    &&& answers(g, source, common[4], x.ffn_down)
}

/// Places the weights of block `l`.
fn load_block(g: &Gguf, source: Source, c: &Qwen35Config, l: usize) -> (r: Result<
    Layer,
    GarudaError,
>)
    requires
        g.wf(),
        c.wf(),
        c.fits(),
        l < c.n_layers,
    ensures
        match r {
            Ok(x) => {
                &&& is_block(x, *g, source, *c, l as nat)
                &&& loader::first_fault(*g, source, block_requests(*c, l as nat)) is None
            },
            Err(e) => loader::first_fault(*g, source, block_requests(*c, l as nat)) matches Some(f)
                && f.is(e),
        },
{
    let asks = block_asks(c, l);
    let ghost rs = block_requests(*c, l as nat);
    assert(asks@.len() == rs.len());
    let ws = match load_all(g, source, &asks) {
        Ok(ws) => ws,
        Err(e) => {
            return Err(e);
        },
    };
    let (mixer, n): (Mixer, usize) = if c.recurrent[l] {
        proof {
            assert forall|i: int| 0 <= i < 9 implies answers(
                *g,
                source,
                linear_requests(*c, l as nat)[i],
                #[trigger] ws@[i],
            ) by {
                assert(rs[i] == linear_requests(*c, l as nat)[i]);
            }
        }
        (
            Mixer::Linear {
                wqkv: ws[0],
                wz: ws[1],
                wbeta: ws[3],
                walpha: ws[4],
                wout: ws[8],
            },
            9,
        )
    } else {
        proof {
            assert forall|i: int| 0 <= i < 6 implies answers(
                *g,
                source,
                attn_requests(*c, l as nat)[i],
                #[trigger] ws@[i],
            ) by {
                assert(rs[i] == attn_requests(*c, l as nat)[i]);
            }
        }
        (Mixer::Attn { wqg: ws[0], wk: ws[1], wv: ws[2], wo: ws[3] }, 6)
    };
    proof {
        assert forall|i: int| 0 <= i < 5 implies answers(
            *g,
            source,
            common_requests(*c, l as nat)[i],
            #[trigger] ws@[n + i],
        ) by {
            assert(rs[n + i] == common_requests(*c, l as nat)[i]);
        }
        assert(answers(*g, source, common_requests(*c, l as nat)[2], ws@[n + 2]));
        assert(answers(*g, source, common_requests(*c, l as nat)[3], ws@[n + 3]));
        assert(answers(*g, source, common_requests(*c, l as nat)[4], ws@[n + 4]));
    }
    Ok(Layer { mixer, ffn_gate: ws[n + 2], ffn_up: ws[n + 3], ffn_down: ws[n + 4] })
}

/// The place of the first dot, from `from` on.
pub open spec fn dot_at(s: Seq<char>, from: int) -> Option<int>
    decreases s.len() - from,
{
    if from < 0 || from >= s.len() {
        None
    } else if s[from] == '.' {
        Some(from)
    } else {
        dot_at(s, from + 1)
    }
}

/// The block that a tensor belongs to, by its name: the number between `blk.` and the
/// next dot.
pub open spec fn block_of(name: Seq<char>) -> Option<nat> {
    if !text::stands_at(name, 0, "blk."@) {
        None
    } else {
        match dot_at(name, 4) {
            Some(p) => text::unsigned(name.subrange(4, p)),
            None => None,
        }
    }
}

fn block_index(name: &str) -> (r: Option<usize>)
    ensures
        match r {
            Some(l) => block_of(name@) == Some(l as nat),
            None => block_of(name@) matches Some(l) ==> l > usize::MAX,
        },
{
    let cs = chars_of(name);
    let prefix = chars_of("blk.");
    proof {
        reveal_strlit("blk.");
    }
    if !matches_at(cs.as_slice(), 0, prefix.as_slice()) {
        return None;
    }
    let mut p: usize = 4;
    while p < cs.len()
        invariant
            cs@ == name@,
            4 <= p <= cs@.len(),
            text::stands_at(name@, 0, "blk."@),
            dot_at(name@, 4) == dot_at(name@, p as int),
        decreases cs@.len() - p,
    {
        if cs[p] == '.' {
            return parse_unsigned(slice_subrange(cs.as_slice(), 4, p));
        }
        p += 1;
    }
    None
}

/// The tensor belongs to block `l`.
pub open spec fn belongs(t: TensorInfo, l: nat) -> bool {
    block_of(t.name@) == Some(l)
}

/// The bytes from the first of a block's tensors to the end of the last, among the
/// first `n` tensors of a file.
pub open spec fn span(g: Gguf, l: nat, n: nat) -> Option<(nat, nat)>
    decreases n,
{
    if n == 0 {
        None
    } else {
        let t = g.tensors@[n - 1];
        let before = span(g, l, (n - 1) as nat);
        if !belongs(t, l) {
            before
        } else {
            let start = g.data_offset as nat + t.offset as nat;
            let end = start + t.stored_bytes();
            match before {
                None => Some((start, end)),
                Some((a, b)) => Some(
                    (
                        if start < a {
                            start
                        } else {
                            a
                        },
                        if end > b {
                            end
                        } else {
                            b
                        },
                    ),
                ),
            }
        }
    }
}

/// Where a span starts, and how long it is; nothing where there is none.
pub open spec fn start_and_length(s: Option<(nat, nat)>) -> (nat, nat) {
    match s {
        Some((a, b)) => (a, (b - a) as nat),
        None => (0, 0),
    }
}

proof fn span_bounds(g: Gguf, l: nat, n: nat)
    requires
        g.wf(),
        n <= g.tensors@.len(),
    ensures
        span(g, l, n) matches Some((a, b)) ==> a <= b <= usize::MAX,
    decreases n,
{
    if n > 0 {
        span_bounds(g, l, (n - 1) as nat);
    }
}

/// Where each of `n` blocks' weights live in the file: the start, and the length.
///
/// A converter writes a block's tensors together, so this is one span per block, and
/// warming it is a large sequential read.
pub fn layer_spans(g: &Gguf, n: usize) -> (out: Vec<(usize, usize)>)
    requires
        g.wf(),
    ensures
        out@.len() == n,
        forall|l: int|
            0 <= l < n ==> {
                let s = start_and_length(span(*g, l as nat, g.tensors@.len()));
                (#[trigger] out@[l]).0 == s.0 && out@[l].1 == s.1
            },
{
    let mut spans: Vec<Option<(usize, usize)>> = Vec::new();
    while spans.len() < n
        invariant
            spans@.len() <= n,
            forall|l: int| 0 <= l < spans@.len() ==> (#[trigger] spans@[l]) is None,
        decreases n - spans@.len(),
    {
        spans.push(None);
    }
    let mut i: usize = 0;
    while i < g.tensors.len()
        invariant
            g.wf(),
            i <= g.tensors@.len(),
            spans@.len() == n,
            forall|l: int|
                0 <= l < n ==> match #[trigger] spans@[l] {
                    Some(p) => span(*g, l as nat, i as nat) == Some((p.0 as nat, p.1 as nat)),
                    None => span(*g, l as nat, i as nat) is None,
                },
        decreases g.tensors@.len() - i,
    {
        let ghost before = spans@;
        let t = &g.tensors[i];
        assert(*t == g.tensors@[i as int]);
        let index = block_index(t.name.as_str());
        let inside = match index {
            Some(l) => l < n,
            None => false,
        };
        if inside {
            if let Some(l) = index {
                let count: u64 = t.n_elements();
                let len: usize = match quant::wide_size_of(t.ggml_type, count) {
                    Ok(len) => len as usize,
                    Err(_) => 0,
                };
                let start: usize = g.data_offset + t.offset as usize;
                let end: usize = start + len;
                let joined: (usize, usize) = match spans[l] {
                    None => (start, end),
                    Some((a, b)) => (
                        if start < a {
                            start
                        } else {
                            a
                        },
                        if end > b {
                            end
                        } else {
                            b
                        },
                    ),
                };
                spans.set(l, Some(joined));
                assert forall|k: int| 0 <= k < n implies match #[trigger] spans@[k] {
                    Some(p) => span(*g, k as nat, (i + 1) as nat) == Some(
                        (p.0 as nat, p.1 as nat),
                    ),
                    None => span(*g, k as nat, (i + 1) as nat) is None,
                } by {
                    if k != l {
                        assert(spans@[k] == before[k]);
                    }
                }
            }
        } else {
            assert forall|k: int| 0 <= k < n implies match #[trigger] spans@[k] {
                Some(p) => span(*g, k as nat, (i + 1) as nat) == Some((p.0 as nat, p.1 as nat)),
                None => span(*g, k as nat, (i + 1) as nat) is None,
            } by {
                assert(!belongs(*t, k as nat));
            }
        }
        i += 1;
    }
    let mut out: Vec<(usize, usize)> = Vec::new();
    while out.len() < n
        invariant
            g.wf(),
            spans@.len() == n,
            forall|l: int|
                0 <= l < n ==> match #[trigger] spans@[l] {
                    Some(p) => span(*g, l as nat, g.tensors@.len()) == Some(
                        (p.0 as nat, p.1 as nat),
                    ),
                    None => span(*g, l as nat, g.tensors@.len()) is None,
                },
            out@.len() <= n,
            forall|l: int|
                0 <= l < out@.len() ==> {
                    let s = start_and_length(span(*g, l as nat, g.tensors@.len()));
                    (#[trigger] out@[l]).0 == s.0 && out@[l].1 == s.1
                },
        decreases n - out@.len(),
    {
        let l: usize = out.len();
        proof {
            span_bounds(*g, l as nat, g.tensors@.len());
        }
        let p: (usize, usize) = match spans[l] {
            Some((a, b)) => (a, b - a),
            None => (0, 0),
        };
        out.push(p);
    }
    out
}

/// A block's span covers every tensor of the block, and whatever is warmed of it is
/// enough to run the block.
pub proof fn span_covers_its_tensors(g: Gguf, l: nat, n: nat, i: int)
    requires
        n <= g.tensors@.len(),
        0 <= i < n,
        belongs(g.tensors@[i], l),
    ensures
        span(g, l, n) matches Some((a, b)) && a <= g.data_offset + g.tensors@[i].offset
            && g.data_offset + g.tensors@[i].offset + g.tensors@[i].stored_bytes() <= b,
    decreases n,
{
    if i < n - 1 {
        span_covers_its_tensors(g, l, (n - 1) as nat, i);
    }
}

/// Where a checkpoint's weights lie, block by block.
#[derive(Debug)]
pub struct Qwen35Backend {
    cfg: Qwen35Config,
    token_embd: Weight,
    /// The output head; a checkpoint without one uses the embeddings.
    output: Option<Weight>,
    layers: Vec<Layer>,
    prefill_chunk: usize,
    /// Byte range of each block's weights in the file.
    layer_spans: Vec<(usize, usize)>,
}

/// The sizes that a checkpoint's metadata announces can be computed.
pub open spec fn announced_sizes_fit(g: Gguf) -> bool {
    forall|c: Qwen35Config| #[trigger] c.describes(g) ==> c.fits()
}

impl Qwen35Backend {
    pub closed spec fn cfg(&self) -> Qwen35Config {
        self.cfg
    }

    pub closed spec fn embedding(&self) -> Weight {
        self.token_embd
    }

    pub closed spec fn head(&self) -> Option<Weight> {
        self.output
    }

    pub closed spec fn blocks(&self) -> Seq<Layer> {
        self.layers@
    }

    pub closed spec fn spans(&self) -> Seq<(usize, usize)> {
        self.layer_spans@
    }

    pub closed spec fn chunk(&self) -> usize {
        self.prefill_chunk
    }

    pub open spec fn wf(&self) -> bool {
        &&& self.cfg().wf()
        &&& self.cfg().fits()
        &&& self.blocks().len() == self.cfg().n_layers
        &&& self.spans().len() == self.cfg().n_layers
        &&& self.chunk() >= 1
    }

    /// The weights are those that `g` holds.
    pub open spec fn loaded_from(&self, g: Gguf, source: Source) -> bool {
        let c = self.cfg();
        &&& c.describes(g)
        &&& weight::placed(g, source, "token_embd.weight"@, c.vocab as nat, c.d_model) == Ok::<
            Weight,
            Fault,
        >(self.embedding())
        &&& match self.head() {
            Some(w) => g.has("output.weight"@) && weight::placed(
                g,
                source,
                "output.weight"@,
                c.vocab as nat,
                c.d_model,
            ) == Ok::<Weight, Fault>(w),
            None => !g.has("output.weight"@),
        }
        &&& self.blocks().len() == c.n_layers
        &&& forall|l: int|
            0 <= l < c.n_layers ==> is_block(#[trigger] self.blocks()[l], g, source, c, l as nat)
        &&& self.spans().len() == c.n_layers
        &&& forall|l: int|
            0 <= l < c.n_layers ==> {
                let s = start_and_length(span(g, l as nat, g.tensors@.len()));
                (#[trigger] self.spans()[l]).0 == s.0 && self.spans()[l].1 == s.1
            }
    }

    /// Places every weight of a checkpoint, or says what is wrong with the first one
    /// that cannot be.
    ///
    /// The matrices stay packed in a file that is memory-mapped; of any other, each is
    /// expanded in RAM.
    pub fn from_gguf(g: &Gguf, source: Source) -> (r: Result<Self, GarudaError>)
        requires
            g.wf(),
            announced_sizes_fit(*g),
        ensures
            match r {
                Ok(b) => {
                    &&& Qwen35Config::fault(*g) is None
                    &&& b.wf()
                    &&& b.loaded_from(*g, source)
                    &&& b.chunk() == 1
                    &&& load_fault(*g, source, b.cfg(), b.cfg().n_layers as nat) is None
                },
                Err(e) => match Qwen35Config::fault(*g) {
                    Some(m) => Fault::Model(m).is(e),
                    None => exists|c: Qwen35Config|
                        {
                            &&& #[trigger] c.describes(*g)
                            &&& load_fault(*g, source, c, c.n_layers as nat) matches Some(f)
                                && f.is(e)
                        },
                },
            },
    {
        let cfg = match Qwen35Config::from_gguf(g) {
            Ok(c) => c,
            Err(e) => {
                return Err(e);
            },
        };
        assert(cfg.describes(*g));
        let (v, d): (usize, usize) = (cfg.vocab, cfg.d_model);
        let ghost rs = head_requests(*g, cfg);
        proof {
            loader::no_request(*g, source, rs);
            loader::next_request(*g, source, rs, 0);
            if loader::first_fault(*g, source, rs) is Some {
                early_load_fault(*g, source, cfg, 0, cfg.n_layers as nat);
            }
        }
        let token_embd = match load_weight(g, source, "token_embd.weight", v, d) {
            Ok(w) => w,
            Err(e) => {
                return Err(e);
            },
        };
        proof {
            loader::next_request(*g, source, rs, 1);
        }
        match load_norm(g, source.bytes, "output_norm.weight", d) {
            Ok(_) => {},
            Err(e) => {
                return Err(e);
            },
        }
        let output = if g.tensor("output.weight").is_some() {
            proof {
                loader::next_request(*g, source, rs, 2);
            }
            match load_weight(g, source, "output.weight", v, d) {
                Ok(w) => Some(w),
                Err(e) => {
                    return Err(e);
                },
            }
        } else {
            None
        };
        proof {
            loader::all_requests(*g, source, rs);
        }
        let mut layers: Vec<Layer> = Vec::new();
        let mut l: usize = 0;
        while l < cfg.n_layers
            invariant
                g.wf(),
                cfg.describes(*g),
                Qwen35Config::fault(*g) is None,
                cfg.wf(),
                cfg.fits(),
                l <= cfg.n_layers,
                layers@.len() == l,
                load_fault(*g, source, cfg, l as nat) is None,
                forall|k: int|
                    0 <= k < l ==> is_block(#[trigger] layers@[k], *g, source, cfg, k as nat),
            decreases cfg.n_layers - l,
        {
            match load_block(g, source, &cfg, l) {
                Ok(x) => {
                    layers.push(x);
                },
                Err(e) => {
                    proof {
                        early_load_fault(*g, source, cfg, (l + 1) as nat, cfg.n_layers as nat);
                    }
                    return Err(e);
                },
            }
            l += 1;
        }
        let layer_spans = layer_spans(g, cfg.n_layers);
        let b = Qwen35Backend {
            cfg,
            token_embd,
            output,
            layers,
            prefill_chunk: 1,
            layer_spans,
        };
        assert(b.loaded_from(*g, source));
        Ok(b)
    }

    /// `g` loads: its sizes can be computed with, and nothing is wrong with its tensors.
    pub open spec fn loads(g: Gguf, source: Source) -> bool {
        &&& g.wf()
        &&& Qwen35Config::fault(g) is None
        &&& announced_sizes_fit(g)
        &&& exists|c: Qwen35Config| #[trigger]
            c.describes(g) && load_fault(g, source, c, c.n_layers as nat) is None
    }

    /// What loading `g` gives, whatever sizes it announces.
    pub open spec fn outcome(g: Gguf, source: Source, r: Result<Self, LoadError>) -> bool {
        match r {
            Ok(b) => {
                &&& g.wf()
                &&& Qwen35Config::fault(g) is None
                &&& b.wf()
                &&& b.loaded_from(g, source)
                &&& b.chunk() == 1
                &&& announced_sizes_fit(g)
                &&& load_fault(g, source, b.cfg(), b.cfg().n_layers as nat) is None
            },
            Err(LoadError::TooLarge) => !g.wf() || (Qwen35Config::fault(g) is None
                && !announced_sizes_fit(g)),
            Err(LoadError::Refused(e)) => g.wf() && match Qwen35Config::fault(g) {
                Some(m) => Fault::Model(m).is(e),
                None => announced_sizes_fit(g) && exists|c: Qwen35Config|
                    {
                        &&& #[trigger] c.describes(g)
                        &&& load_fault(g, source, c, c.n_layers as nat) matches Some(f)
                            && f.is(e)
                    },
            },
        }
    }

    /// Loads a checkpoint from its header, whatever sizes it announces.
    pub fn try_from_gguf(g: &Gguf, source: Source) -> (r: Result<Self, LoadError>)
        ensures
            Self::outcome(*g, source, r),
    {
        if !g.is_addressable() {
            return Err(LoadError::TooLarge);
        }
        let cfg = match Qwen35Config::from_gguf(g) {
            Ok(c) => c,
            Err(e) => {
                return Err(LoadError::Refused(e));
            },
        };
        if !cfg.sizes_fit() {
            return Err(LoadError::TooLarge);
        }
        assert(announced_sizes_fit(*g)) by {
            assert forall|c: Qwen35Config| #[trigger] c.describes(*g) implies c.fits() by {
                assert(c.d_model == cfg.d_model && c.d_ff == cfg.d_ff && c.vocab == cfg.vocab);
                assert(c.n_layers == cfg.n_layers && c.conv_kernel == cfg.conv_kernel);
                assert(c.n_heads == cfg.n_heads && c.head_dim == cfg.head_dim);
                assert(c.n_k_heads == cfg.n_k_heads && c.key_head_dim == cfg.key_head_dim);
                assert(c.n_v_heads == cfg.n_v_heads && c.value_head_dim == cfg.value_head_dim);
            }
        }
        match Qwen35Backend::from_gguf(g, source) {
            Ok(b) => Ok(b),
            Err(e) => Err(LoadError::Refused(e)),
        }
    }

    /// Loads a checkpoint from the bytes of its file, expanding its weights in RAM.
    pub fn load(bytes: &[u8]) -> (r: Result<Self, LoadError>)
        ensures
            match parse::header(bytes@) {
                Some(h) => exists|g: Gguf| #[trigger] g@ == h && Self::outcome(
                    g,
                    (Source { bytes, mapped: false }),
                    r,
                ),
                None => r matches Err(LoadError::Refused(e)) && parse::refusal(bytes@).is(e),
            },
    {
        match Gguf::parse(bytes) {
            Ok(g) => Qwen35Backend::try_from_gguf(&g, Source::expanded(bytes)),
            Err(e) => Err(LoadError::Refused(e)),
        }
    }

    /// The byte range of each block's weights in the mapped file.
    pub fn layer_spans(&self) -> (s: &Vec<(usize, usize)>)
        ensures
            s@ == self.spans(),
    {
        &self.layer_spans
    }

    /// True when weights are kept packed in a memory-mapped file.
    pub fn is_mmapped(&self) -> (r: bool)
        ensures
            r == self.embedding().packed(),
    {
        self.token_embd.is_packed()
    }

    pub fn has_tied_embeddings(&self) -> (r: bool)
        ensures
            r == (self.head() is None),
    {
        self.output.is_none()
    }

    pub fn config(&self) -> (c: &Qwen35Config)
        ensures
            *c == self.cfg(),
    {
        &self.cfg
    }

    pub fn dims(&self) -> (d: ModelDims)
        ensures
            d.d_model == self.cfg().d_model,
            d.n_heads == self.cfg().n_heads,
            d.head_dim == self.cfg().head_dim,
            d.d_ff == self.cfg().d_ff,
            d.n_experts == 1,
            d.top_k == 1,
            d.vocab_size == self.cfg().vocab,
            d.block_size == 32,
            d.rope_theta_bits == self.cfg().rope_theta_bits,
    {
        self.cfg.model_dims()
    }

    pub fn token_embd(&self) -> (w: Weight)
        ensures
            w == self.embedding(),
    {
        self.token_embd
    }

    /// The output head: its own matrix, or the embeddings.
    pub fn output(&self) -> (w: Weight)
        ensures
            w == match self.head() {
                Some(w) => w,
                None => self.embedding(),
            },
    {
        match self.output {
            Some(w) => w,
            None => self.token_embd,
        }
    }

    pub fn layer(&self, l: usize) -> (x: Layer)
        requires
            l < self.blocks().len(),
        ensures
            x == self.blocks()[l as int],
    {
        self.layers[l]
    }

    /// Prompt tokens that share one pass over a layer's weights; at least one.
    pub fn with_prefill_chunk(self, chunk: usize) -> (b: Self)
        ensures
            b.chunk() == if chunk == 0 {
                1
            } else {
                chunk
            },
            b.cfg() == self.cfg(),
            b.embedding() == self.embedding(),
            b.head() == self.head(),
            b.blocks() == self.blocks(),
            b.spans() == self.spans(),
    {
        Qwen35Backend {
            cfg: self.cfg,
            token_embd: self.token_embd,
            output: self.output,
            layers: self.layers,
            prefill_chunk: if chunk == 0 {
                1
            } else {
                chunk
            },
            layer_spans: self.layer_spans,
        }
    }

    pub fn prefill_chunk(&self) -> (n: usize)
        ensures
            n == self.chunk(),
    {
        self.prefill_chunk
    }

    /// Off for this architecture: verifying a run of guesses means being able to throw
    /// the rejected ones away, and a recurrent state cannot be rewound.
    pub fn speculation_supported(&self) -> (r: bool)
        ensures
            !r,
    {
        false
    }
}

} // verus!
