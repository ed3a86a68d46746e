//! Which tensors a checkpoint must hold, and where the weights of each block lie.

use crate::gguf;
use crate::gguf::parse;
use crate::gguf::{block_tensor_name, expert_tensor_name, Gguf};
use crate::llama::config;
use crate::llama::config::LlamaConfig;
use crate::llama::weight;
use crate::llama::weight::{load_norm, load_weight, ExpertWeight, Source, Weight};
use crate::quant;
use crate::types::{Fault, GarudaError, ModelDims};
use vstd::prelude::*;

verus! {

/// A tensor that a loader asks for.
#[verifier::ext_equal]
pub enum Request {
    Norm(Seq<char>, nat),
    Matrix(Seq<char>, nat, usize),
}

/// Why a tensor cannot be had, if so.
pub open spec fn request_fault(g: Gguf, source: Source, r: Request) -> Option<Fault> {
    match r {
        Request::Norm(name, n) => weight::norm_fault(g, source.bytes@, name, n),
        Request::Matrix(name, rows, cols) => match weight::placed(g, source, name, rows, cols) {
            Ok(_) => None,
            Err(f) => Some(f),
        },
    }
}

/// The first fault among tensors asked for in order.
pub open spec fn first_fault(g: Gguf, source: Source, rs: Seq<Request>) -> Option<Fault>
    decreases rs.len(),
{
    if rs.len() == 0 {
        None
    } else if first_fault(g, source, rs.drop_last()) is Some {
        first_fault(g, source, rs.drop_last())
    } else {
        request_fault(g, source, rs.last())
    }
}

/// Asking for one more tensor.
pub(crate) proof fn one_more(g: Gguf, source: Source, rs: Seq<Request>, r: Request)
    ensures
        first_fault(g, source, rs.push(r)) == if first_fault(g, source, rs) is Some {
            first_fault(g, source, rs)
        } else {
            request_fault(g, source, r)
        },
{
    assert(rs.push(r).drop_last() =~= rs);
}

/// A fault found early is found whatever is asked for after it.
pub(crate) proof fn early_fault_stays(
    g: Gguf,
    source: Source,
    a: Seq<Request>,
    b: Seq<Request>,
)
    ensures
        first_fault(g, source, a) is Some ==> first_fault(g, source, a + b) == first_fault(
            g,
            source,
            a,
        ),
        first_fault(g, source, a) is None ==> first_fault(g, source, a + b) == first_fault(
            g,
            source,
            b,
        ),
    decreases b.len(),
{
    if b.len() == 0 {
        assert(a + b =~= a);
    } else {
        assert((a + b).drop_last() =~= a + b.drop_last());
        early_fault_stays(g, source, a, b.drop_last());
    }
}

/// A block's feed-forward network: a single dense one, or a mixture of experts.
#[derive(Debug)]
pub enum Ffn {
    Dense { gate: ExpertWeight, up: ExpertWeight, down: ExpertWeight },
    Moe { router: Weight, gate: ExpertWeight, up: ExpertWeight, down: ExpertWeight },
}

/// Where one block's projections lie. Its two norms are present and of model width.
#[derive(Debug)]
pub struct Layer {
    pub wq: Weight,
    pub wk: Weight,
    pub wv: Weight,
    pub wo: Weight,
    pub ffn: Ffn,
}

/// How a block keeps its feed-forward weights.
#[derive(Debug, Clone, Copy, PartialEq, Eq, Structural)]
pub enum FfnLayout {
    Dense,
    Stacked,
    Split,
}

/// A block is a mixture if the model declares experts and the block has the merged
/// tensors or the per-expert ones; otherwise it is dense.
pub open spec fn ffn_layout(g: Gguf, ne: nat, l: nat) -> FfnLayout {
    if ne > 0 && g.has(gguf::block_tensor(l, "ffn_gate_exps"@)) {
        FfnLayout::Stacked
    } else if ne > 0 && g.has(gguf::expert_tensor(l, "ffn_gate"@, 0)) {
        FfnLayout::Split
    } else {
        FfnLayout::Dense
    }
}

/// A matrix of block `l`.
pub open spec fn matrix(l: nat, name: Seq<char>, rows: nat, cols: usize) -> Request {
    Request::Matrix(gguf::block_tensor(l, name), rows, cols)
}

/// One matrix for each of `n` experts of block `l`.
pub open spec fn per_expert(l: nat, name: Seq<char>, n: nat, rows: nat, cols: usize) -> Seq<
    Request,
> {
    Seq::new(n, |e: int| Request::Matrix(gguf::expert_tensor(l, name, e as nat), rows, cols))
}

/// What the feed-forward network of block `l` is loaded from, in order.
pub open spec fn ffn_requests(g: Gguf, c: LlamaConfig, l: nat) -> Seq<Request> {
    let (ne, f, d) = (c.n_experts as nat, c.d_ff as nat, c.d_model as nat);
    match ffn_layout(g, ne, l) {
        FfnLayout::Stacked => seq![
            matrix(l, "ffn_gate_inp"@, ne, c.d_model),
            matrix(l, "ffn_gate_exps"@, ne * f, c.d_model),
            matrix(l, "ffn_up_exps"@, ne * f, c.d_model),
            matrix(l, "ffn_down_exps"@, ne * d, c.d_ff),
        ],
        FfnLayout::Split => seq![matrix(l, "ffn_gate_inp"@, ne, c.d_model)] + per_expert(
            l,
            "ffn_gate"@,
            ne,
            f,
            c.d_model,
        ) + per_expert(l, "ffn_up"@, ne, f, c.d_model) + per_expert(
            l,
            "ffn_down"@,
            ne,
            d,
            c.d_ff,
        ),
        FfnLayout::Dense => seq![
            matrix(l, "ffn_gate"@, f, c.d_model),
            matrix(l, "ffn_up"@, f, c.d_model),
            matrix(l, "ffn_down"@, d, c.d_ff),
        ],
    }
}

/// What the attention of block `l` is loaded from, in order.
pub open spec fn attn_requests(c: LlamaConfig, l: nat) -> Seq<Request> {
    let d = c.d_model as nat;
    seq![
        Request::Norm(gguf::block_tensor(l, "attn_norm"@), d),
        matrix(l, "attn_q"@, d, c.d_model),
        matrix(l, "attn_k"@, c.kv_width() as nat, c.d_model),
        matrix(l, "attn_v"@, c.kv_width() as nat, c.d_model),
        matrix(l, "attn_output"@, d, c.d_model),
        Request::Norm(gguf::block_tensor(l, "ffn_norm"@), d),
    ]
}

/// What is loaded before the blocks, in order. A checkpoint that has no output head of
/// its own uses the embeddings for it.
pub open spec fn head_requests(g: Gguf, c: LlamaConfig) -> Seq<Request> {
    let embedding = Request::Matrix("token_embd.weight"@, c.vocab as nat, c.d_model);
    let norm = Request::Norm("output_norm.weight"@, c.d_model as nat);
    if g.has("output.weight"@) {
        seq![embedding, norm, Request::Matrix("output.weight"@, c.vocab as nat, c.d_model)]
    } else {
        seq![embedding, norm]
    }
}

/// The first fault in loading `n` blocks after the head.
pub open spec fn load_fault(g: Gguf, source: Source, c: LlamaConfig, n: nat) -> Option<
    Fault,
>
    decreases n,
{
    if n == 0 {
        first_fault(g, source, head_requests(g, c))
    } else if load_fault(g, source, c, (n - 1) as nat) is Some {
        load_fault(g, source, c, (n - 1) as nat)
    } else {
        first_fault(
            g,
            source,
            ffn_requests(g, c, (n - 1) as nat) + attn_requests(c, (n - 1) as nat),
        )
    }
}

/// The matrix that was asked for under `name`.
pub open spec fn is_matrix(
    w: Weight,
    g: Gguf,
    source: Source,
    l: nat,
    name: Seq<char>,
    rows: nat,
    cols: usize,
) -> bool {
    weight::placed(g, source, gguf::block_tensor(l, name), rows, cols) == Ok::<Weight, Fault>(w)
}

pub open spec fn is_stack(
    w: ExpertWeight,
    g: Gguf,
    source: Source,
    l: nat,
    name: Seq<char>,
    rows: nat,
    cols: usize,
) -> bool {
    w matches ExpertWeight::Stacked(m) && is_matrix(m, g, source, l, name, rows, cols)
}

pub open spec fn is_split(
    w: ExpertWeight,
    g: Gguf,
    source: Source,
    l: nat,
    name: Seq<char>,
    n: nat,
    rows: nat,
    cols: usize,
) -> bool {
    w matches ExpertWeight::Split(ws) && ws@.len() == n && forall|e: int|
        0 <= e < n ==> weight::placed(
            g,
            source,
            gguf::expert_tensor(l, name, e as nat),
            rows,
            cols,
        ) == Ok::<Weight, Fault>(#[trigger] ws@[e])
}

/// The feed-forward weights are those of block `l`.
pub open spec fn is_ffn(x: Ffn, g: Gguf, source: Source, c: LlamaConfig, l: nat) -> bool {
    let (ne, f, d) = (c.n_experts as nat, c.d_ff as nat, c.d_model as nat);
    match ffn_layout(g, ne, l) {
        FfnLayout::Stacked => x matches Ffn::Moe { router, gate, up, down } && {
            &&& is_matrix(router, g, source, l, "ffn_gate_inp"@, ne, c.d_model)
            &&& is_stack(gate, g, source, l, "ffn_gate_exps"@, ne * f, c.d_model)
            &&& is_stack(up, g, source, l, "ffn_up_exps"@, ne * f, c.d_model)
            &&& is_stack(down, g, source, l, "ffn_down_exps"@, ne * d, c.d_ff)
        },
        FfnLayout::Split => x matches Ffn::Moe { router, gate, up, down } && {
            &&& is_matrix(router, g, source, l, "ffn_gate_inp"@, ne, c.d_model)
            &&& is_split(gate, g, source, l, "ffn_gate"@, ne, f, c.d_model)
            &&& is_split(up, g, source, l, "ffn_up"@, ne, f, c.d_model)
            &&& is_split(down, g, source, l, "ffn_down"@, ne, d, c.d_ff)
        },
        FfnLayout::Dense => x matches Ffn::Dense { gate, up, down } && {
            &&& is_stack(gate, g, source, l, "ffn_gate"@, f, c.d_model)
            &&& is_stack(up, g, source, l, "ffn_up"@, f, c.d_model)
            &&& is_stack(down, g, source, l, "ffn_down"@, d, c.d_ff)
        },
    }
}

/// The weights are those of block `l`.
pub open spec fn is_layer(x: Layer, g: Gguf, source: Source, c: LlamaConfig, l: nat) -> bool {
    let d = c.d_model as nat;
    &&& is_matrix(x.wq, g, source, l, "attn_q"@, d, c.d_model)
    &&& is_matrix(x.wk, g, source, l, "attn_k"@, c.kv_width() as nat, c.d_model)
    &&& is_matrix(x.wv, g, source, l, "attn_v"@, c.kv_width() as nat, c.d_model)
    &&& is_matrix(x.wo, g, source, l, "attn_output"@, d, c.d_model)
    &&& is_ffn(x.ffn, g, source, c, l)
}

impl LlamaConfig {
    /// The sizes of the matrices can be computed.
    pub open spec fn fits(self) -> bool {
        &&& self.vocab * self.d_model <= usize::MAX
        &&& self.d_model * self.d_model <= usize::MAX
        &&& self.d_ff * self.d_model <= usize::MAX
        &&& self.n_experts * self.d_model <= usize::MAX
        &&& self.n_experts * self.d_ff <= usize::MAX
        &&& self.n_experts * self.d_ff * self.d_model <= usize::MAX
        &&& self.n_layers * self.n_experts <= usize::MAX
        &&& 4 * self.d_model <= usize::MAX
        &&& 4 * self.d_ff <= usize::MAX
    }

    /// Whether the sizes of the matrices can be computed.
    pub fn sizes_fit(&self) -> (r: bool)
        ensures
            r == self.fits(),
    {
        let Some(ef) = self.n_experts.checked_mul(self.d_ff) else {
            return false;
        };
        self.vocab.checked_mul(self.d_model).is_some() && self.d_model.checked_mul(
            self.d_model,
        ).is_some() && self.d_ff.checked_mul(self.d_model).is_some() && self.n_experts.checked_mul(
            self.d_model,
        ).is_some() && ef.checked_mul(self.d_model).is_some() && self.n_layers.checked_mul(
            self.n_experts,
        ).is_some() && self.d_model <= usize::MAX / 4 && self.d_ff <= usize::MAX / 4
    }
}

/// Having the first `k` tensors, what the next one says.
pub(crate) proof fn next_request(g: Gguf, source: Source, rs: Seq<Request>, k: int)
    requires
        0 <= k < rs.len(),
        first_fault(g, source, rs.take(k)) is None,
    ensures
        request_fault(g, source, rs[k]) is Some ==> first_fault(g, source, rs) == request_fault(
            g,
            source,
            rs[k],
        ),
        request_fault(g, source, rs[k]) is None ==> first_fault(g, source, rs.take(k + 1)) is None,
{
    one_more(g, source, rs.take(k), rs[k]);
    assert(rs.take(k).push(rs[k]) =~= rs.take(k + 1));
    assert(rs.take(k + 1) + rs.skip(k + 1) =~= rs);
    early_fault_stays(g, source, rs.take(k + 1), rs.skip(k + 1));
}

/// Nothing is asked for yet.
pub(crate) proof fn no_request(g: Gguf, source: Source, rs: Seq<Request>)
    ensures
        first_fault(g, source, rs.take(0)) is None,
{
    assert(rs.take(0) =~= Seq::<Request>::empty());
}

/// All of it is there.
pub(crate) proof fn all_requests(g: Gguf, source: Source, rs: Seq<Request>)
    requires
        first_fault(g, source, rs.take(rs.len() as int)) is None,
    ensures
        first_fault(g, source, rs) is None,
{
    assert(rs.take(rs.len() as int) =~= rs);
}

fn load_matrix(
    g: &Gguf,
    source: Source,
    l: usize,
    name: &str,
    rows: usize,
    cols: usize,
) -> (r: Result<Weight, GarudaError>)
    requires
        g.wf(),
        rows * cols <= usize::MAX,
    ensures
        match r {
            Ok(w) => {
                &&& is_matrix(w, *g, source, l as nat, name@, rows as nat, cols)
                &&& request_fault(*g, source, matrix(l as nat, name@, rows as nat, cols)) is None
            },
            Err(e) => request_fault(
                *g,
                source,
                matrix(l as nat, name@, rows as nat, cols),
            ) matches Some(f) && f.is(e),
        },
{
    load_weight(g, source, block_tensor_name(l as u64, name).as_str(), rows, cols)
}

/// One matrix for each of `n` experts.
fn load_split(
    g: &Gguf,
    source: Source,
    l: usize,
    name: &str,
    n: usize,
    rows: usize,
    cols: usize,
) -> (r: Result<ExpertWeight, GarudaError>)
    requires
        g.wf(),
        rows * cols <= usize::MAX,
    ensures
        match r {
            Ok(w) => {
                &&& is_split(w, *g, source, l as nat, name@, n as nat, rows as nat, cols)
                &&& first_fault(
                    *g,
                    source,
                    per_expert(l as nat, name@, n as nat, rows as nat, cols),
                ) is None
            },
            Err(e) => first_fault(
                *g,
                source,
                per_expert(l as nat, name@, n as nat, rows as nat, cols),
            ) matches Some(f) && f.is(e),
        },
{
    let ghost rs = per_expert(l as nat, name@, n as nat, rows as nat, cols);
    let mut ws: Vec<Weight> = Vec::new();
    let mut e: usize = 0;
    proof {
        no_request(*g, source, rs);
    }
    while e < n
        invariant
            g.wf(),
            rows * cols <= usize::MAX,
            rs == per_expert(l as nat, name@, n as nat, rows as nat, cols),
            e <= n,
            ws@.len() == e,
            first_fault(*g, source, rs.take(e as int)) is None,
            forall|k: int|
                0 <= k < e ==> weight::placed(
                    *g,
                    source,
                    gguf::expert_tensor(l as nat, name@, k as nat),
                    rows as nat,
                    cols,
                ) == Ok::<Weight, Fault>(#[trigger] ws@[k]),
        decreases n - e,
    {
        proof {
            next_request(*g, source, rs, e as int);
        }
        match load_weight(
            g,
            source,
            expert_tensor_name(l as u64, name, e as u64).as_str(),
            rows,
            cols,
        ) {
            Ok(w) => {
                ws.push(w);
            },
            Err(err) => {
                return Err(err);
            },
        }
        e += 1;
    }
    proof {
        all_requests(*g, source, rs);
    }
    Ok(ExpertWeight::Split(ws))
}

/// Products that stay below the ones known to fit.
proof fn sizes_bounded(c: LlamaConfig)
    requires
        c.wf(),
        c.fits(),
    ensures
        c.kv_width() * c.d_model <= usize::MAX,
        c.n_experts * c.d_model * c.d_ff <= usize::MAX,
        c.d_model * c.d_ff <= usize::MAX,
{
    config::kv_narrower(c);
    let (k, d, e, f) = (c.kv_width(), c.d_model as int, c.n_experts as int, c.d_ff as int);
    assert(k * d <= d * d) by (nonlinear_arith)
        requires
            0 <= k <= d,
    ;
    assert(e * d * f == e * f * d) by (nonlinear_arith);
    assert(d * f == f * d) by (nonlinear_arith);
}

/// Several tensors of which the first `k` are there, then a run of more.
proof fn then_run(g: Gguf, source: Source, a: Seq<Request>, run: Seq<Request>, rest: Seq<
    Request,
>)
    requires
        first_fault(g, source, a) is None,
    ensures
        first_fault(g, source, run) is Some ==> first_fault(g, source, a + run + rest)
            == first_fault(g, source, run),
        first_fault(g, source, run) is None ==> first_fault(g, source, a + run) is None,
{
    early_fault_stays(g, source, a, run);
    early_fault_stays(g, source, a + run, rest);
}

fn load_split_ffn(g: &Gguf, source: Source, c: &LlamaConfig, l: usize) -> (r: Result<
    Ffn,
    GarudaError,
>)
    requires
        g.wf(),
        c.wf(),
        c.fits(),
        ffn_layout(*g, c.n_experts as nat, l as nat) == FfnLayout::Split,
    ensures
        match r {
            Ok(x) => {
                &&& is_ffn(x, *g, source, *c, l as nat)
                &&& first_fault(*g, source, ffn_requests(*g, *c, l as nat)) is None
            },
            Err(e) => first_fault(*g, source, ffn_requests(*g, *c, l as nat)) matches Some(f)
                && f.is(e),
        },
{
    let (ne, d, f): (usize, usize, usize) = (c.n_experts, c.d_model, c.d_ff);
    let ghost none = Seq::<Request>::empty();
    let ghost head = seq![matrix(l as nat, "ffn_gate_inp"@, ne as nat, d)];
    let ghost gates = per_expert(l as nat, "ffn_gate"@, ne as nat, f as nat, d);
    let ghost ups = per_expert(l as nat, "ffn_up"@, ne as nat, f as nat, d);
    let ghost downs = per_expert(l as nat, "ffn_down"@, ne as nat, d as nat, f);
    let ghost whole = head + gates + ups + downs;
    proof {
        sizes_bounded(*c);
        assert(whole =~= ffn_requests(*g, *c, l as nat));
        assert(none + head + (gates + ups + downs) =~= whole);
        assert(head + gates + (ups + downs) =~= whole);
        assert(whole + none =~= whole);
        assert(none + head =~= head);
        assert(head.drop_last() =~= none);
        then_run(*g, source, none, head, gates + ups + downs);
    }
    let router = match load_matrix(g, source, l, "ffn_gate_inp", ne, d) {
        Ok(w) => w,
        Err(e) => {
            return Err(e);
        },
    };
    proof {
        then_run(*g, source, head, gates, ups + downs);
    }
    let gate = match load_split(g, source, l, "ffn_gate", ne, f, d) {
        Ok(w) => w,
        Err(e) => {
            return Err(e);
        },
    };
    proof {
        then_run(*g, source, head + gates, ups, downs);
    }
    let up = match load_split(g, source, l, "ffn_up", ne, f, d) {
        Ok(w) => w,
        Err(e) => {
            return Err(e);
        },
    };
    proof {
        then_run(*g, source, head + gates + ups, downs, none);
    }
    let down = match load_split(g, source, l, "ffn_down", ne, d, f) {
        Ok(w) => w,
        Err(e) => {
            return Err(e);
        },
    };
    Ok(Ffn::Moe { router, gate, up, down })
}

fn load_stacked_ffn(g: &Gguf, source: Source, c: &LlamaConfig, l: usize) -> (r: Result<
    Ffn,
    GarudaError,
>)
    requires
        g.wf(),
        c.wf(),
        c.fits(),
        ffn_layout(*g, c.n_experts as nat, l as nat) == FfnLayout::Stacked,
    ensures
        match r {
            Ok(x) => {
                &&& is_ffn(x, *g, source, *c, l as nat)
                &&& first_fault(*g, source, ffn_requests(*g, *c, l as nat)) is None
            },
            Err(e) => first_fault(*g, source, ffn_requests(*g, *c, l as nat)) matches Some(f)
                && f.is(e),
        },
{
    let (ne, d, f): (usize, usize, usize) = (c.n_experts, c.d_model, c.d_ff);
    let ghost rs = ffn_requests(*g, *c, l as nat);
    proof {
        sizes_bounded(*c);
        no_request(*g, source, rs);
        next_request(*g, source, rs, 0);
    }
    let router = match load_matrix(g, source, l, "ffn_gate_inp", ne, d) {
        Ok(w) => w,
        Err(e) => {
            return Err(e);
        },
    };
    proof {
        next_request(*g, source, rs, 1);
    }
    let gate = match load_matrix(g, source, l, "ffn_gate_exps", ne * f, d) {
        Ok(w) => w,
        Err(e) => {
            return Err(e);
        },
    };
    proof {
        next_request(*g, source, rs, 2);
    }
    let up = match load_matrix(g, source, l, "ffn_up_exps", ne * f, d) {
        Ok(w) => w,
        Err(e) => {
            return Err(e);
        },
    };
    proof {
        next_request(*g, source, rs, 3);
    }
    let down = match load_matrix(g, source, l, "ffn_down_exps", ne * d, f) {
        Ok(w) => w,
        Err(e) => {
            return Err(e);
        },
    };
    proof {
        all_requests(*g, source, rs);
    }
    Ok(
        Ffn::Moe {
            router,
            gate: ExpertWeight::Stacked(gate),
            up: ExpertWeight::Stacked(up),
            down: ExpertWeight::Stacked(down),
        },
    )
}

fn load_dense_ffn(g: &Gguf, source: Source, c: &LlamaConfig, l: usize) -> (r: Result<
    Ffn,
    GarudaError,
>)
    requires
        g.wf(),
        c.wf(),
        c.fits(),
        ffn_layout(*g, c.n_experts as nat, l as nat) == FfnLayout::Dense,
    ensures
        match r {
            Ok(x) => {
                &&& is_ffn(x, *g, source, *c, l as nat)
                &&& first_fault(*g, source, ffn_requests(*g, *c, l as nat)) is None
            },
            Err(e) => first_fault(*g, source, ffn_requests(*g, *c, l as nat)) matches Some(f)
                && f.is(e),
        },
{
    let (d, f): (usize, usize) = (c.d_model, c.d_ff);
    let ghost rs = ffn_requests(*g, *c, l as nat);
    proof {
        sizes_bounded(*c);
        no_request(*g, source, rs);
        next_request(*g, source, rs, 0);
    }
    let gate = match load_matrix(g, source, l, "ffn_gate", f, d) {
        Ok(w) => w,
        Err(e) => {
            return Err(e);
        },
    };
    proof {
        next_request(*g, source, rs, 1);
    }
    let up = match load_matrix(g, source, l, "ffn_up", f, d) {
        Ok(w) => w,
        Err(e) => {
            return Err(e);
        },
    };
    proof {
        next_request(*g, source, rs, 2);
    }
    let down = match load_matrix(g, source, l, "ffn_down", d, f) {
        Ok(w) => w,
        Err(e) => {
            return Err(e);
        },
    };
    proof {
        all_requests(*g, source, rs);
    }
    Ok(
        Ffn::Dense {
            gate: ExpertWeight::Stacked(gate),
            up: ExpertWeight::Stacked(up),
            down: ExpertWeight::Stacked(down),
        },
    )
}

/// Places the weights of block `l`.
fn load_layer(g: &Gguf, source: Source, c: &LlamaConfig, l: usize) -> (r: Result<
    Layer,
    GarudaError,
>)
    requires
        g.wf(),
        c.wf(),
        c.fits(),
    ensures
        match r {
            Ok(x) => {
                &&& is_layer(x, *g, source, *c, l as nat)
                &&& first_fault(
                    *g,
                    source,
                    ffn_requests(*g, *c, l as nat) + attn_requests(*c, l as nat),
                ) is None
            },
            Err(e) => first_fault(
                *g,
                source,
                ffn_requests(*g, *c, l as nat) + attn_requests(*c, l as nat),
            ) matches Some(f) && f.is(e),
        },
{
    let ghost fs = ffn_requests(*g, *c, l as nat);
    let ghost rs = attn_requests(*c, l as nat);
    proof {
        early_fault_stays(*g, source, fs, rs);
        sizes_bounded(*c);
    }
    let d: usize = c.d_model;
    let hk: usize = c.kv_dim();
    let loaded = if c.n_experts > 0 && g.tensor(
        block_tensor_name(l as u64, "ffn_gate_exps").as_str(),
    ).is_some() {
        load_stacked_ffn(g, source, c, l)
    } else if c.n_experts > 0 && g.tensor(
        expert_tensor_name(l as u64, "ffn_gate", 0).as_str(),
    ).is_some() {
        load_split_ffn(g, source, c, l)
    } else {
        load_dense_ffn(g, source, c, l)
    };
    let ffn = match loaded {
        Ok(x) => x,
        Err(e) => {
            return Err(e);
        },
    };
    proof {
        no_request(*g, source, rs);
        next_request(*g, source, rs, 0);
    }
    match load_norm(g, source.bytes, block_tensor_name(l as u64, "attn_norm").as_str(), d) {
        Ok(_) => {},
        Err(e) => {
            return Err(e);
        },
    }
    proof {
        next_request(*g, source, rs, 1);
    }
    let wq = match load_matrix(g, source, l, "attn_q", d, d) {
        Ok(w) => w,
        Err(e) => {
            return Err(e);
        },
    };
    proof {
        next_request(*g, source, rs, 2);
    }
    let wk = match load_matrix(g, source, l, "attn_k", hk, d) {
        Ok(w) => w,
        Err(e) => {
            return Err(e);
        },
    };
    proof {
        next_request(*g, source, rs, 3);
    }
    let wv = match load_matrix(g, source, l, "attn_v", hk, d) {
        Ok(w) => w,
        Err(e) => {
            return Err(e);
        },
    };
    proof {
        next_request(*g, source, rs, 4);
    }
    let wo = match load_matrix(g, source, l, "attn_output", d, d) {
        Ok(w) => w,
        Err(e) => {
            return Err(e);
        },
    };
    proof {
        next_request(*g, source, rs, 5);
    }
    match load_norm(g, source.bytes, block_tensor_name(l as u64, "ffn_norm").as_str(), d) {
        Ok(_) => {},
        Err(e) => {
            return Err(e);
        },
    }
    proof {
        all_requests(*g, source, rs);
    }
    Ok(Layer { wq, wk, wv, wo, ffn })
}

/// Where a checkpoint's weights lie, block by block.
#[derive(Debug)]
pub struct LlamaBackend {
    cfg: LlamaConfig,
    token_embd: Weight,
    /// The output head; a checkpoint without one uses the embeddings.
    output: Option<Weight>,
    layers: Vec<Layer>,
    /// Bytes of the memory map, where the weights stay packed in one.
    mapped: Option<usize>,
    /// Prompt tokens pushed through one layer before moving to the next; one is
    /// token-major.
    prefill_chunk: usize,
}

/// Why a checkpoint does not load.
#[derive(Debug)]
pub enum LoadError {
    /// It announces sizes that cannot be computed with.
    TooLarge,
    /// It is not what this backend runs, or does not hold what it should.
    Refused(GarudaError),
}

/// The sizes of the matrices that a checkpoint's metadata announces can be computed.
pub open spec fn announced_sizes_fit(g: Gguf) -> bool {
    forall|c: LlamaConfig| #[trigger] c.describes(g) ==> c.fits()
}

impl LlamaBackend {
    pub closed spec fn cfg(&self) -> LlamaConfig {
        self.cfg
    }

    pub closed spec fn embedding(&self) -> Weight {
        self.token_embd
    }

    pub closed spec fn head(&self) -> Option<Weight> {
        self.output
    }

    pub closed spec fn blocks(&self) -> Seq<Layer> {
        self.layers@
    }

    pub closed spec fn map_len(&self) -> Option<usize> {
        self.mapped
    }

    pub closed spec fn chunk(&self) -> usize {
        self.prefill_chunk
    }

    /// The weights are those that `g` holds.
    pub open spec fn loaded_from(&self, g: Gguf, source: Source) -> bool {
        let c = self.cfg();
        &&& c.describes(g)
        &&& self.map_len() == source.map_len()
        &&& weight::placed(g, source, "token_embd.weight"@, c.vocab as nat, c.d_model) == Ok::<
            Weight,
            Fault,
        >(self.embedding())
        &&& match self.head() {
            Some(w) => g.has("output.weight"@) && weight::placed(
                g,
                source,
                "output.weight"@,
                c.vocab as nat,
                c.d_model,
            ) == Ok::<Weight, Fault>(w),
            None => !g.has("output.weight"@),
        }
        &&& self.blocks().len() == c.n_layers
        &&& forall|l: int|
            0 <= l < c.n_layers ==> is_layer(#[trigger] self.blocks()[l], g, source, c, l as nat)
    }

    /// Places every weight of a checkpoint, or says what is wrong with the first one
    /// that cannot be.
    ///
    /// The matrices stay packed in a file that is memory-mapped; of any other, each is
    /// expanded in RAM.
    pub fn from_gguf(g: &Gguf, source: Source) -> (r: Result<Self, GarudaError>)
        requires
            g.wf(),
            announced_sizes_fit(*g),
        ensures
            match r {
                Ok(b) => {
                    &&& LlamaConfig::fault(*g) is None
                    &&& b.loaded_from(*g, source)
                    &&& b.wf()
                    &&& b.chunk() == 1
                    &&& load_fault(*g, source, b.cfg(), b.cfg().n_layers as nat) is None
                },
                Err(e) => match LlamaConfig::fault(*g) {
                    Some(m) => Fault::Model(m).is(e),
                    None => exists|c: LlamaConfig|
                        {
                            &&& #[trigger] c.describes(*g)
                            &&& load_fault(*g, source, c, c.n_layers as nat) matches Some(f)
                                && f.is(e)
                        },
                },
            },
    {
        let cfg = match LlamaConfig::from_gguf(g) {
            Ok(c) => c,
            Err(e) => {
                return Err(e);
            },
        };
        assert(cfg.describes(*g));
        let (v, d): (usize, usize) = (cfg.vocab, cfg.d_model);
        let ghost rs = head_requests(*g, cfg);
        proof {
            no_request(*g, source, rs);
            next_request(*g, source, rs, 0);
            if first_fault(*g, source, rs) is Some {
                early_load_fault(*g, source, cfg, 0, cfg.n_layers as nat);
            }
        }
        let token_embd = match load_weight(g, source, "token_embd.weight", v, d) {
            Ok(w) => w,
            Err(e) => {
                return Err(e);
            },
        };
        proof {
            next_request(*g, source, rs, 1);
        }
        match load_norm(g, source.bytes, "output_norm.weight", d) {
            Ok(_) => {},
            Err(e) => {
                return Err(e);
            },
        }
        let output = if g.tensor("output.weight").is_some() {
            proof {
                next_request(*g, source, rs, 2);
            }
            match load_weight(g, source, "output.weight", v, d) {
                Ok(w) => Some(w),
                Err(e) => {
                    return Err(e);
                },
            }
        } else {
            None
        };
        proof {
            all_requests(*g, source, rs);
        }
        let mut layers: Vec<Layer> = Vec::new();
        let mut l: usize = 0;
        while l < cfg.n_layers
            invariant
                g.wf(),
                cfg.describes(*g),
                LlamaConfig::fault(*g) is None,
                cfg.wf(),
                cfg.fits(),
                l <= cfg.n_layers,
                layers@.len() == l,
                load_fault(*g, source, cfg, l as nat) is None,
                forall|k: int|
                    0 <= k < l ==> is_layer(#[trigger] layers@[k], *g, source, cfg, k as nat),
            decreases cfg.n_layers - l,
        {
            match load_layer(g, source, &cfg, l) {
                Ok(x) => {
                    layers.push(x);
                },
                Err(e) => {
                    proof {
                        early_load_fault(*g, source, cfg, (l + 1) as nat, cfg.n_layers as nat);
                    }
                    return Err(e);
                },
            }
            l += 1;
        }
        let b = LlamaBackend {
            cfg,
            token_embd,
            output,
            layers,
            mapped: source.map(),
            prefill_chunk: 1,
        };
        proof {
            assert(b.loaded_from(*g, source));
            loaded_is_wf(b, *g, source);
        }
        Ok(b)
    }

    /// What every operation keeps: packed weights lie within the memory map.
    pub open spec fn wf(&self) -> bool {
        let c = self.cfg();
        &&& c.wf()
        &&& c.fits()
        &&& self.blocks().len() == c.n_layers
        &&& match self.map_len() {
            Some(len) => self.embedding() is Packed && forall|l: int|
                0 <= l < c.n_layers ==> ffn_within(#[trigger] self.blocks()[l].ffn, c, len as nat),
            None => self.embedding() is Full && forall|l: int|
                0 <= l < c.n_layers ==> ffn_expanded(#[trigger] self.blocks()[l].ffn, c),
        }
    }
}

/// The experts of a block lie within a buffer of `len` bytes.
pub open spec fn ffn_within(x: Ffn, c: LlamaConfig, len: nat) -> bool {
    x matches Ffn::Moe { gate, up, down, .. } ==> {
        &&& stack_within(gate, c.n_experts as nat, c.d_ff as nat, c.d_model, len)
        &&& stack_within(up, c.n_experts as nat, c.d_ff as nat, c.d_model, len)
        &&& stack_within(down, c.n_experts as nat, c.d_model as nat, c.d_ff, len)
    }
}

pub open spec fn stack_within(w: ExpertWeight, n: nat, block: nat, cols: usize, len: nat) -> bool {
    &&& w.within(n, block, len)
    &&& match w {
        ExpertWeight::Stacked(m) => m matches Weight::Packed { cols: k, .. } && k == cols,
        ExpertWeight::Split(ws) => forall|e: int|
            0 <= e < n ==> (#[trigger] ws@[e] matches Weight::Packed { cols: k, .. } && k == cols),
    }
}

/// The experts of a block are expanded.
pub open spec fn ffn_expanded(x: Ffn, c: LlamaConfig) -> bool {
    x matches Ffn::Moe { gate, up, down, .. } ==> {
        &&& stack_expanded(gate, c.n_experts as nat)
        &&& stack_expanded(up, c.n_experts as nat)
        &&& stack_expanded(down, c.n_experts as nat)
    }
}

pub open spec fn stack_expanded(w: ExpertWeight, n: nat) -> bool {
    match w {
        ExpertWeight::Stacked(m) => m is Full,
        ExpertWeight::Split(ws) => ws@.len() == n && forall|e: int|
            0 <= e < n ==> (#[trigger] ws@[e]) is Full,
    }
}

/// A fault in an early block is the fault of the whole load.
proof fn early_load_fault(g: Gguf, source: Source, c: LlamaConfig, a: nat, b: nat)
    requires
        load_fault(g, source, c, a) is Some,
        a <= b,
    ensures
        load_fault(g, source, c, b) == load_fault(g, source, c, a),
    decreases b - a,
{
    if a < b {
        early_load_fault(g, source, c, a, (b - 1) as nat);
    }
}

proof fn split_is_placed(
    w: ExpertWeight,
    g: Gguf,
    source: Source,
    l: nat,
    name: Seq<char>,
    n: nat,
    rows: nat,
    cols: usize,
)
    requires
        is_split(w, g, source, l, name, n, rows, cols),
    ensures
        match source.map_len() {
            Some(len) => stack_within(w, n, rows, cols, len as nat),
            None => stack_expanded(w, n),
        },
{
    if let ExpertWeight::Split(ws) = w {
        assert forall|e: int| 0 <= e < n implies match source.map_len() {
            Some(len) => (#[trigger] ws@[e]).within(rows, len as nat) && (
            ws@[e] matches Weight::Packed { cols: k, .. } && k == cols),
            None => ws@[e] is Full,
        } by {
            weight::placed_within(
                g,
                source,
                gguf::expert_tensor(l, name, e as nat),
                rows,
                cols,
                ws@[e],
            );
        }
    }
}

proof fn stack_is_placed(
    w: ExpertWeight,
    g: Gguf,
    source: Source,
    l: nat,
    name: Seq<char>,
    n: nat,
    rows: nat,
    cols: usize,
)
    requires
        is_stack(w, g, source, l, name, n * rows, cols),
    ensures
        match source.map_len() {
            Some(len) => stack_within(w, n, rows, cols, len as nat),
            None => stack_expanded(w, n),
        },
{
    if let ExpertWeight::Stacked(m) = w {
        weight::placed_within(g, source, gguf::block_tensor(l, name), n * rows, cols, m);
    }
}

proof fn loaded_is_wf(b: LlamaBackend, g: Gguf, source: Source)
    requires
        b.loaded_from(g, source),
        b.cfg().fits(),
    ensures
        b.wf(),
{
    let c = b.cfg();
    weight::placed_within(
        g,
        source,
        "token_embd.weight"@,
        c.vocab as nat,
        c.d_model,
        b.embedding(),
    );
    let (ne, f, d) = (c.n_experts as nat, c.d_ff as nat, c.d_model as nat);
    assert forall|l: int| 0 <= l < c.n_layers implies match source.map_len() {
        Some(len) => ffn_within(#[trigger] b.blocks()[l].ffn, c, len as nat),
        None => ffn_expanded(b.blocks()[l].ffn, c),
    } by {
        let x = b.blocks()[l].ffn;
        let at = l as nat;
        assert(is_layer(b.blocks()[l], g, source, c, at));
        if let Ffn::Moe { router, gate, up, down } = x {
            if ffn_layout(g, ne, at) == FfnLayout::Stacked {
                stack_is_placed(gate, g, source, at, "ffn_gate_exps"@, ne, f, c.d_model);
                stack_is_placed(up, g, source, at, "ffn_up_exps"@, ne, f, c.d_model);
                stack_is_placed(down, g, source, at, "ffn_down_exps"@, ne, d, c.d_ff);
            } else {
                split_is_placed(gate, g, source, at, "ffn_gate"@, ne, f, c.d_model);
                split_is_placed(up, g, source, at, "ffn_up"@, ne, f, c.d_model);
                split_is_placed(down, g, source, at, "ffn_down"@, ne, d, c.d_ff);
            }
        }
    }
}

/// The range if there is one.
pub open spec fn present(r: Option<(nat, nat)>) -> Seq<(nat, nat)> {
    match r {
        Some(p) => seq![p],
        None => Seq::empty(),
    }
}

/// Byte ranges of the weights of expert `e` of a block.
pub open spec fn expert_pages(x: Ffn, c: LlamaConfig, e: nat) -> Seq<(nat, nat)> {
    match x {
        Ffn::Moe { gate, up, down, .. } => present(gate.range(e, c.d_ff as nat)) + present(
            up.range(e, c.d_ff as nat),
        ) + present(down.range(e, c.d_model as nat)),
        Ffn::Dense { .. } => Seq::empty(),
    }
}

pub open spec fn as_nats(v: Seq<(usize, usize)>) -> Seq<(nat, nat)> {
    v.map_values(|p: (usize, usize)| (p.0 as nat, p.1 as nat))
}

/// A weight takes at most four bytes.
proof fn at_most_four_bytes(qtype: u32, n: nat)
    ensures
        quant::size_of(qtype, n) matches Ok(len) ==> len <= 4 * n,
{
}

/// The range of every expert of a block can be computed, and lies within the map.
proof fn expert_range_ok(w: ExpertWeight, n: nat, block: nat, cols: usize, len: nat, e: nat)
    requires
        stack_within(w, n, block, cols, len),
        e < n,
        n * block <= usize::MAX,
        block * cols <= usize::MAX,
        4 * cols <= usize::MAX,
        len <= usize::MAX,
    ensures
        w.range_fits(e, block),
        w.range(e, block) matches Some((start, size)) ==> start + size <= len,
{
    if let ExpertWeight::Stacked(Weight::Packed { qtype, .. }) = w {
        at_most_four_bytes(qtype, cols as nat);
    }
    weight::expert_range_within(w, n, block, len, e);
}

proof fn expanded_range_ok(w: ExpertWeight, n: nat, block: nat, e: nat)
    requires
        stack_expanded(w, n),
        e < n,
        n * block <= usize::MAX,
    ensures
        w.range_fits(e, block),
        w.range(e, block) is None,
{
    assert(e * block <= n * block) by (nonlinear_arith)
        requires
            e < n,
            block >= 0,
    ;
    if let ExpertWeight::Split(ws) = w {
        assert(ws@[e as int] is Full);
    }
}

/// The three ranges of an expert can be computed; there are none where nothing is
/// mapped, and what there is lies within the map.
pub proof fn expert_pages_lie_within_the_map(b: LlamaBackend, l: int, e: nat)
    requires
        b.wf(),
        0 <= l < b.cfg().n_layers,
        e < b.cfg().n_experts,
    ensures
        b.blocks()[l].ffn matches Ffn::Moe { gate, up, down, .. } ==> {
            &&& gate.range_fits(e, b.cfg().d_ff as nat)
            &&& up.range_fits(e, b.cfg().d_ff as nat)
            &&& down.range_fits(e, b.cfg().d_model as nat)
        },
        forall|i: int|
            0 <= i < expert_pages(b.blocks()[l].ffn, b.cfg(), e).len() ==> {
                let p = #[trigger] expert_pages(b.blocks()[l].ffn, b.cfg(), e)[i];
                b.map_len() matches Some(len) && p.0 + p.1 <= len
            },
{
    let c = b.cfg();
    let x = b.blocks()[l].ffn;
    let (n, f, d) = (c.n_experts as nat, c.d_ff as nat, c.d_model as nat);
    sizes_bounded(c);
    match b.map_len() {
        Some(len) => {
            assert(ffn_within(x, c, len as nat));
            if let Ffn::Moe { router, gate, up, down } = x {
                expert_range_ok(gate, n, f, c.d_model, len as nat, e);
                expert_range_ok(up, n, f, c.d_model, len as nat, e);
                expert_range_ok(down, n, d, c.d_ff, len as nat, e);
            }
        },
        None => {
            assert(ffn_expanded(x, c));
            if let Ffn::Moe { router, gate, up, down } = x {
                expanded_range_ok(gate, n, f, e);
                expanded_range_ok(up, n, f, e);
                expanded_range_ok(down, n, d, e);
            }
        },
    }
}

impl LlamaBackend {
    /// `g` loads: its sizes can be computed with, and nothing is wrong with its tensors.
    pub open spec fn loads(g: Gguf, source: Source) -> bool {
        &&& g.wf()
        &&& LlamaConfig::fault(g) is None
        &&& announced_sizes_fit(g)
        &&& exists|c: LlamaConfig| #[trigger]
            c.describes(g) && load_fault(g, source, c, c.n_layers as nat) is None
    }

    /// What loading `g` gives, whatever sizes it announces.
    pub open spec fn outcome(g: Gguf, source: Source, r: Result<Self, LoadError>) -> bool {
        match r {
            Ok(b) => {
                &&& g.wf()
                &&& LlamaConfig::fault(g) is None
                &&& b.loaded_from(g, source)
                &&& b.wf()
                &&& b.chunk() == 1
                &&& announced_sizes_fit(g)
                &&& load_fault(g, source, b.cfg(), b.cfg().n_layers as nat) is None
            },
            Err(LoadError::TooLarge) => !g.wf() || (LlamaConfig::fault(g) is None
                && !announced_sizes_fit(g)),
            Err(LoadError::Refused(e)) => g.wf() && match LlamaConfig::fault(g) {
                Some(m) => Fault::Model(m).is(e),
                None => announced_sizes_fit(g) && exists|c: LlamaConfig|
                    {
                        &&& #[trigger] c.describes(g)
                        &&& load_fault(g, source, c, c.n_layers as nat) matches Some(f)
                            && f.is(e)
                    },
            },
        }
    }

    /// Loads a checkpoint from its header, whatever sizes it announces.
    pub fn try_from_gguf(g: &Gguf, source: Source) -> (r: Result<Self, LoadError>)
        ensures
            Self::outcome(*g, source, r),
    {
        if !g.is_addressable() {
            return Err(LoadError::TooLarge);
        }
        let cfg = match LlamaConfig::from_gguf(g) {
            Ok(c) => c,
            Err(e) => {
                return Err(LoadError::Refused(e));
            },
        };
        if !cfg.sizes_fit() {
            return Err(LoadError::TooLarge);
        }
        assert(announced_sizes_fit(*g)) by {
            assert forall|c: LlamaConfig| #[trigger] c.describes(*g) implies c.fits() by {
                assert(c.d_model == cfg.d_model && c.d_ff == cfg.d_ff && c.vocab == cfg.vocab);
                assert(c.n_experts == cfg.n_experts && c.n_layers == cfg.n_layers);
            }
        }
        match LlamaBackend::from_gguf(g, source) {
            Ok(b) => Ok(b),
            Err(e) => Err(LoadError::Refused(e)),
        }
    }

    /// Loads a checkpoint from the bytes of its file, expanding its weights in RAM.
    pub fn load(bytes: &[u8]) -> (r: Result<Self, LoadError>)
        ensures
            match parse::header(bytes@) {
                Some(h) => exists|g: Gguf| #[trigger] g@ == h && Self::outcome(
                    g,
                    (Source { bytes, mapped: false }),
                    r,
                ),
                None => r matches Err(LoadError::Refused(e)) && parse::refusal(bytes@).is(e),
            },
    {
        match Gguf::parse(bytes) {
            Ok(g) => LlamaBackend::try_from_gguf(&g, Source::expanded(bytes)),
            Err(e) => Err(LoadError::Refused(e)),
        }
    }

    /// True when weights are kept packed in a memory-mapped file.
    pub fn is_mmapped(&self) -> (r: bool)
        ensures
            r == self.embedding().packed(),
    {
        self.token_embd.is_packed()
    }

    /// True when the output head is the embedding matrix rather than its own tensor.
    pub fn has_tied_embeddings(&self) -> (r: bool)
        ensures
            r == (self.head() is None),
    {
        self.output.is_none()
    }

    pub fn config(&self) -> (c: LlamaConfig)
        ensures
            c == self.cfg(),
    {
        self.cfg
    }

    pub fn dims(&self) -> (d: ModelDims)
        ensures
            d.d_model == self.cfg().d_model,
            d.n_heads == self.cfg().n_heads,
            d.head_dim == self.cfg().head_dim,
            d.d_ff == self.cfg().d_ff,
            d.n_experts == 1,
            d.top_k == 1,
            d.vocab_size == self.cfg().vocab,
            d.block_size == 32,
            d.rope_theta_bits == self.cfg().rope_theta_bits,
    {
        self.cfg.model_dims()
    }

    /// The embedding matrix.
    pub fn token_embd(&self) -> (w: Weight)
        ensures
            w == self.embedding(),
    {
        self.token_embd
    }

    /// The output head: its own matrix, or the embeddings.
    pub fn output(&self) -> (w: Weight)
        ensures
            w == match self.head() {
                Some(w) => w,
                None => self.embedding(),
            },
    {
        match self.output {
            Some(w) => w,
            None => self.token_embd,
        }
    }

    pub fn layer(&self, l: usize) -> (x: &Layer)
        requires
            l < self.blocks().len(),
        ensures
            *x == self.blocks()[l as int],
    {
        &self.layers[l]
    }

    /// Sets how many prompt tokens share one pass over a layer's weights. Zero and one
    /// both mean token-major: a token traverses every layer before the next one starts.
    pub fn with_prefill_chunk(self, chunk: usize) -> (b: Self)
        ensures
            b.chunk() == if chunk == 0 {
                1
            } else {
                chunk
            },
            b.cfg() == self.cfg(),
            b.embedding() == self.embedding(),
            b.head() == self.head(),
            b.blocks() == self.blocks(),
            b.map_len() == self.map_len(),
    {
        LlamaBackend {
            cfg: self.cfg,
            token_embd: self.token_embd,
            output: self.output,
            layers: self.layers,
            mapped: self.mapped,
            prefill_chunk: if chunk == 0 {
                1
            } else {
                chunk
            },
        }
    }

    pub fn prefill_chunk(&self) -> (n: usize)
        ensures
            n == self.chunk(),
    {
        self.prefill_chunk
    }

    /// Byte ranges of one expert's weights in the mapped file.
    fn pages_of(&self, l: usize, e: usize) -> (out: Vec<(usize, usize)>)
        requires
            self.wf(),
            l < self.cfg().n_layers,
            e < self.cfg().n_experts,
        ensures
            as_nats(out@) == expert_pages(self.blocks()[l as int].ffn, self.cfg(), e as nat),
    {
        proof {
            expert_pages_lie_within_the_map(*self, l as int, e as nat);
        }
        let mut out: Vec<(usize, usize)> = Vec::new();
        if let Ffn::Moe { gate, up, down, .. } = &self.layers[l].ffn {
            if let Some(p) = gate.byte_range(e, self.cfg.d_ff) {
                out.push(p);
            }
            if let Some(p) = up.byte_range(e, self.cfg.d_ff) {
                out.push(p);
            }
            if let Some(p) = down.byte_range(e, self.cfg.d_model) {
                out.push(p);
            }
        }
        assert(as_nats(out@) =~= expert_pages(
            self.blocks()[l as int].ffn,
            self.cfg(),
            e as nat,
        ));
        out
    }

    /// Byte ranges in the mapped file for every pair of a block and an expert, at
    /// `block * n_experts + expert`: what to warm ahead of a token routing there. Empty
    /// for a dense model; no ranges where nothing is mapped.
    pub fn expert_page_ranges(&self) -> (out: Vec<Vec<(usize, usize)>>)
        requires
            self.wf(),
        ensures
            out@.len() == self.cfg().n_layers * self.cfg().n_experts,
            forall|l: int, e: int|
                #![trigger self.blocks()[l], out@[l * self.cfg().n_experts + e]]
                0 <= l < self.cfg().n_layers && 0 <= e < self.cfg().n_experts ==> as_nats(
                    out@[l * self.cfg().n_experts + e]@,
                ) == expert_pages(self.blocks()[l].ffn, self.cfg(), e as nat),
    {
        let ne: usize = self.cfg.n_experts;
        let mut out: Vec<Vec<(usize, usize)>> = Vec::new();
        if ne == 0 {
            return out;
        }
        let mut l: usize = 0;
        while l < self.cfg.n_layers
            invariant
                self.wf(),
                ne == self.cfg().n_experts,
                ne > 0,
                l <= self.cfg().n_layers,
                out@.len() == l * ne,
                forall|i: int|
                    0 <= i < out@.len() ==> as_nats((#[trigger] out@[i])@) == expert_pages(
                        self.blocks()[i / (ne as int)].ffn,
                        self.cfg(),
                        (i % (ne as int)) as nat,
                    ),
            decreases self.cfg().n_layers - l,
        {
            let mut e: usize = 0;
            assert((l + 1) * ne == l * ne + ne) by (nonlinear_arith);
            while e < ne
                invariant
                    self.wf(),
                    ne == self.cfg().n_experts,
                    ne > 0,
                    l < self.cfg().n_layers,
                    e <= ne,
                    out@.len() == l * ne + e,
                    forall|i: int|
                        0 <= i < out@.len() ==> as_nats((#[trigger] out@[i])@) == expert_pages(
                            self.blocks()[i / (ne as int)].ffn,
                            self.cfg(),
                            (i % (ne as int)) as nat,
                        ),
                decreases ne - e,
            {
                proof {
                    vstd::arithmetic::div_mod::lemma_fundamental_div_mod_converse(
                        l * ne + e,
                        ne as int,
                        l as int,
                        e as int,
                    );
                }
                let pages = self.pages_of(l, e);
                out.push(pages);
                e += 1;
            }
            l += 1;
        }
        proof {
            assert forall|l: int, e: int|
                #![trigger self.blocks()[l], out@[l * self.cfg().n_experts + e]]
                0 <= l < self.cfg().n_layers && 0 <= e < self.cfg().n_experts implies as_nats(
                out@[l * self.cfg().n_experts + e]@,
            ) == expert_pages(self.blocks()[l].ffn, self.cfg(), e as nat) by {
                let i = l * ne + e;
                vstd::arithmetic::div_mod::lemma_fundamental_div_mod_converse(
                    i,
                    ne as int,
                    l,
                    e,
                );
                assert(0 <= i < self.cfg().n_layers * ne) by (nonlinear_arith)
                    requires
                        i == l * ne + e,
                        0 <= l < self.cfg().n_layers,
                        0 <= e < ne,
                ;
                assert(as_nats(out@[i]@) == expert_pages(
                    self.blocks()[i / (ne as int)].ffn,
                    self.cfg(),
                    (i % (ne as int)) as nat,
                ));
            }
        }
        out
    }
}

} // verus!
