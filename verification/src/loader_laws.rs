//! What loading a checkpoint promises: every weight is the tensor of its own name, and lies
//! where the header says.

use crate::gguf;
use crate::gguf::{Gguf, TensorInfo};
use crate::gguf_laws;
use crate::llama;
use crate::llama::config::LlamaConfig;
use crate::llama::loader::{Ffn, LlamaBackend, Request};
use crate::llama::weight;
use crate::llama::weight::{ExpertWeight, Source, Weight};
use crate::quant;
use crate::qwen35;
use crate::qwen35::config::Qwen35Config;
use crate::qwen35::loader::{Mixer, Qwen35Backend};
use crate::text;
use crate::types::Fault;
use vstd::prelude::*;

verus! {

/// A weight is the tensor at `i`: packed in a file that is mapped, at the place and of the type
/// that the header gives it, and expanded in any other.
pub open spec fn is_tensor(g: Gguf, source: Source, i: int, cols: usize, w: Weight) -> bool {
    match w {
        Weight::Packed { qtype, cols: k, start } => {
            &&& source.mapped
            &&& qtype == g.tensors@[i].ggml_type
            &&& start == g.data_offset + g.tensors@[i].offset
            &&& k == cols
        },
        Weight::Full { cols: k } => !source.mapped && k == cols,
    }
}

/// A weight of `rows` rows is the first tensor called `name`, which has that many elements.
pub open spec fn lies(
    g: Gguf,
    source: Source,
    name: Seq<char>,
    rows: int,
    cols: int,
    w: Weight,
) -> bool {
    exists|i: int|
        {
            &&& #[trigger] gguf_laws::first_called(g.tensors@, name, i)
            &&& gguf::elements(g.tensors@[i].dims@) == rows * cols
            &&& is_tensor(g, source, i, cols as usize, w)
        }
}

proof fn places_are_first(g: Gguf, name: Seq<char>, from: int)
    requires
        0 <= from,
        forall|j: int| 0 <= j < from && j < g.tensors@.len() ==> (#[trigger] g.tensors@[j]).name@
            != name,
    ensures
        gguf::tensor_place(g.tensors@, name, from) matches Some(i)
            ==> gguf_laws::first_called(g.tensors@, name, i),
    decreases g.tensors@.len() - from,
{
    if from < g.tensors@.len() && g.tensors@[from].name@ != name {
        places_are_first(g, name, from + 1);
    }
}

/// A weight that is placed is the first tensor of its name, with as many elements as were asked
/// for, where the header says.
pub proof fn weights_lie_where_the_header_says(
    g: Gguf,
    source: Source,
    name: Seq<char>,
    rows: nat,
    cols: usize,
    w: Weight,
)
    requires
        weight::placed(g, source, name, rows, cols) == Ok::<Weight, Fault>(w),
    ensures
        lies(g, source, name, rows as int, cols as int, w),
{
    places_are_first(g, name, 0);
    let i = g.place(name).unwrap();
    assert(gguf_laws::first_called(g.tensors@, name, i));
    assert(is_tensor(g, source, i, cols, w));
}

/// A mapped tensor can be placed exactly where it is there, has as many elements as were asked
/// for, is of a type that decodes in whole blocks, and ends within the file.
pub proof fn tensors_within_the_file_are_placed(
    g: Gguf,
    source: Source,
    name: Seq<char>,
    rows: nat,
    cols: usize,
    i: int,
)
    requires
        source.mapped,
        source.bytes@.len() <= usize::MAX,
        gguf_laws::first_called(g.tensors@, name, i),
    ensures
        weight::placed(g, source, name, rows, cols) is Ok <==> {
            let t = g.tensors@[i];
            &&& gguf::elements(t.dims@) == rows * cols
            &&& quant::size_of(t.ggml_type, (rows * cols) as nat) matches Ok(n) && g.data_offset
                + t.offset + n <= source.bytes@.len()
        },
{
    gguf_laws::tensors_go_by_their_names(g, name, i);
}

/// The bytes of some rows of a packed matrix follow those of the rows before them.
pub proof fn rows_follow_each_other(qtype: u32, cols: usize, start: usize, a: nat, n: nat, m: nat)
    requires
        quant::size_of(qtype, cols as nat) is Ok,
    ensures
        ({
            let w = Weight::Packed { qtype, cols, start };
            let b = quant::size_of(qtype, cols as nat)->Ok_0;
            &&& w.rows_at(0, n) == Some((start as nat, n * b))
            &&& w.rows_at(a, n) == Some((start as nat + a * b, n * b))
            &&& w.rows_at(a + n, m)->Some_0.0 == w.rows_at(a, n)->Some_0.0 + w.rows_at(
                a,
                n,
            )->Some_0.1
        }),
{
    let b = quant::size_of(qtype, cols as nat)->Ok_0;
    assert((a + n) * b == a * b + n * b) by (nonlinear_arith);
    assert(0 * b == 0) by (nonlinear_arith);
}

/// `blk.{l}.{rest}`.
pub open spec fn of_block(l: nat, rest: Seq<char>) -> Seq<char> {
    "blk."@ + text::decimal(l) + "."@ + rest
}

/// A stack of matrices is one tensor.
pub open spec fn stack_lies(
    g: Gguf,
    source: Source,
    name: Seq<char>,
    rows: int,
    cols: int,
    w: ExpertWeight,
) -> bool {
    w matches ExpertWeight::Stacked(m) && lies(g, source, name, rows, cols, m)
}

proof fn block_name(l: nat, name: Seq<char>, rest: Seq<char>)
    requires
        rest == name + ".weight"@,
    ensures
        gguf::block_tensor(l, name) == of_block(l, rest),
        qwen35::loader::named(l, rest) == of_block(l, rest),
{
    assert(gguf::block_tensor(l, name) =~= of_block(l, rest));
}

proof fn matrix_lies(
    g: Gguf,
    source: Source,
    l: nat,
    name: Seq<char>,
    rows: nat,
    cols: usize,
    w: Weight,
)
    requires
        llama::loader::is_matrix(w, g, source, l, name, rows, cols),
    ensures
        lies(g, source, of_block(l, name + ".weight"@), rows as int, cols as int, w),
{
    block_name(l, name, name + ".weight"@);
    weights_lie_where_the_header_says(g, source, gguf::block_tensor(l, name), rows, cols, w);
}

/// A llama checkpoint's weights are the tensors of their own names: the embeddings, the output
/// head where there is one, and every block's projections, queries from the query tensor, keys
/// from the key tensor and so on.
pub proof fn llama_attention_lies_by_name(b: LlamaBackend, g: Gguf, source: Source, l: int)
    requires
        b.loaded_from(g, source),
        b.cfg().wf(),
        0 <= l < b.cfg().n_layers,
    ensures
        ({
            let c = b.cfg();
            let (d, kv) = (c.d_model as int, (c.n_kv_heads * c.head_dim) as int);
            let x = b.blocks()[l];
            &&& lies(g, source, "token_embd.weight"@, c.vocab as int, d, b.embedding())
            &&& b.head() matches Some(w) ==> lies(
                g,
                source,
                "output.weight"@,
                c.vocab as int,
                d,
                w,
            )
            &&& b.head() is None <==> !g.has("output.weight"@)
            &&& lies(g, source, of_block(l as nat, "attn_q"@ + ".weight"@), d, d, x.wq)
            &&& lies(g, source, of_block(l as nat, "attn_k"@ + ".weight"@), kv, d, x.wk)
            &&& lies(g, source, of_block(l as nat, "attn_v"@ + ".weight"@), kv, d, x.wv)
            &&& lies(g, source, of_block(l as nat, "attn_output"@ + ".weight"@), d, d, x.wo)
            &&& b.blocks().len() == c.n_layers
        }),
{
    let c = b.cfg();
    let x = b.blocks()[l];
    assert(llama::loader::is_layer(x, g, source, c, l as nat));
    assert(c.kv_width() >= 0) by (nonlinear_arith)
        requires
            c.kv_width() == c.n_kv_heads * c.head_dim,
    ;
    let (d, kv) = (c.d_model as nat, c.kv_width() as nat);
    weights_lie_where_the_header_says(
        g,
        source,
        "token_embd.weight"@,
        c.vocab as nat,
        c.d_model,
        b.embedding(),
    );
    if let Some(w) = b.head() {
        weights_lie_where_the_header_says(
            g,
            source,
            "output.weight"@,
            c.vocab as nat,
            c.d_model,
            w,
        );
    }
    matrix_lies(g, source, l as nat, "attn_q"@, d, c.d_model, x.wq);
    matrix_lies(g, source, l as nat, "attn_k"@, kv, c.d_model, x.wk);
    matrix_lies(g, source, l as nat, "attn_v"@, kv, c.d_model, x.wv);
    matrix_lies(g, source, l as nat, "attn_output"@, d, c.d_model, x.wo);
}

/// A dense feed-forward network is the three `ffn` tensors of its block, each of its own shape. A model without experts has no other.
pub proof fn llama_dense_networks_lie_by_name(b: LlamaBackend, g: Gguf, source: Source, l: int)
    requires
        b.loaded_from(g, source),
        0 <= l < b.cfg().n_layers,
        b.cfg().n_experts == 0 || (!g.has(gguf::block_tensor(l as nat, "ffn_gate_exps"@))
            && !g.has(gguf::expert_tensor(l as nat, "ffn_gate"@, 0))),
    ensures
        ({
            let c = b.cfg();
            let (d, f) = (c.d_model as int, c.d_ff as int);
            b.blocks()[l].ffn matches Ffn::Dense { gate, up, down } && {
                &&& stack_lies(g, source, of_block(l as nat, "ffn_gate"@ + ".weight"@), f, d, gate)
                &&& stack_lies(g, source, of_block(l as nat, "ffn_up"@ + ".weight"@), f, d, up)
                &&& stack_lies(g, source, of_block(l as nat, "ffn_down"@ + ".weight"@), d, f, down)
            }
        }),
{
    let c = b.cfg();
    let x = b.blocks()[l];
    assert(llama::loader::is_layer(x, g, source, c, l as nat));
    let (d, f) = (c.d_model as nat, c.d_ff as nat);
    if let Ffn::Dense { gate, up, down } = x.ffn {
        matrix_lies(g, source, l as nat, "ffn_gate"@, f, c.d_model, gate->Stacked_0);
        matrix_lies(g, source, l as nat, "ffn_up"@, f, c.d_model, up->Stacked_0);
        matrix_lies(g, source, l as nat, "ffn_down"@, d, c.d_ff, down->Stacked_0);
    }
}

/// A mixture whose experts are merged is the router and the three merged tensors of its block.
pub proof fn llama_merged_experts_lie_by_name(b: LlamaBackend, g: Gguf, source: Source, l: int)
    requires
        b.loaded_from(g, source),
        0 <= l < b.cfg().n_layers,
        b.cfg().n_experts > 0,
        g.has(gguf::block_tensor(l as nat, "ffn_gate_exps"@)),
    ensures
        ({
            let c = b.cfg();
            let (d, f, n) = (c.d_model as int, c.d_ff as int, c.n_experts as int);
            b.blocks()[l].ffn matches Ffn::Moe { router, gate, up, down } && {
                &&& lies(
                    g,
                    source,
                    of_block(l as nat, "ffn_gate_inp"@ + ".weight"@),
                    n,
                    d,
                    router,
                )
                &&& stack_lies(
                    g,
                    source,
                    of_block(l as nat, "ffn_gate_exps"@ + ".weight"@),
                    n * f,
                    d,
                    gate,
                )
                &&& stack_lies(
                    g,
                    source,
                    of_block(l as nat, "ffn_up_exps"@ + ".weight"@),
                    n * f,
                    d,
                    up,
                )
                &&& stack_lies(
                    g,
                    source,
                    of_block(l as nat, "ffn_down_exps"@ + ".weight"@),
                    n * d,
                    f,
                    down,
                )
            }
        }),
{
    let c = b.cfg();
    let x = b.blocks()[l];
    assert(llama::loader::is_layer(x, g, source, c, l as nat));
    let (d, f, n) = (c.d_model as nat, c.d_ff as nat, c.n_experts as nat);
    if let Ffn::Moe { router, gate, up, down } = x.ffn {
        matrix_lies(g, source, l as nat, "ffn_gate_inp"@, n, c.d_model, router);
        matrix_lies(g, source, l as nat, "ffn_gate_exps"@, n * f, c.d_model, gate->Stacked_0);
        matrix_lies(g, source, l as nat, "ffn_up_exps"@, n * f, c.d_model, up->Stacked_0);
        matrix_lies(g, source, l as nat, "ffn_down_exps"@, n * d, c.d_ff, down->Stacked_0);
    }
}

/// A mixture whose experts are kept apart has, for every expert, the tensors of that number.
pub proof fn llama_split_experts_lie_by_name(
    b: LlamaBackend,
    g: Gguf,
    source: Source,
    l: int,
    e: int,
)
    requires
        b.loaded_from(g, source),
        0 <= l < b.cfg().n_layers,
        0 <= e < b.cfg().n_experts,
        !g.has(gguf::block_tensor(l as nat, "ffn_gate_exps"@)),
        g.has(gguf::expert_tensor(l as nat, "ffn_gate"@, 0)),
    ensures
        ({
            let c = b.cfg();
            let (d, f) = (c.d_model as int, c.d_ff as int);
            let name = |part: Seq<char>|
                of_block(l as nat, part + "."@ + text::decimal(e as nat) + ".weight"@);
            b.blocks()[l].ffn matches Ffn::Moe {
                gate: ExpertWeight::Split(gate),
                up: ExpertWeight::Split(up),
                down: ExpertWeight::Split(down),
                ..
            } && {
                &&& lies(g, source, name("ffn_gate"@), f, d, gate@[e])
                &&& lies(g, source, name("ffn_up"@), f, d, up@[e])
                &&& lies(g, source, name("ffn_down"@), d, f, down@[e])
            }
        }),
{
    let c = b.cfg();
    let x = b.blocks()[l];
    assert(llama::loader::is_layer(x, g, source, c, l as nat));
    let (d, f) = (c.d_model as nat, c.d_ff as nat);
    if let Ffn::Moe {
        gate: ExpertWeight::Split(gate),
        up: ExpertWeight::Split(up),
        down: ExpertWeight::Split(down),
        ..
    } = x.ffn {
        expert_lies(g, source, l as nat, "ffn_gate"@, e as nat, f, c.d_model, gate@[e]);
        expert_lies(g, source, l as nat, "ffn_up"@, e as nat, f, c.d_model, up@[e]);
        expert_lies(g, source, l as nat, "ffn_down"@, e as nat, d, c.d_ff, down@[e]);
    }
}

proof fn expert_lies(
    g: Gguf,
    source: Source,
    l: nat,
    name: Seq<char>,
    e: nat,
    rows: nat,
    cols: usize,
    w: Weight,
)
    requires
        weight::placed(g, source, gguf::expert_tensor(l, name, e), rows, cols) == Ok::<
            Weight,
            Fault,
        >(w),
    ensures
        lies(
            g,
            source,
            of_block(l, name + "."@ + text::decimal(e) + ".weight"@),
            rows as int,
            cols as int,
            w,
        ),
{
    assert(gguf::expert_tensor(l, name, e) =~= of_block(
        l,
        name + "."@ + text::decimal(e) + ".weight"@,
    ));
    weights_lie_where_the_header_says(g, source, gguf::expert_tensor(l, name, e), rows, cols, w);
}

proof fn answer_lies(
    g: Gguf,
    source: Source,
    l: nat,
    rest: Seq<char>,
    rows: int,
    cols: int,
    w: Weight,
)
    requires
        0 <= rows,
        0 <= cols <= usize::MAX,
        qwen35::loader::answers(g, source, qwen35::loader::matrix(l, rest, rows, cols), w),
    ensures
        lies(g, source, of_block(l, rest), rows, cols, w),
{
    weights_lie_where_the_header_says(g, source, of_block(l, rest), rows as nat, cols as usize, w);
}

/// A Qwen3.5 checkpoint's weights are the tensors of their own names, each of its own shape,
/// whichever kind of block they belong to.
#[verifier::spinoff_prover]
#[verifier::rlimit(40)]
pub proof fn qwen35_blocks_lie_by_name(b: Qwen35Backend, g: Gguf, source: Source, l: int)
    requires
        b.loaded_from(g, source),
        b.cfg().wf(),
        b.cfg().fits(),
        0 <= l < b.cfg().n_layers,
    ensures
        ({
            let c = b.cfg();
            let (d, f) = (c.d_model as int, c.d_ff as int);
            let (attn, kv) = ((c.n_heads * c.head_dim) as int, (c.n_kv_heads * c.head_dim) as int);
            let (key, value) = (
                (c.n_k_heads * c.key_head_dim) as int,
                (c.n_v_heads * c.value_head_dim) as int,
            );
            let x = b.blocks()[l];
            let n = l as nat;
            &&& match x.mixer {
                Mixer::Attn { wqg, wk, wv, wo } => {
                    &&& !c.recurrent@[l]
                    &&& lies(g, source, of_block(n, "attn_q.weight"@), 2 * attn, d, wqg)
                    &&& lies(g, source, of_block(n, "attn_k.weight"@), kv, d, wk)
                    &&& lies(g, source, of_block(n, "attn_v.weight"@), kv, d, wv)
                    &&& lies(g, source, of_block(n, "attn_output.weight"@), d, attn, wo)
                },
                Mixer::Linear { wqkv, wz, wbeta, walpha, wout } => {
                    &&& c.recurrent@[l]
                    &&& lies(
                        g,
                        source,
                        of_block(n, "attn_qkv.weight"@),
                        2 * key + value,
                        d,
                        wqkv,
                    )
                    &&& lies(g, source, of_block(n, "attn_gate.weight"@), value, d, wz)
                    &&& lies(
                        g,
                        source,
                        of_block(n, "ssm_beta.weight"@),
                        c.n_v_heads as int,
                        d,
                        wbeta,
                    )
                    &&& lies(
                        g,
                        source,
                        of_block(n, "ssm_alpha.weight"@),
                        c.n_v_heads as int,
                        d,
                        walpha,
                    )
                    &&& lies(g, source, of_block(n, "ssm_out.weight"@), d, value, wout)
                },
            }
            &&& lies(g, source, of_block(n, "ffn_gate.weight"@), f, d, x.ffn_gate)
            &&& lies(g, source, of_block(n, "ffn_up.weight"@), f, d, x.ffn_up)
            &&& lies(g, source, of_block(n, "ffn_down.weight"@), d, f, x.ffn_down)
            &&& lies(g, source, "token_embd.weight"@, c.vocab as int, d, b.embedding())
            &&& b.head() matches Some(w) ==> lies(g, source, "output.weight"@, c.vocab as int, d, w)
            &&& b.head() is None <==> !g.has("output.weight"@)
        }),
{
    let c = b.cfg();
    let x = b.blocks()[l];
    let n = l as nat;
    let (d, f) = (c.d_model as int, c.d_ff as int);
    assert(qwen35::loader::is_block(x, g, source, c, n));
    qwen35::loader::sizes_bounded(c);
    qwen35::config::widths_are_natural(c);
    match x.mixer {
        Mixer::Attn { wqg, wk, wv, wo } => {
            answer_lies(g, source, n, "attn_q.weight"@, 2 * c.attn_width(), d, wqg);
            answer_lies(g, source, n, "attn_k.weight"@, c.kv_width(), d, wk);
            answer_lies(g, source, n, "attn_v.weight"@, c.kv_width(), d, wv);
            answer_lies(g, source, n, "attn_output.weight"@, d, c.attn_width(), wo);
        },
        Mixer::Linear { wqkv, wz, wbeta, walpha, wout } => {
            answer_lies(g, source, n, "attn_qkv.weight"@, c.conv_width(), d, wqkv);
            answer_lies(g, source, n, "attn_gate.weight"@, c.value_width(), d, wz);
            answer_lies(g, source, n, "ssm_beta.weight"@, c.n_v_heads as int, d, wbeta);
            answer_lies(g, source, n, "ssm_alpha.weight"@, c.n_v_heads as int, d, walpha);
            answer_lies(g, source, n, "ssm_out.weight"@, d, c.value_width(), wout);
        },
    }
    answer_lies(g, source, n, "ffn_gate.weight"@, f, d, x.ffn_gate);
    answer_lies(g, source, n, "ffn_up.weight"@, f, d, x.ffn_up);
    answer_lies(g, source, n, "ffn_down.weight"@, d, f, x.ffn_down);
    weights_lie_where_the_header_says(
        g,
        source,
        "token_embd.weight"@,
        c.vocab as nat,
        c.d_model,
        b.embedding(),
    );
    if let Some(w) = b.head() {
        weights_lie_where_the_header_says(
            g,
            source,
            "output.weight"@,
            c.vocab as nat,
            c.d_model,
            w,
        );
    }
}

/// The span of a block reaches no further than its tensors do: it begins where one of them
/// begins, and ends where one of them ends.
pub proof fn spans_are_no_wider_than_their_tensors(g: Gguf, l: nat, n: nat)
    requires
        n <= g.tensors@.len(),
    ensures
        qwen35::loader::span(g, l, n) matches Some((a, b)) ==> {
            &&& exists|i: int|
                0 <= i < n && qwen35::loader::belongs(#[trigger] g.tensors@[i], l) && a
                    == g.data_offset + g.tensors@[i].offset
            &&& exists|i: int|
                0 <= i < n && qwen35::loader::belongs(#[trigger] g.tensors@[i], l) && b
                    == g.data_offset + g.tensors@[i].offset + g.tensors@[i].stored_bytes()
        },
        qwen35::loader::span(g, l, n) is None <==> forall|i: int|
            0 <= i < n ==> !qwen35::loader::belongs(#[trigger] g.tensors@[i], l),
    decreases n,
{
    if n > 0 {
        spans_are_no_wider_than_their_tensors(g, l, (n - 1) as nat);
        let t = g.tensors@[n - 1];
        if qwen35::loader::belongs(t, l) {
            assert(qwen35::loader::belongs(g.tensors@[n - 1], l));
        }
    }
}

/// A small tensor called `name` is there, with `n` elements.
pub open spec fn is_there(g: Gguf, name: Seq<char>, n: int) -> bool {
    exists|i: int| #[trigger]
        gguf_laws::first_called(g.tensors@, name, i) && gguf::elements(g.tensors@[i].dims@) == n
}

proof fn norms_that_load_are_there(g: Gguf, file: Seq<u8>, name: Seq<char>, n: nat)
    requires
        weight::norm_fault(g, file, name, n) is None,
    ensures
        is_there(g, name, n as int),
{
    places_are_first(g, name, 0);
    let i = g.place(name).unwrap();
    assert(gguf_laws::first_called(g.tensors@, name, i));
}

proof fn every_request_is_met(g: Gguf, source: Source, rs: Seq<Request>, k: int)
    requires
        llama::loader::first_fault(g, source, rs) is None,
        0 <= k < rs.len(),
    ensures
        llama::loader::request_fault(g, source, rs[k]) is None,
    decreases rs.len(),
{
    if k < rs.len() - 1 {
        every_request_is_met(g, source, rs.drop_last(), k);
        assert(rs.drop_last()[k] == rs[k]);
    }
}

proof fn llama_block_is_met(g: Gguf, source: Source, c: LlamaConfig, n: nat, l: nat)
    requires
        llama::loader::load_fault(g, source, c, n) is None,
        l < n,
    ensures
        llama::loader::first_fault(
            g,
            source,
            llama::loader::ffn_requests(g, c, l) + llama::loader::attn_requests(c, l),
        ) is None,
        llama::loader::first_fault(g, source, llama::loader::head_requests(g, c)) is None,
    decreases n,
{
    if l < n - 1 {
        llama_block_is_met(g, source, c, (n - 1) as nat, l);
    } else if n > 1 {
        llama_block_is_met(g, source, c, (n - 1) as nat, (n - 2) as nat);
    }
}

/// A llama checkpoint that loads has its norms, each as wide as the model.
pub proof fn llama_norms_are_there(g: Gguf, source: Source, c: LlamaConfig, l: nat)
    requires
        llama::loader::load_fault(g, source, c, c.n_layers as nat) is None,
        l < c.n_layers,
    ensures
        is_there(g, "output_norm.weight"@, c.d_model as int),
        is_there(g, of_block(l, "attn_norm"@ + ".weight"@), c.d_model as int),
        is_there(g, of_block(l, "ffn_norm"@ + ".weight"@), c.d_model as int),
{
    llama_block_is_met(g, source, c, c.n_layers as nat, l);
    let (a, b) = (llama::loader::ffn_requests(g, c, l), llama::loader::attn_requests(c, l));
    every_request_is_met(g, source, llama::loader::head_requests(g, c), 1);
    every_request_is_met(g, source, a + b, a.len() as int);
    every_request_is_met(g, source, a + b, (a.len() + 5) as int);
    assert((a + b)[a.len() as int] == b[0] && (a + b)[(a.len() + 5) as int] == b[5]);
    let d = c.d_model as nat;
    norms_that_load_are_there(g, source.bytes@, "output_norm.weight"@, d);
    block_name(l, "attn_norm"@, "attn_norm"@ + ".weight"@);
    block_name(l, "ffn_norm"@, "ffn_norm"@ + ".weight"@);
    norms_that_load_are_there(g, source.bytes@, gguf::block_tensor(l, "attn_norm"@), d);
    norms_that_load_are_there(g, source.bytes@, gguf::block_tensor(l, "ffn_norm"@), d);
}

proof fn qwen35_block_is_met(g: Gguf, source: Source, c: Qwen35Config, n: nat, l: nat)
    requires
        qwen35::loader::load_fault(g, source, c, n) is None,
        l < n,
    ensures
        llama::loader::first_fault(g, source, qwen35::loader::block_requests(c, l)) is None,
        llama::loader::first_fault(g, source, qwen35::loader::head_requests(g, c)) is None,
    decreases n,
{
    if l < n - 1 {
        qwen35_block_is_met(g, source, c, (n - 1) as nat, l);
    } else if n > 1 {
        qwen35_block_is_met(g, source, c, (n - 1) as nat, (n - 2) as nat);
    }
}

/// A Qwen3.5 checkpoint that loads has its small tensors, each of the size that it is used
/// with.
pub proof fn qwen35_small_tensors_are_there(g: Gguf, source: Source, c: Qwen35Config, l: nat)
    requires
        qwen35::loader::load_fault(g, source, c, c.n_layers as nat) is None,
        c.wf(),
        c.fits(),
        l < c.n_layers,
    ensures
        is_there(g, "output_norm.weight"@, c.d_model as int),
        is_there(g, of_block(l, "attn_norm.weight"@), c.d_model as int),
        is_there(g, of_block(l, "post_attention_norm.weight"@), c.d_model as int),
        !c.recurrent@[l as int] ==> {
            &&& is_there(g, of_block(l, "attn_q_norm.weight"@), c.head_dim as int)
            &&& is_there(g, of_block(l, "attn_k_norm.weight"@), c.head_dim as int)
        },
        c.recurrent@[l as int] ==> {
            &&& is_there(
                g,
                of_block(l, "ssm_conv1d.weight"@),
                (2 * (c.n_k_heads * c.key_head_dim) + c.n_v_heads * c.value_head_dim)
                    * c.conv_kernel,
            )
            &&& is_there(g, of_block(l, "ssm_dt.bias"@), c.n_v_heads as int)
            &&& is_there(g, of_block(l, "ssm_a"@), c.n_v_heads as int)
            &&& is_there(g, of_block(l, "ssm_norm.weight"@), c.value_head_dim as int)
        },
{
    qwen35_block_is_met(g, source, c, c.n_layers as nat, l);
    every_request_is_met(g, source, qwen35::loader::head_requests(g, c), 1);
    norms_that_load_are_there(g, source.bytes@, "output_norm.weight"@, c.d_model as nat);
    qwen35_common_tensors_are_there(g, source, c, l);
    if c.recurrent@[l as int] {
        qwen35_linear_tensors_are_there(g, source, c, l);
    } else {
        qwen35_attention_tensors_are_there(g, source, c, l);
    }
}

proof fn small_tensors_are_there(
    g: Gguf,
    source: Source,
    rs: Seq<Request>,
    k: int,
    l: nat,
    name: Seq<char>,
    n: int,
)
    requires
        llama::loader::first_fault(g, source, rs) is None,
        0 <= k < rs.len(),
        rs[k] == qwen35::loader::small(l, name, n),
        0 <= n,
    ensures
        is_there(g, of_block(l, name), n),
{
    every_request_is_met(g, source, rs, k);
    norms_that_load_are_there(g, source.bytes@, of_block(l, name), n as nat);
}

#[verifier::spinoff_prover]
proof fn qwen35_common_tensors_are_there(g: Gguf, source: Source, c: Qwen35Config, l: nat)
    requires
        llama::loader::first_fault(g, source, qwen35::loader::block_requests(c, l)) is None,
    ensures
        is_there(g, of_block(l, "attn_norm.weight"@), c.d_model as int),
        is_there(g, of_block(l, "post_attention_norm.weight"@), c.d_model as int),
{
    let rs = qwen35::loader::block_requests(c, l);
    let common = qwen35::loader::common_requests(c, l);
    let n = rs.len() - common.len();
    assert(rs[n] == common[0] && rs[n + 1] == common[1]);
    small_tensors_are_there(g, source, rs, n, l, "attn_norm.weight"@, c.d_model as int);
    small_tensors_are_there(
        g,
        source,
        rs,
        n + 1,
        l,
        "post_attention_norm.weight"@,
        c.d_model as int,
    );
}

#[verifier::spinoff_prover]
proof fn qwen35_linear_tensors_are_there(g: Gguf, source: Source, c: Qwen35Config, l: nat)
    requires
        llama::loader::first_fault(g, source, qwen35::loader::block_requests(c, l)) is None,
        c.wf(),
        c.fits(),
        c.recurrent@[l as int],
    ensures
        is_there(
            g,
            of_block(l, "ssm_conv1d.weight"@),
            (2 * (c.n_k_heads * c.key_head_dim) + c.n_v_heads * c.value_head_dim) * c.conv_kernel,
        ),
        is_there(g, of_block(l, "ssm_dt.bias"@), c.n_v_heads as int),
        is_there(g, of_block(l, "ssm_a"@), c.n_v_heads as int),
        is_there(g, of_block(l, "ssm_norm.weight"@), c.value_head_dim as int),
{
    qwen35::loader::sizes_bounded(c);
    let rs = qwen35::loader::block_requests(c, l);
    let own = qwen35::loader::linear_requests(c, l);
    assert(rs[2] == own[2] && rs[5] == own[5] && rs[6] == own[6] && rs[7] == own[7]);
    let taps = c.conv_width() * c.conv_kernel;
    small_tensors_are_there(g, source, rs, 2, l, "ssm_conv1d.weight"@, taps);
    small_tensors_are_there(g, source, rs, 5, l, "ssm_dt.bias"@, c.n_v_heads as int);
    small_tensors_are_there(g, source, rs, 6, l, "ssm_a"@, c.n_v_heads as int);
    small_tensors_are_there(g, source, rs, 7, l, "ssm_norm.weight"@, c.value_head_dim as int);
}

#[verifier::spinoff_prover]
proof fn qwen35_attention_tensors_are_there(g: Gguf, source: Source, c: Qwen35Config, l: nat)
    requires
        llama::loader::first_fault(g, source, qwen35::loader::block_requests(c, l)) is None,
        !c.recurrent@[l as int],
    ensures
        is_there(g, of_block(l, "attn_q_norm.weight"@), c.head_dim as int),
        is_there(g, of_block(l, "attn_k_norm.weight"@), c.head_dim as int),
{
    let rs = qwen35::loader::block_requests(c, l);
    let own = qwen35::loader::attn_requests(c, l);
    assert(rs[4] == own[4] && rs[5] == own[5]);
    small_tensors_are_there(g, source, rs, 4, l, "attn_q_norm.weight"@, c.head_dim as int);
    small_tensors_are_there(g, source, rs, 5, l, "attn_k_norm.weight"@, c.head_dim as int);
}

proof fn dots_are_found(s: Seq<char>, from: int, p: int)
    requires
        0 <= from <= p < s.len(),
        s[p] == '.',
        forall|i: int| from <= i < p ==> s[i] != '.',
    ensures
        qwen35::loader::dot_at(s, from) == Some(p),
    decreases p - from,
{
    if from < p {
        dots_are_found(s, from + 1, p);
    }
}

/// A tensor belongs to the block whose number its name gives, and to none where the name starts
/// otherwise.
pub proof fn tensors_belong_to_the_block_they_name(t: TensorInfo, l: nat, rest: Seq<char>)
    ensures
        t.name@ == of_block(l, rest) ==> qwen35::loader::belongs(t, l),
        !text::stands_at(t.name@, 0, "blk."@) ==> !qwen35::loader::belongs(t, l),
{
    let s = of_block(l, rest);
    let n = text::decimal(l);
    reveal_strlit("blk.");
    reveal_strlit(".");
    text::decimals_read_back(l);
    text::numbers_are_read(l, n, 0);
    assert(s.subrange(0, 4) =~= "blk."@);
    assert(s.subrange(4, (4 + n.len()) as int) =~= n);
    let p = (4 + n.len()) as int;
    assert(s[p] == '.');
    assert forall|i: int| 4 <= i < p implies s[i] != '.' by {
        assert(s[i] == n[i - 4]);
        assert(text::is_digit(n[i - 4]));
    }
    dots_are_found(s, 4, p);
}

/// Of a stack of experts each lies behind the one before it, the first where the stack starts,
/// all of one size. Where every expert has a tensor of its own, it lies where that does.
pub proof fn experts_lie_one_after_another(w: ExpertWeight, e: nat, block: nat)
    ensures
        w matches ExpertWeight::Stacked(Weight::Packed { qtype, cols, start }) ==> (quant::size_of(
            qtype,
            cols as nat,
        ) matches Ok(b) ==> {
            &&& w.range(0, block) == Some((start as nat, block * b))
            &&& w.range(e, block) matches Some(p) && p.1 == block * b && w.range(e + 1, block)
                == Some((p.0 + p.1, p.1))
        }),
        w matches ExpertWeight::Stacked(_) ==> w.slot(0, block) == (0nat, 0nat) && w.slot(
            e + 1,
            block,
        ) == (0nat, w.slot(e, block).1 + block),
        w matches ExpertWeight::Split(ws) ==> {
            &&& w.slot(e, block) == (e, 0nat)
            &&& e >= ws@.len() ==> w.range(e, block) is None
            &&& e < ws@.len() ==> (ws@[e as int] matches Weight::Packed { qtype, cols, start } ==> (
            quant::size_of(qtype, block * cols as nat) matches Ok(n) ==> w.range(e, block) == Some(
                (start as nat, n),
            )))
        },
{
    assert((e + 1) * block == e * block + block && 0 * block == 0) by (nonlinear_arith);
    if let ExpertWeight::Stacked(Weight::Packed { qtype, cols, .. }) = w {
        if let Ok(b) = quant::size_of(qtype, cols as nat) {
            let (x, y) = (e * block, block);
            assert((x + y) * b == x * b + y * b && 0 * b == 0) by (nonlinear_arith);
        }
    }
}

} // verus!
