//! What reading a header promises: every parameter is what its own entry says, and every
//! tensor is the one of that name.

use crate::gguf;
use crate::gguf::{Entry, Gguf, Scalar, TensorInfo, Value};
use crate::llama::config::LlamaConfig;
use crate::quant;
use crate::quant_laws;
use crate::qwen35::config::Qwen35Config;
use crate::server;
use crate::text;
use vstd::prelude::*;

verus! {

/// The entry at `i` is the first with `key`.
pub open spec fn first_at(entries: Seq<Entry>, key: Seq<char>, i: int) -> bool {
    &&& 0 <= i < entries.len()
    &&& entries[i].key@ == key
    &&& forall|j: int| 0 <= j < i ==> (#[trigger] entries[j]).key@ != key
}

/// No entry has `key`.
pub open spec fn none_has(entries: Seq<Entry>, key: Seq<char>) -> bool {
    forall|i: int| 0 <= i < entries.len() ==> (#[trigger] entries[i]).key@ != key
}

proof fn lookup_from(entries: Seq<Entry>, key: Seq<char>, from: int, i: int)
    requires
        0 <= from <= i,
        first_at(entries, key, i),
    ensures
        gguf::lookup(entries, key, from) == Some(entries[i].value),
    decreases i - from,
{
    if from < i {
        lookup_from(entries, key, from + 1, i);
    }
}

proof fn lookup_of_none(entries: Seq<Entry>, key: Seq<char>, from: int)
    requires
        none_has(entries, key),
    ensures
        gguf::lookup(entries, key, from) is None,
    decreases entries.len() - from,
{
    if 0 <= from < entries.len() {
        lookup_of_none(entries, key, from + 1);
    }
}

/// A key has the value of the first entry that it names, and none where no entry has it.
pub proof fn lookups_find_the_first(g: Gguf, key: Seq<char>, i: int)
    ensures
        first_at(g.entries@, key, i) ==> g.at(key) == Some(g.entries@[i].value),
        none_has(g.entries@, key) ==> g.at(key) is None,
{
    if first_at(g.entries@, key, i) {
        lookup_from(g.entries@, key, 0, i);
    }
    if none_has(g.entries@, key) {
        lookup_of_none(g.entries@, key, 0);
    }
}

/// A parameter is what stands under the name of the architecture, a dot and its own name. A
/// number is not read as a real, nor a real as a number.
pub proof fn parameters_stand_under_the_architecture(
    g: Gguf,
    k: int,
    a: Seq<char>,
    suffix: Seq<char>,
    i: int,
)
    requires
        first_at(g.entries@, "general.architecture"@, k),
        g.entries@[k].value matches Value::One(Scalar::Text(s)) && s@ == a,
    ensures
        g.arch() == Some(a),
        first_at(g.entries@, a + "."@ + suffix, i) ==> match g.entries@[i].value {
            Value::One(Scalar::Number(n)) => g.arch_number(suffix) == Some(n) && g.arch_real(
                suffix,
            ) is None,
            Value::One(Scalar::Real(bits)) => g.arch_real(suffix) == Some(bits) && g.arch_number(
                suffix,
            ) is None,
            _ => g.arch_number(suffix) is None && g.arch_real(suffix) is None,
        },
        none_has(g.entries@, a + "."@ + suffix) ==> g.arch_number(suffix) is None && g.arch_real(
            suffix,
        ) is None,
{
    lookups_find_the_first(g, "general.architecture"@, k);
    lookups_find_the_first(g, a + "."@ + suffix, i);
}

/// A header without an architecture has no parameters.
pub proof fn no_architecture_no_parameters(g: Gguf, suffix: Seq<char>)
    requires
        none_has(g.entries@, "general.architecture"@),
    ensures
        g.arch() is None,
        g.arch_number(suffix) is None,
        g.arch_real(suffix) is None,
{
    lookups_find_the_first(g, "general.architecture"@, 0);
}

/// The vocabulary is as long as the list of tokens.
pub proof fn vocabularies_are_counted(g: Gguf, i: int)
    ensures
        first_at(g.entries@, "tokenizer.ggml.tokens"@, i) ==> match g.entries@[i].value {
            Value::Many(l) => g.vocab() == Some(l@.len()),
            _ => g.vocab() is None,
        },
        none_has(g.entries@, "tokenizer.ggml.tokens"@) ==> g.vocab() is None,
{
    lookups_find_the_first(g, "tokenizer.ggml.tokens"@, i);
}

/// Two headers differ in the value at `i` alone.
pub open spec fn differ_at(g: Gguf, h: Gguf, i: int) -> bool {
    &&& g.entries@.len() == h.entries@.len()
    &&& 0 <= i < g.entries@.len()
    &&& g.entries@[i].key@ == h.entries@[i].key@
    &&& forall|j: int| 0 <= j < g.entries@.len() && j != i ==> #[trigger] g.entries@[j] == h.entries@[j]
}

proof fn other_lookups(g: Gguf, h: Gguf, i: int, key: Seq<char>, from: int)
    requires
        differ_at(g, h, i),
        key != g.entries@[i].key@,
        0 <= from,
    ensures
        gguf::lookup(g.entries@, key, from) == gguf::lookup(h.entries@, key, from),
    decreases g.entries@.len() - from,
{
    if from < g.entries@.len() {
        other_lookups(g, h, i, key, from + 1);
        assert(from != i ==> g.entries@[from] == h.entries@[from]);
    }
}

proof fn same_suffix(a: Seq<char>, s: Seq<char>, t: Seq<char>)
    requires
        a + "."@ + s == a + "."@ + t,
    ensures
        s == t,
{
    let (x, y) = (a + "."@ + s, a + "."@ + t);
    let n = (a + "."@).len();
    assert(x.len() == y.len());
    assert forall|i: int| 0 <= i < s.len() implies s[i] == t[i] by {
        assert(x[n + i] == s[i]);
        assert(y[n + i] == t[i]);
    }
    assert(s =~= t);
}

/// An entry is one parameter: headers that differ in one entry of the architecture agree on
/// everything else.
pub proof fn entries_are_independent(g: Gguf, h: Gguf, a: Seq<char>, suffix: Seq<char>, i: int)
    requires
        g.arch() == Some(a),
        differ_at(g, h, i),
        g.entries@[i].key@ == a + "."@ + suffix,
        a + "."@ + suffix != "general.architecture"@,
    ensures
        h.arch() == Some(a),
        forall|s: Seq<char>| s != suffix ==> #[trigger] g.arch_number(s) == h.arch_number(s),
        forall|s: Seq<char>| s != suffix ==> #[trigger] g.arch_real(s) == h.arch_real(s),
        forall|key: Seq<char>| key != a + "."@ + suffix ==> #[trigger] g.at(key) == h.at(key),
{
    assert forall|key: Seq<char>| key != a + "."@ + suffix implies #[trigger] g.at(key) == h.at(
        key,
    ) by {
        other_lookups(g, h, i, key, 0);
    }
    assert(g.at("general.architecture"@) == h.at("general.architecture"@));
    assert forall|s: Seq<char>| s != suffix implies g.at(a + "."@ + s) == h.at(a + "."@ + s) by {
        if a + "."@ + s == a + "."@ + suffix {
            same_suffix(a, s, suffix);
        }
    }
    assert forall|s: Seq<char>| s != suffix implies #[trigger] g.arch_number(s) == h.arch_number(
        s,
    ) by {
        assert(g.at(a + "."@ + s) == h.at(a + "."@ + s));
    }
    assert forall|s: Seq<char>| s != suffix implies #[trigger] g.arch_real(s) == h.arch_real(
        s,
    ) by {
        assert(g.at(a + "."@ + s) == h.at(a + "."@ + s));
    }
}

/// The names of the parameters that a configuration is read from, none twice.
proof fn names_are_distinct()
    ensures
        "embedding_length"@.len() == 16,
        "attention.head_count"@.len() == 20,
        "attention.head_count_kv"@.len() == 23,
        "block_count"@.len() == 11,
        "feed_forward_length"@.len() == 19,
        "context_length"@.len() == 14,
        "context_length"@[0] == 'c',
        "attention.layer_norm_rms_epsilon"@.len() == 32,
        "rope.freq_base"@.len() == 14,
        "rope.freq_base"@[0] == 'r',
        "expert_count"@.len() == 12,
        "expert_used_count"@.len() == 17,
{
    reveal_strlit("embedding_length");
    reveal_strlit("attention.head_count");
    reveal_strlit("attention.head_count_kv");
    reveal_strlit("block_count");
    reveal_strlit("feed_forward_length");
    reveal_strlit("context_length");
    reveal_strlit("attention.layer_norm_rms_epsilon");
    reveal_strlit("rope.freq_base");
    reveal_strlit("expert_count");
    reveal_strlit("expert_used_count");
}

/// What stands under an architecture is neither its name nor the vocabulary.
proof fn parameters_are_no_general_keys(suffix: Seq<char>)
    ensures
        "llama"@ + "."@ + suffix != "general.architecture"@,
        "llama"@ + "."@ + suffix != "tokenizer.ggml.tokens"@,
        "qwen35"@ + "."@ + suffix != "general.architecture"@,
        "qwen35"@ + "."@ + suffix != "tokenizer.ggml.tokens"@,
{
    reveal_strlit("llama");
    reveal_strlit("qwen35");
    reveal_strlit("general.architecture");
    reveal_strlit("tokenizer.ggml.tokens");
    assert(("llama"@ + "."@ + suffix)[0] == 'l');
    assert(("qwen35"@ + "."@ + suffix)[0] == 'q');
    assert("general.architecture"@[0] == 'g');
    assert("tokenizer.ggml.tokens"@[0] == 't');
}

proof fn same_quotient(n: int, a: int, b: int)
    requires
        n > 0,
        n * a == n * b,
    ensures
        a == b,
{
    assert(a == b) by (nonlinear_arith)
        requires
            n > 0,
            n * a == n * b,
    ;
}

/// The reals of a configuration are read from the header: the base of rotation and the
/// epsilon of the norms. Two headers that differ in one of them give configurations that
/// differ in that alone.
pub proof fn llama_reals_are_read(
    g: Gguf,
    h: Gguf,
    c: LlamaConfig,
    d: LlamaConfig,
    suffix: Seq<char>,
    i: int,
    ours: u32,
    theirs: u32,
)
    requires
        c.describes(g),
        d.describes(h),
        g.arch() == Some("llama"@),
        differ_at(g, h, i),
        first_at(g.entries@, "llama"@ + "."@ + suffix, i),
        g.entries@[i].value == Value::One(Scalar::Real(ours)),
        h.entries@[i].value == Value::One(Scalar::Real(theirs)),
    ensures
        suffix == "rope.freq_base"@ ==> c.rope_theta_bits == ours && d == (LlamaConfig {
            rope_theta_bits: theirs,
            ..c
        }),
        suffix == "attention.layer_norm_rms_epsilon"@ ==> c.rms_eps_bits == ours && d == (
        LlamaConfig { rms_eps_bits: theirs, ..c }),
{
    names_are_distinct();
    parameters_are_no_general_keys(suffix);
    entries_are_independent(g, h, "llama"@, suffix, i);
    lookups_find_the_first(g, "llama"@ + "."@ + suffix, i);
    assert(first_at(h.entries@, "llama"@ + "."@ + suffix, i)) by {
        assert forall|j: int| 0 <= j < i implies (#[trigger] h.entries@[j]).key@ != "llama"@ + "."@
            + suffix by {
            assert(g.entries@[j] == h.entries@[j]);
        }
    }
    lookups_find_the_first(h, "llama"@ + "."@ + suffix, i);
    assert(g.at("tokenizer.ggml.tokens"@) == h.at("tokenizer.ggml.tokens"@));
    if suffix == "rope.freq_base"@ || suffix == "attention.layer_norm_rms_epsilon"@ {
        assert(c.n_heads == d.n_heads);
        same_quotient(c.n_heads as int, c.head_dim as int, d.head_dim as int);
    }
}

/// The numbers of a configuration are read from the header, each from its own entry. Two
/// headers that differ in one of them give configurations that differ in that alone; more or
/// fewer query heads, or a wider model, change the width of a head too.
pub proof fn llama_numbers_are_read(
    g: Gguf,
    h: Gguf,
    c: LlamaConfig,
    d: LlamaConfig,
    suffix: Seq<char>,
    i: int,
    ours: u64,
    theirs: u64,
)
    requires
        c.describes(g),
        d.describes(h),
        g.arch() == Some("llama"@),
        differ_at(g, h, i),
        first_at(g.entries@, "llama"@ + "."@ + suffix, i),
        g.entries@[i].value == Value::One(Scalar::Number(ours)),
        h.entries@[i].value == Value::One(Scalar::Number(theirs)),
    ensures
        suffix == "block_count"@ ==> c.n_layers == ours as usize && d == (LlamaConfig {
            n_layers: theirs as usize,
            ..c
        }),
        suffix == "feed_forward_length"@ ==> c.d_ff == ours as usize && d == (LlamaConfig {
            d_ff: theirs as usize,
            ..c
        }),
        suffix == "context_length"@ ==> c.context == ours as usize && d == (LlamaConfig {
            context: theirs as usize,
            ..c
        }),
        suffix == "expert_count"@ ==> c.n_experts == ours as usize && d == (LlamaConfig {
            n_experts: theirs as usize,
            ..c
        }),
        suffix == "expert_used_count"@ ==> c.n_experts_used == ours as usize && d == (
        LlamaConfig { n_experts_used: theirs as usize, ..c }),
        suffix == "attention.head_count_kv"@ ==> c.n_kv_heads == ours as usize && d == (
        LlamaConfig { n_kv_heads: theirs as usize, ..c }),
        suffix == "embedding_length"@ ==> c.d_model == ours as usize && d == (LlamaConfig {
            d_model: theirs as usize,
            head_dim: d.head_dim,
            ..c
        }),
        suffix == "attention.head_count"@ && g.arch_number("attention.head_count_kv"@) is Some
            ==> c.n_heads == ours as usize && d == (LlamaConfig {
            n_heads: theirs as usize,
            head_dim: d.head_dim,
            ..c
        }),
{
    names_are_distinct();
    parameters_are_no_general_keys(suffix);
    entries_are_independent(g, h, "llama"@, suffix, i);
    lookups_find_the_first(g, "llama"@ + "."@ + suffix, i);
    assert(first_at(h.entries@, "llama"@ + "."@ + suffix, i)) by {
        assert forall|j: int| 0 <= j < i implies (#[trigger] h.entries@[j]).key@ != "llama"@ + "."@
            + suffix by {
            assert(g.entries@[j] == h.entries@[j]);
        }
    }
    lookups_find_the_first(h, "llama"@ + "."@ + suffix, i);
    assert(g.at("tokenizer.ggml.tokens"@) == h.at("tokenizer.ggml.tokens"@));
    assert(g.arch_number("attention.head_count_kv"@) == h.arch_number("attention.head_count_kv"@)
        || suffix == "attention.head_count_kv"@);
    if c.n_heads == d.n_heads && c.d_model == d.d_model {
        same_quotient(c.n_heads as int, c.head_dim as int, d.head_dim as int);
    }
}

/// What a header does not say of a model of this family is what is usual: as many key/value
/// heads as query heads, a context of 2048, an epsilon of a hundred-thousandth, a base of ten
/// thousand, and no experts.
pub proof fn llama_defaults(g: Gguf, c: LlamaConfig)
    requires
        c.describes(g),
        g.arch() == Some("llama"@),
    ensures
        g.arch_number("attention.head_count_kv"@) is None ==> c.n_kv_heads == c.n_heads,
        g.arch_number("context_length"@) is None ==> c.context == 2048,
        g.arch_real("attention.layer_norm_rms_epsilon"@) is None ==> c.rms_eps_bits == 0x3727_C5AC,
        g.arch_real("rope.freq_base"@) is None ==> c.rope_theta_bits == 0x461C_4000,
        g.arch_number("expert_count"@) is None ==> c.n_experts == 0,
        g.arch_number("expert_used_count"@) is None ==> c.n_experts_used == 0,
{
}

/// The reals of a Qwen3.5 configuration are read from the header, each from its own entry.
pub proof fn qwen35_reals_are_read(
    g: Gguf,
    h: Gguf,
    c: Qwen35Config,
    d: Qwen35Config,
    suffix: Seq<char>,
    i: int,
    ours: u32,
    theirs: u32,
)
    requires
        c.describes(g),
        d.describes(h),
        g.arch() == Some("qwen35"@),
        differ_at(g, h, i),
        first_at(g.entries@, "qwen35"@ + "."@ + suffix, i),
        g.entries@[i].value == Value::One(Scalar::Real(ours)),
        h.entries@[i].value == Value::One(Scalar::Real(theirs)),
    ensures
        suffix == "rope.freq_base"@ ==> {
            &&& c.rope_theta_bits == ours
            &&& d.rope_theta_bits == theirs
            &&& d.rms_eps_bits == c.rms_eps_bits
            &&& same_sizes(c, d)
        },
        suffix == "attention.layer_norm_rms_epsilon"@ ==> {
            &&& c.rms_eps_bits == ours
            &&& d.rms_eps_bits == theirs
            &&& d.rope_theta_bits == c.rope_theta_bits
            &&& same_sizes(c, d)
        },
{
    names_are_distinct();
    qwen35_names_are_distinct();
    parameters_are_no_general_keys(suffix);
    entries_are_independent(g, h, "qwen35"@, suffix, i);
    lookups_find_the_first(g, "qwen35"@ + "."@ + suffix, i);
    assert(first_at(h.entries@, "qwen35"@ + "."@ + suffix, i)) by {
        assert forall|j: int| 0 <= j < i implies (#[trigger] h.entries@[j]).key@ != "qwen35"@
            + "."@ + suffix by {
            assert(g.entries@[j] == h.entries@[j]);
        }
    }
    lookups_find_the_first(h, "qwen35"@ + "."@ + suffix, i);
    assert(g.at("tokenizer.ggml.tokens"@) == h.at("tokenizer.ggml.tokens"@));
}

/// Two configurations have the same sizes.
pub open spec fn same_sizes(c: Qwen35Config, d: Qwen35Config) -> bool {
    &&& c.d_model == d.d_model
    &&& c.n_layers == d.n_layers
    &&& c.d_ff == d.d_ff
    &&& c.vocab == d.vocab
    &&& c.context == d.context
    &&& c.n_rot == d.n_rot
    &&& c.n_heads == d.n_heads
    &&& c.n_kv_heads == d.n_kv_heads
    &&& c.head_dim == d.head_dim
    &&& c.conv_kernel == d.conv_kernel
    &&& c.n_k_heads == d.n_k_heads
    &&& c.n_v_heads == d.n_v_heads
    &&& c.key_head_dim == d.key_head_dim
    &&& c.value_head_dim == d.value_head_dim
    &&& c.full_attention_interval == d.full_attention_interval
    &&& c.n_nextn == d.n_nextn
}

proof fn qwen35_names_are_distinct()
    ensures
        "attention.key_length"@[10] == 'k',
        "attention.key_length"@.len() == 20,
        "nextn_predict_layers"@.len() == 20,
        "ssm.conv_kernel"@.len() == 15,
        "ssm.state_size"@.len() == 14,
        "ssm.state_size"@[0] == 's',
        "ssm.group_count"@.len() == 15,
        "ssm.time_step_rank"@.len() == 18,
        "full_attention_interval"@.len() == 23,
        "rope.dimension_count"@.len() == 20,
{
    reveal_strlit("attention.key_length");
    reveal_strlit("nextn_predict_layers");
    reveal_strlit("ssm.conv_kernel");
    reveal_strlit("ssm.state_size");
    reveal_strlit("ssm.group_count");
    reveal_strlit("ssm.time_step_rank");
    reveal_strlit("full_attention_interval");
    reveal_strlit("rope.dimension_count");
}

/// What a header does not say of a Qwen3.5 model is what is usual: a context of 4096, an
/// epsilon of a millionth, a base of ten million, heads that rotate whole, every fourth block
/// attending, and no prediction blocks.
pub proof fn qwen35_defaults(g: Gguf, c: Qwen35Config)
    requires
        c.describes(g),
        g.arch() == Some("qwen35"@),
    ensures
        g.arch_number("context_length"@) is None ==> c.context == 4096,
        g.arch_real("attention.layer_norm_rms_epsilon"@) is None ==> c.rms_eps_bits == 0x3586_37BD,
        g.arch_real("rope.freq_base"@) is None ==> c.rope_theta_bits == 0x4B18_9680,
        g.arch_number("rope.dimension_count"@) is None ==> c.n_rot == c.head_dim,
        g.arch_number("full_attention_interval"@) is None ==> c.full_attention_interval == 4,
        g.arch_number("nextn_predict_layers"@) is None ==> c.n_nextn == 0,
        g.at("qwen35.attention.recurrent_layers"@) is None ==> forall|l: int|
            0 <= l < c.n_layers ==> #[trigger] c.recurrent@[l] == ((l + 1)
                % c.full_attention_interval as int != 0),
{
}

/// The tensor at `i` is the first called `name`.
pub open spec fn first_called(tensors: Seq<TensorInfo>, name: Seq<char>, i: int) -> bool {
    &&& 0 <= i < tensors.len()
    &&& tensors[i].name@ == name
    &&& forall|j: int| 0 <= j < i ==> (#[trigger] tensors[j]).name@ != name
}

proof fn place_from(tensors: Seq<TensorInfo>, name: Seq<char>, from: int, i: int)
    requires
        0 <= from <= i,
        first_called(tensors, name, i),
    ensures
        gguf::tensor_place(tensors, name, from) == Some(i),
    decreases i - from,
{
    if from < i {
        place_from(tensors, name, from + 1, i);
    }
}

proof fn place_of_none(tensors: Seq<TensorInfo>, name: Seq<char>, from: int)
    requires
        forall|i: int| 0 <= i < tensors.len() ==> (#[trigger] tensors[i]).name@ != name,
    ensures
        gguf::tensor_place(tensors, name, from) is None,
    decreases tensors.len() - from,
{
    if 0 <= from < tensors.len() {
        place_of_none(tensors, name, from + 1);
    }
}

/// A name stands for the first tensor that has it, and for none where none has it.
pub proof fn tensors_go_by_their_names(g: Gguf, name: Seq<char>, i: int)
    ensures
        first_called(g.tensors@, name, i) ==> g.place(name) == Some(i) && g.has(name),
        (forall|j: int| 0 <= j < g.tensors@.len() ==> (#[trigger] g.tensors@[j]).name@ != name)
            ==> g.place(name) is None && !g.has(name),
{
    if first_called(g.tensors@, name, i) {
        place_from(g.tensors@, name, 0, i);
    }
    if forall|j: int| 0 <= j < g.tensors@.len() ==> (#[trigger] g.tensors@[j]).name@ != name {
        place_of_none(g.tensors@, name, 0);
    }
}

/// A tensor has as many elements as the product of its dimensions: none of them twice, none
/// left out.
pub proof fn dimensions_multiply(dims: Seq<u64>, n: u64)
    ensures
        gguf::elements(Seq::empty()) == 1,
        gguf::elements(dims.push(n)) == gguf::elements(dims) * n,
        gguf::elements(seq![n]) == n,
{
    assert(dims.push(n).drop_last() =~= dims);
    assert(seq![n].drop_last() =~= Seq::<u64>::empty());
    reveal_with_fuel(gguf::elements, 2);
    assert(1 * (n as nat) == n);
}

/// Where a header lists a flag for every block, a block recurs where its flag is up. A list
/// that is too short says nothing.
pub proof fn blocks_recur_as_listed(g: Gguf, c: Qwen35Config, i: int, l: int)
    requires
        c.describes(g),
        first_at(g.entries@, "qwen35.attention.recurrent_layers"@, i),
        0 <= l < c.n_layers,
    ensures
        g.entries@[i].value matches Value::Many(list) ==> if list@.len() >= c.n_layers {
            c.recurrent@[l] <==> list@[l] == Scalar::Flag(true)
        } else {
            c.recurrent@[l] <==> (l + 1) % (c.full_attention_interval as int) != 0
        },
        g.entries@[i].value is One ==> (c.recurrent@[l] <==> (l + 1) % (
        c.full_attention_interval as int) != 0),
{
    lookups_find_the_first(g, "qwen35.attention.recurrent_layers"@, i);
}

/// The chat template of a checkpoint is the text that its header holds under that name.
pub proof fn templates_are_read(g: Gguf, i: int)
    ensures
        first_at(g.entries@, "tokenizer.chat_template"@, i) ==> match g.entries@[i].value {
            Value::One(Scalar::Text(s)) => server::template_of(g) == Some(s@),
            _ => server::template_of(g) is None,
        },
        none_has(g.entries@, "tokenizer.chat_template"@) ==> server::template_of(g) is None,
{
    lookups_find_the_first(g, "tokenizer.chat_template"@, i);
}

proof fn recurrent_blocks_are_counted(c: Qwen35Config, n: nat)
    requires
        n <= c.recurrent@.len(),
    ensures
        c.recurrent_count(n) == c.recurrent@.take(n as int).filter(|b: bool| b).len(),
    decreases n,
{
    reveal(Seq::filter);
    if n > 0 {
        recurrent_blocks_are_counted(c, (n - 1) as nat);
        assert(c.recurrent@.take(n as int).drop_last() =~= c.recurrent@.take(n - 1));
    }
}

/// A sequence carries four bytes for every word of state that its recurrent blocks have between
/// them, and a block that attends carries none.
pub proof fn states_are_carried_by_recurrent_blocks(c: Qwen35Config)
    requires
        c.recurrent@.len() == c.n_layers,
    ensures
        c.state_bytes() == 4 * (c.recurrent@.filter(|b: bool| b).len() * (c.conv_len()
            + c.state_len())),
        c.conv_len() == (2 * (c.n_k_heads * c.key_head_dim) + c.n_v_heads * c.value_head_dim) * (
        c.conv_kernel - 1),
        c.state_len() == c.n_v_heads * c.key_head_dim * c.value_head_dim,
{
    recurrent_blocks_are_counted(c, c.n_layers as nat);
    assert(c.recurrent@.take(c.n_layers as int) =~= c.recurrent@);
}

proof fn named_tensors_are_there(tensors: Seq<TensorInfo>, name: Seq<char>, from: int, i: int)
    requires
        0 <= from <= i < tensors.len(),
        tensors[i].name@ == name,
    ensures
        gguf::tensor_place(tensors, name, from) is Some,
    decreases i - from,
{
    if tensors[from].name@ != name {
        named_tensors_are_there(tensors, name, from + 1, i);
    }
}

/// A checkpoint is refused for a tensor of a type that does not decode, or for a block without
/// experts, in a model that has some: one with neither the tensor that stacks their projections
/// nor that of the first of them.
pub proof fn checkpoints_are_refused_for_what_they_lack(g: Gguf, i: int, l: nat)
    requires
        0 <= i < g.tensors@.len(),
    ensures
        ({
            let t = g.tensors@[i].ggml_type;
            gguf::undecodable(g, i) <==> !(t <= 2 || t == 8 || 10 <= t <= 14)
        }),
        g.tensors@[i].name@ == "blk."@ + text::decimal(l) + ".ffn_gate_exps.weight"@
            ==> !gguf::lacks_experts(g, l),
        g.tensors@[i].name@ == "blk."@ + text::decimal(l) + ".ffn_gate.0.weight"@
            ==> !gguf::lacks_experts(g, l),
        (forall|j: int|
            0 <= j < g.tensors@.len() ==> (#[trigger] g.tensors@[j]).name@ != "blk."@
                + text::decimal(l) + ".ffn_gate_exps.weight"@ && g.tensors@[j].name@ != "blk."@
                + text::decimal(l) + ".ffn_gate.0.weight"@) ==> gguf::lacks_experts(g, l),
        g.arch_number("expert_count"@) is None ==> gguf::moe_blocks(g) == 0,
        g.arch_number("expert_count"@) == Some(0u64) ==> gguf::moe_blocks(g) == 0,
        g.arch_number("expert_count"@) is Some && g.arch_number("expert_count"@)->Some_0 > 0
            && g.arch_number("block_count"@) is Some ==> gguf::moe_blocks(g) == g.arch_number(
            "block_count"@,
        )->Some_0,
{
    quant_laws::these_types_decode(g.tensors@[i].ggml_type);
    reveal_strlit("blk.");
    reveal_strlit(".");
    reveal_strlit(".weight");
    reveal_strlit("ffn_gate_exps");
    reveal_strlit(".ffn_gate_exps.weight");
    reveal_strlit("ffn_gate");
    reveal_strlit(".ffn_gate.0.weight");
    let merged = "blk."@ + text::decimal(l) + ".ffn_gate_exps.weight"@;
    let split = "blk."@ + text::decimal(l) + ".ffn_gate.0.weight"@;
    assert("."@ + "ffn_gate_exps"@ + ".weight"@ =~= ".ffn_gate_exps.weight"@);
    assert(gguf::block_tensor(l, "ffn_gate_exps"@) =~= merged) by {
        let head = "blk."@ + text::decimal(l);
        assert(head + "."@ + "ffn_gate_exps"@ + ".weight"@ =~= head + ("."@ + "ffn_gate_exps"@
            + ".weight"@));
    }
    assert(text::decimal(0) =~= seq!['0']);
    assert("."@ + "ffn_gate"@ + "."@ + seq!['0'] + ".weight"@ =~= ".ffn_gate.0.weight"@);
    assert(gguf::expert_tensor(l, "ffn_gate"@, 0) =~= split) by {
        let head = "blk."@ + text::decimal(l);
        assert(head + "."@ + "ffn_gate"@ + "."@ + seq!['0'] + ".weight"@ =~= head + ("."@
            + "ffn_gate"@ + "."@ + seq!['0'] + ".weight"@));
    }
    if g.tensors@[i].name@ == merged || g.tensors@[i].name@ == split {
        named_tensors_are_there(g.tensors@, g.tensors@[i].name@, 0, i);
    }
    tensors_go_by_their_names(g, merged, 0);
    tensors_go_by_their_names(g, split, 0);
}

/// The values of a tensor are read from where its header says that it lies: behind the data's
/// own start by the tensor's own offset, as many bytes as its elements take in its own type.
/// They can be read exactly where all of that is in the file and every value is finite.
pub proof fn values_are_read_where_they_lie(
    g: Gguf,
    file: Seq<u8>,
    name: Seq<char>,
    i: int,
    k: int,
)
    requires
        first_called(g.tensors@, name, i),
        gguf::elements(g.tensors@[i].dims@) <= usize::MAX,
        quant::size_of(g.tensors@[i].ggml_type, gguf::elements(g.tensors@[i].dims@)) is Ok,
    ensures
        ({
            let t = g.tensors@[i];
            let n = gguf::elements(t.dims@);
            let start = g.data_offset + t.offset;
            let len = quant::size_of(t.ggml_type, n)->Ok_0;
            let raw = file.subrange(start, start + len);
            &&& g.values(file, name).len() == n
            &&& 0 <= k < n ==> g.values(file, name)[k] == quant::element(t.ggml_type, raw, k)
            &&& g.expanding_fault(file, name) is None <==> start + len <= file.len() && forall|j: int|
                0 <= j < n ==> (#[trigger] quant::element(t.ggml_type, raw, j)).finite()
        }),
{
    tensors_go_by_their_names(g, name, i);
    let t = g.tensors@[i];
    let n = gguf::elements(t.dims@);
    let start = g.data_offset + t.offset;
    let len = quant::size_of(t.ggml_type, n)->Ok_0;
    quant_laws::finite_values_decode(t.ggml_type, file.subrange(start, start + len), n);
}

} // verus!
