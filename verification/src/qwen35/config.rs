//! The architecture parameters, read from checkpoint metadata.

use crate::gguf::{Gguf, Scalar};
use crate::llama::config;
use crate::llama::config::{need, number_or};
use crate::text;
use crate::text::{push_size, same_text};
use crate::types::{Fault, GarudaError, ModelDims};
use vstd::prelude::*;
use vstd::string::*;

verus! {

/// Prompt tokens driven through one layer before moving to the next.
pub const DEFAULT_PREFILL_CHUNK: usize = 256;

/// The bit pattern of the `f32` one millionth.
pub const DEFAULT_RMS_EPS_BITS: u32 = 0x3586_37BD;

/// The bit pattern of the `f32` ten million.
pub const DEFAULT_ROPE_THETA_BITS: u32 = 0x4B18_9680;

#[derive(Debug, Clone)]
pub struct Qwen35Config {
    pub d_model: usize,
    pub n_layers: usize,
    pub d_ff: usize,
    pub vocab: usize,
    pub context: usize,
    pub rms_eps_bits: u32,
    pub rope_theta_bits: u32,
    /// Dimensions of each attention head that rotate.
    pub n_rot: usize,
    pub n_heads: usize,
    pub n_kv_heads: usize,
    pub head_dim: usize,
    pub conv_kernel: usize,
    pub n_k_heads: usize,
    pub n_v_heads: usize,
    pub key_head_dim: usize,
    pub value_head_dim: usize,
    /// One in every `full_attention_interval` blocks is an attention block, the last
    /// of each group.
    pub full_attention_interval: usize,
    /// True where the block is a gated delta net, indexed by block.
    pub recurrent: Vec<bool>,
    /// Prediction blocks the file carries beyond the decoder stack.
    pub n_nextn: usize,
}

/// A number of the metadata as a size.
pub open spec fn size(g: Gguf, suffix: Seq<char>) -> usize {
    g.arch_number(suffix).unwrap() as usize
}

pub open spec fn nextn(g: Gguf) -> usize {
    config::or_else(g.arch_number("nextn_predict_layers"@), 0)
}

pub open spec fn value_length(g: Gguf) -> usize {
    config::or_else(g.arch_number("attention.value_length"@), size(g, "attention.key_length"@))
}

pub open spec fn interval(g: Gguf) -> usize {
    config::or_else(g.arch_number("full_attention_interval"@), 4)
}

/// The blocks that the metadata lists as recurrent, if it does.
pub open spec fn listed(g: Gguf) -> Option<Seq<Scalar>> {
    match g.at("qwen35.attention.recurrent_layers"@) {
        Some(v) => v.list(),
        None => None,
    }
}

/// Whether block `l` of `n` is recurrent. A checkpoint may list the blocks outright;
/// otherwise the last block of each group attends, and the rest do not.
pub open spec fn is_recurrent(g: Gguf, n: nat, l: int) -> bool {
    match listed(g) {
        Some(list) => if list.len() >= n {
            list[l].flag() == Some(true)
        } else {
            (l + 1) % (interval(g) as int) != 0
        },
        None => (l + 1) % (interval(g) as int) != 0,
    }
}

impl Qwen35Config {
    /// Why the metadata does not give the sizes, if so.
    pub open spec fn missing(g: Gguf) -> Option<Seq<char>> {
        let n = |suffix: Seq<char>| g.arch_number(suffix) is None;
        let m = |suffix: Seq<char>| Some(config::missing_message("qwen35"@, suffix));
        if n("embedding_length"@) {
            m("embedding_length"@)
        } else if n("block_count"@) {
            m("block_count"@)
        } else if nextn(g) >= size(g, "block_count"@) {
            Some(
                "qwen35.nextn_predict_layers ("@ + text::decimal(nextn(g) as nat)
                    + ") leaves no decoder blocks out of                  "@ + text::decimal(
                    size(g, "block_count"@) as nat,
                ),
            )
        } else if n("attention.head_count"@) {
            m("attention.head_count"@)
        } else if n("attention.head_count_kv"@) {
            m("attention.head_count_kv"@)
        } else if n("attention.key_length"@) {
            m("attention.key_length"@)
        } else if n("feed_forward_length"@) {
            m("feed_forward_length"@)
        } else if n("ssm.conv_kernel"@) {
            m("ssm.conv_kernel"@)
        } else if n("ssm.state_size"@) {
            m("ssm.state_size"@)
        } else if n("ssm.group_count"@) {
            m("ssm.group_count"@)
        } else if n("ssm.time_step_rank"@) {
            m("ssm.time_step_rank"@)
        } else if n("ssm.inner_size"@) {
            m("ssm.inner_size"@)
        } else {
            None
        }
    }

    /// Why the sizes do not go together, if so.
    pub open spec fn inconsistent(g: Gguf) -> Option<Seq<char>> {
        let heads = size(g, "attention.head_count"@);
        let kv_heads = size(g, "attention.head_count_kv"@);
        let head_dim = size(g, "attention.key_length"@);
        let kernel = size(g, "ssm.conv_kernel"@);
        let key_dim = size(g, "ssm.state_size"@);
        let k_heads = size(g, "ssm.group_count"@);
        let v_heads = size(g, "ssm.time_step_rank"@);
        let inner = size(g, "ssm.inner_size"@);
        if heads == 0 || kv_heads == 0 || heads % kv_heads != 0 {
            Some(
                "head_count "@ + text::decimal(heads as nat)
                    + " must be a non-zero multiple of head_count_kv "@ + text::decimal(
                    kv_heads as nat,
                ),
            )
        } else if head_dim != value_length(g) {
            Some(
                "attention key_length "@ + text::decimal(head_dim as nat) + " and value_length "@
                    + text::decimal(value_length(g) as nat)
                    + " differ, which this backend does not implement"@,
            )
        } else if k_heads == 0 || v_heads == 0 || v_heads % k_heads != 0 {
            Some(
                "ssm.time_step_rank "@ + text::decimal(v_heads as nat)
                    + " must be a non-zero multiple of ssm.group_count "@ + text::decimal(
                    k_heads as nat,
                ),
            )
        } else if kernel < 2 {
            Some(
                "ssm.conv_kernel "@ + text::decimal(kernel as nat) + " must be at least 2"@,
            )
        } else if inner % v_heads != 0 {
            Some(
                "ssm.inner_size "@ + text::decimal(inner as nat)
                    + " is not divisible by ssm.time_step_rank "@ + text::decimal(v_heads as nat),
            )
        } else if inner / v_heads != key_dim {
            Some(
                "delta net key heads are "@ + text::decimal(key_dim as nat)
                    + " wide and value heads "@ + text::decimal((inner / v_heads) as nat)
                    + "; this backend implements the square case the published checkpoints use"@,
            )
        } else if interval(g) == 0 {
            Some("qwen35.full_attention_interval must be non-zero"@)
        } else if g.vocab() is None {
            Some("gguf has no token list"@)
        } else {
            None
        }
    }

    /// Why a checkpoint's metadata does not describe a model of this family, if so.
    pub open spec fn fault(g: Gguf) -> Option<Seq<char>> {
        if g.arch() == Some("qwen35moe"@) {
            Some(
                "architecture 'qwen35moe' is not supported: this backend runs the dense Qwen3.5 series, whose blocks have a single feed-forward network"@,
            )
        } else if g.arch() != Some("qwen35"@) {
            Some("architecture '"@ + config::shown_arch(g) + "' is not Qwen3.5"@)
        } else if Qwen35Config::missing(g) is Some {
            Qwen35Config::missing(g)
        } else {
            Qwen35Config::inconsistent(g)
        }
    }

    /// This is what a checkpoint's metadata says.
    pub open spec fn describes(&self, g: Gguf) -> bool {
        &&& self.wf()
        &&& self.d_model == size(g, "embedding_length"@)
        &&& self.n_nextn == nextn(g)
        &&& self.n_layers == size(g, "block_count"@) - nextn(g)
        &&& self.n_heads == size(g, "attention.head_count"@)
        &&& self.n_kv_heads == size(g, "attention.head_count_kv"@)
        &&& self.head_dim == size(g, "attention.key_length"@)
        &&& self.d_ff == size(g, "feed_forward_length"@)
        &&& self.conv_kernel == size(g, "ssm.conv_kernel"@)
        &&& self.key_head_dim == size(g, "ssm.state_size"@)
        &&& self.n_k_heads == size(g, "ssm.group_count"@)
        &&& self.n_v_heads == size(g, "ssm.time_step_rank"@)
        &&& self.full_attention_interval == interval(g)
        &&& forall|l: int|
            0 <= l < self.n_layers ==> #[trigger] self.recurrent@[l] == is_recurrent(
                g,
                self.n_layers as nat,
                l,
            )
        &&& g.vocab() == Some(self.vocab as nat)
        &&& self.context == config::or_else(g.arch_number("context_length"@), 4096)
        &&& self.rms_eps_bits == config::bits_or(
            g.arch_real("attention.layer_norm_rms_epsilon"@),
            DEFAULT_RMS_EPS_BITS,
        )
        &&& self.rope_theta_bits == config::bits_or(
            g.arch_real("rope.freq_base"@),
            DEFAULT_ROPE_THETA_BITS,
        )
        &&& self.n_rot == config::or_else(
            g.arch_number("rope.dimension_count"@),
            size(g, "attention.key_length"@),
        )
    }

    /// What every configuration that was read satisfies.
    pub open spec fn wf(&self) -> bool {
        &&& self.n_layers >= 1
        &&& self.recurrent@.len() == self.n_layers
        &&& self.n_heads > 0
        &&& self.n_kv_heads > 0
        &&& self.n_heads % self.n_kv_heads == 0
        &&& self.n_k_heads > 0
        &&& self.n_v_heads > 0
        &&& self.n_v_heads % self.n_k_heads == 0
        &&& self.key_head_dim == self.value_head_dim
        &&& self.conv_kernel >= 2
        &&& self.full_attention_interval >= 1
    }
}

/// The sizes that the metadata must hold, in the order they are asked for.
struct Sizes {
    d_model: usize,
    n_blocks: usize,
    n_nextn: usize,
    n_heads: usize,
    n_kv_heads: usize,
    head_dim: usize,
    d_ff: usize,
    conv_kernel: usize,
    key_head_dim: usize,
    n_k_heads: usize,
    n_v_heads: usize,
    inner: usize,
}

impl Sizes {
    spec fn read_from(&self, g: Gguf) -> bool {
        &&& self.d_model == size(g, "embedding_length"@)
        &&& self.n_blocks == size(g, "block_count"@)
        &&& self.n_nextn == nextn(g)
        &&& self.n_nextn < self.n_blocks
        &&& self.n_heads == size(g, "attention.head_count"@)
        &&& self.n_kv_heads == size(g, "attention.head_count_kv"@)
        &&& self.head_dim == size(g, "attention.key_length"@)
        &&& self.d_ff == size(g, "feed_forward_length"@)
        &&& self.conv_kernel == size(g, "ssm.conv_kernel"@)
        &&& self.key_head_dim == size(g, "ssm.state_size"@)
        &&& self.n_k_heads == size(g, "ssm.group_count"@)
        &&& self.n_v_heads == size(g, "ssm.time_step_rank"@)
        &&& self.inner == size(g, "ssm.inner_size"@)
    }
}

fn need_size(g: &Gguf, suffix: &str) -> (r: Result<usize, GarudaError>)
    ensures
        match r {
            Ok(n) => g.arch_number(suffix@) is Some && n == size(*g, suffix@),
            Err(e) => g.arch_number(suffix@) is None && Fault::Model(
                config::missing_message("qwen35"@, suffix@),
            ).is(e),
        },
{
    match need(g, "qwen35", suffix) {
        Ok(n) => Ok(n as usize),
        Err(e) => Err(e),
    }
}

fn read_sizes(g: &Gguf) -> (r: Result<Sizes, GarudaError>)
    ensures
        match r {
            Ok(s) => Qwen35Config::missing(*g) is None && s.read_from(*g),
            Err(e) => Qwen35Config::missing(*g) matches Some(m) && Fault::Model(m).is(e),
        },
{
    let d_model: usize = match need_size(g, "embedding_length") {
        Ok(n) => n,
        Err(e) => {
            return Err(e);
        },
    };
    let n_blocks: usize = match need_size(g, "block_count") {
        Ok(n) => n,
        Err(e) => {
            return Err(e);
        },
    };
    let n_nextn: usize = number_or(g.arch_u64("nextn_predict_layers"), 0);
    if n_nextn >= n_blocks {
        let mut m = "qwen35.nextn_predict_layers (".to_owned();
        push_size(&mut m, n_nextn);
        m.append(") leaves no decoder blocks out of                  ");
        push_size(&mut m, n_blocks);
        return Err(GarudaError::Model(m));
    }
    let n_heads: usize = match need_size(g, "attention.head_count") {
        Ok(n) => n,
        Err(e) => {
            return Err(e);
        },
    };
    let n_kv_heads: usize = match need_size(g, "attention.head_count_kv") {
        Ok(n) => n,
        Err(e) => {
            return Err(e);
        },
    };
    let head_dim: usize = match need_size(g, "attention.key_length") {
        Ok(n) => n,
        Err(e) => {
            return Err(e);
        },
    };
    let d_ff: usize = match need_size(g, "feed_forward_length") {
        Ok(n) => n,
        Err(e) => {
            return Err(e);
        },
    };
    let conv_kernel: usize = match need_size(g, "ssm.conv_kernel") {
        Ok(n) => n,
        Err(e) => {
            return Err(e);
        },
    };
    let key_head_dim: usize = match need_size(g, "ssm.state_size") {
        Ok(n) => n,
        Err(e) => {
            return Err(e);
        },
    };
    let n_k_heads: usize = match need_size(g, "ssm.group_count") {
        Ok(n) => n,
        Err(e) => {
            return Err(e);
        },
    };
    let n_v_heads: usize = match need_size(g, "ssm.time_step_rank") {
        Ok(n) => n,
        Err(e) => {
            return Err(e);
        },
    };
    let inner: usize = match need_size(g, "ssm.inner_size") {
        Ok(n) => n,
        Err(e) => {
            return Err(e);
        },
    };
    Ok(
        Sizes {
            d_model,
            n_blocks,
            n_nextn,
            n_heads,
            n_kv_heads,
            head_dim,
            d_ff,
            conv_kernel,
            key_head_dim,
            n_k_heads,
            n_v_heads,
            inner,
        },
    )
}

/// A message about two sizes.
fn about_two(head: &str, a: usize, middle: &str, b: usize, tail: &str) -> (e: GarudaError)
    ensures
        Fault::Model(
            head@ + text::decimal(a as nat) + middle@ + text::decimal(b as nat) + tail@,
        ).is(e),
{
    let mut m = head.to_owned();
    push_size(&mut m, a);
    m.append(middle);
    push_size(&mut m, b);
    m.append(tail);
    GarudaError::Model(m)
}

/// Checks that the sizes go together.
fn check_sizes(g: &Gguf, s: &Sizes) -> (r: Result<usize, GarudaError>)
    requires
        s.read_from(*g),
    ensures
        match r {
            Ok(vocab) => Qwen35Config::inconsistent(*g) is None && g.vocab() == Some(vocab as nat),
            Err(e) => Qwen35Config::inconsistent(*g) matches Some(m) && Fault::Model(m).is(e),
        },
{
    proof {
        reveal_strlit("");
    }
    if s.n_heads == 0 || s.n_kv_heads == 0 || s.n_heads % s.n_kv_heads != 0 {
        let mut m = "head_count ".to_owned();
        push_size(&mut m, s.n_heads);
        m.append(" must be a non-zero multiple of head_count_kv ");
        push_size(&mut m, s.n_kv_heads);
        return Err(GarudaError::Model(m));
    }
    let value_length: usize = number_or(g.arch_u64("attention.value_length"), s.head_dim);
    if s.head_dim != value_length {
        return Err(
            about_two(
                "attention key_length ",
                s.head_dim,
                " and value_length ",
                value_length,
                " differ, which this backend does not implement",
            ),
        );
    }
    if s.n_k_heads == 0 || s.n_v_heads == 0 || s.n_v_heads % s.n_k_heads != 0 {
        let mut m = "ssm.time_step_rank ".to_owned();
        push_size(&mut m, s.n_v_heads);
        m.append(" must be a non-zero multiple of ssm.group_count ");
        push_size(&mut m, s.n_k_heads);
        return Err(GarudaError::Model(m));
    }
    if s.conv_kernel < 2 {
        let mut m = "ssm.conv_kernel ".to_owned();
        push_size(&mut m, s.conv_kernel);
        m.append(" must be at least 2");
        return Err(GarudaError::Model(m));
    }
    if s.inner % s.n_v_heads != 0 {
        let mut m = "ssm.inner_size ".to_owned();
        push_size(&mut m, s.inner);
        m.append(" is not divisible by ssm.time_step_rank ");
        push_size(&mut m, s.n_v_heads);
        return Err(GarudaError::Model(m));
    }
    if s.inner / s.n_v_heads != s.key_head_dim {
        return Err(
            about_two(
                "delta net key heads are ",
                s.key_head_dim,
                " wide and value heads ",
                s.inner / s.n_v_heads,
                "; this backend implements the square case the published checkpoints use",
            ),
        );
    }
    if number_or(g.arch_u64("full_attention_interval"), 4) == 0 {
        return Err(
            GarudaError::Model("qwen35.full_attention_interval must be non-zero".to_owned()),
        );
    }
    match g.vocab_len() {
        Some(n) => Ok(n),
        None => Err(GarudaError::Model("gguf has no token list".to_owned())),
    }
}

/// Which of `n` blocks are recurrent.
fn recurrent_blocks(g: &Gguf, n: usize) -> (out: Vec<bool>)
    requires
        interval(*g) > 0,
    ensures
        out@.len() == n,
        forall|l: int| 0 <= l < n ==> #[trigger] out@[l] == is_recurrent(*g, n as nat, l),
{
    let every: usize = number_or(g.arch_u64("full_attention_interval"), 4);
    let list = match g.get("qwen35.attention.recurrent_layers") {
        Some(v) => v.as_array(),
        None => None,
    };
    let mut out: Vec<bool> = Vec::new();
    while out.len() < n
        invariant
            every == interval(*g),
            every > 0,
            match list {
                Some(l) => listed(*g) == Some(l@),
                None => listed(*g) is None,
            },
            out@.len() <= n,
            forall|l: int|
                0 <= l < out@.len() ==> #[trigger] out@[l] == is_recurrent(*g, n as nat, l),
        decreases n - out@.len(),
    {
        let l: usize = out.len();
        let by_interval = l % every != every - 1;
        assert(by_interval == ((l + 1) % (every as int) != 0)) by {
            next_multiple(l as int, every as int);
        }
        let r = match list {
            Some(entries) => if entries.len() >= n {
                match entries[l].as_bool() {
                    Some(b) => b,
                    None => false,
                }
            } else {
                by_interval
            },
            None => by_interval,
        };
        out.push(r);
    }
    out
}

/// The number after `a` is a multiple of `m` where `a` is the last before one.
proof fn next_multiple(a: int, m: int)
    requires
        a >= 0,
        m > 0,
    ensures
        (a % m == m - 1) == ((a + 1) % m == 0),
{
    let (q, r) = (a / m, a % m);
    vstd::arithmetic::div_mod::lemma_fundamental_div_mod(a, m);
    if r == m - 1 {
        assert(a + 1 == (q + 1) * m) by (nonlinear_arith)
            requires
                a == m * q + r,
                r == m - 1,
        ;
        vstd::arithmetic::div_mod::lemma_fundamental_div_mod_converse(a + 1, m, q + 1, 0);
    } else {
        assert(a + 1 == q * m + (r + 1)) by (nonlinear_arith)
            requires
                a == m * q + r,
        ;
        vstd::arithmetic::div_mod::lemma_fundamental_div_mod_converse(a + 1, m, q, r + 1);
    }
}

impl Qwen35Config {
    /// Reads the parameters, or says what is missing or inconsistent.
    pub fn from_gguf(g: &Gguf) -> (r: Result<Self, GarudaError>)
        ensures
            match r {
                Ok(c) => Qwen35Config::fault(*g) is None && c.describes(*g),
                Err(e) => Qwen35Config::fault(*g) matches Some(m) && Fault::Model(m).is(e),
            },
            r matches Ok(c) ==> g.arch_number("embedding_length"@) is Some && c.d_model == g.arch_number(
                "embedding_length"@,
            )->Some_0 as usize,
            r matches Ok(c) ==> g.arch_number("attention.head_count"@) is Some && c.n_heads == g.arch_number(
                "attention.head_count"@,
            )->Some_0 as usize,
            r matches Ok(c) ==> g.arch_number("attention.head_count_kv"@) is Some && c.n_kv_heads == g.arch_number(
                "attention.head_count_kv"@,
            )->Some_0 as usize,
            r matches Ok(c) ==> g.arch_number("attention.key_length"@) is Some && c.head_dim == g.arch_number(
                "attention.key_length"@,
            )->Some_0 as usize,
            r matches Ok(c) ==> g.arch_number("feed_forward_length"@) is Some && c.d_ff == g.arch_number(
                "feed_forward_length"@,
            )->Some_0 as usize,
            r matches Ok(c) ==> g.arch_number("ssm.conv_kernel"@) is Some && c.conv_kernel == g.arch_number(
                "ssm.conv_kernel"@,
            )->Some_0 as usize,
            r matches Ok(c) ==> g.arch_number("ssm.state_size"@) is Some && c.key_head_dim == g.arch_number(
                "ssm.state_size"@,
            )->Some_0 as usize,
            r matches Ok(c) ==> g.arch_number("ssm.group_count"@) is Some && c.n_k_heads == g.arch_number(
                "ssm.group_count"@,
            )->Some_0 as usize,
            r matches Ok(c) ==> g.arch_number("ssm.time_step_rank"@) is Some && c.n_v_heads == g.arch_number(
                "ssm.time_step_rank"@,
            )->Some_0 as usize,
            r matches Ok(c) ==> c.n_nextn == match g.arch_number("nextn_predict_layers"@) {
                Some(n) => n as usize,
                None => 0,
            },
            r matches Ok(c) ==> g.arch_number("block_count"@) is Some && c.n_layers + c.n_nextn
                == g.arch_number("block_count"@)->Some_0 as usize,
            r matches Ok(c) ==> g.arch_number("ssm.inner_size"@) is Some && c.n_v_heads
                * c.value_head_dim == g.arch_number("ssm.inner_size"@)->Some_0 as usize,
            r matches Ok(c) ==> c.value_head_dim == c.key_head_dim,
            r matches Ok(c) ==> c.full_attention_interval == match g.arch_number("full_attention_interval"@) {
                Some(n) => n as usize,
                None => 4,
            },
            r matches Ok(c) ==> c.context == match g.arch_number("context_length"@) {
                Some(n) => n as usize,
                None => 4096,
            },
            r matches Ok(c) ==> c.rms_eps_bits == match g.arch_real("attention.layer_norm_rms_epsilon"@) {
                Some(n) => n,
                None => 0x3586_37BD,
            },
            r matches Ok(c) ==> c.rope_theta_bits == match g.arch_real("rope.freq_base"@) {
                Some(n) => n,
                None => 0x4B18_9680,
            },
            r matches Ok(c) ==> c.n_rot == match g.arch_number("rope.dimension_count"@) {
                Some(n) => n as usize,
                None => c.head_dim,
            },
            r matches Ok(c) ==> g.vocab() == Some(c.vocab as nat),
            r matches Ok(c) ==> c.recurrent@.len() == c.n_layers && forall|l: int|
                0 <= l < c.n_layers ==> #[trigger] c.recurrent@[l] == (if listed(*g) is Some
                    && listed(*g)->Some_0.len() >= c.n_layers {
                    listed(*g)->Some_0[l] matches Scalar::Flag(b) && b
                } else {
                    (l + 1) % (c.full_attention_interval as int) != 0
                }),
            r is Ok ==> g.arch() == Some("qwen35"@),
    {
        match g.architecture() {
            Some(a) => {
                if same_text(a, "qwen35moe") {
                    return Err(
                        GarudaError::Model(
                            "architecture 'qwen35moe' is not supported: this backend runs the dense Qwen3.5 series, whose blocks have a single feed-forward network".to_owned(),
                        ),
                    );
                }
                if !same_text(a, "qwen35") {
                    let mut m = "architecture '".to_owned();
                    m.append(a);
                    m.append("' is not Qwen3.5");
                    return Err(GarudaError::Model(m));
                }
            },
            None => {
                let mut m = "architecture '".to_owned();
                m.append("unknown");
                m.append("' is not Qwen3.5");
                return Err(GarudaError::Model(m));
            },
        }
        proof {
            names_differ();
        }
        let s = match read_sizes(g) {
            Ok(s) => s,
            Err(e) => {
                return Err(e);
            },
        };
        let vocab: usize = match check_sizes(g, &s) {
            Ok(n) => n,
            Err(e) => {
                return Err(e);
            },
        };
        assert(s.n_v_heads * (s.inner / s.n_v_heads) == s.inner) by {
            vstd::arithmetic::div_mod::lemma_fundamental_div_mod(
                s.inner as int,
                s.n_v_heads as int,
            );
        }
        // The prediction blocks sit after the stack and are not part of it.
        let n_layers: usize = s.n_blocks - s.n_nextn;
        let recurrent = recurrent_blocks(g, n_layers);
        let rms_eps_bits: u32 = match g.arch_f32("attention.layer_norm_rms_epsilon") {
            Some(b) => b,
            None => DEFAULT_RMS_EPS_BITS,
        };
        let rope_theta_bits: u32 = match g.arch_f32("rope.freq_base") {
            Some(b) => b,
            None => DEFAULT_ROPE_THETA_BITS,
        };
        Ok(
            Qwen35Config {
                d_model: s.d_model,
                n_layers,
                d_ff: s.d_ff,
                vocab,
                context: number_or(g.arch_u64("context_length"), 4096),
                rms_eps_bits,
                rope_theta_bits,
                n_rot: number_or(g.arch_u64("rope.dimension_count"), s.head_dim),
                n_heads: s.n_heads,
                n_kv_heads: s.n_kv_heads,
                head_dim: s.head_dim,
                conv_kernel: s.conv_kernel,
                n_k_heads: s.n_k_heads,
                n_v_heads: s.n_v_heads,
                key_head_dim: s.key_head_dim,
                value_head_dim: s.inner / s.n_v_heads,
                full_attention_interval: number_or(g.arch_u64("full_attention_interval"), 4),
                recurrent,
                n_nextn: s.n_nextn,
            },
        )
    }
}

proof fn names_differ()
    ensures
        "qwen35moe"@ != "qwen35"@,
{
    reveal_strlit("qwen35moe");
    reveal_strlit("qwen35");
    assert("qwen35moe"@.len() == 9 && "qwen35"@.len() == 6);
}

impl Qwen35Config {
    pub open spec fn kv_width(&self) -> int {
        self.n_kv_heads * self.head_dim
    }

    pub open spec fn attn_width(&self) -> int {
        self.n_heads * self.head_dim
    }

    pub open spec fn key_width(&self) -> int {
        self.n_k_heads * self.key_head_dim
    }

    pub open spec fn value_width(&self) -> int {
        self.n_v_heads * self.value_head_dim
    }

    pub open spec fn conv_width(&self) -> int {
        2 * self.key_width() + self.value_width()
    }

    /// Words of one recurrent block's state: the convolution history, and the matrices.
    pub open spec fn conv_len(&self) -> int {
        self.conv_width() * (self.conv_kernel - 1)
    }

    pub open spec fn state_len(&self) -> int {
        self.n_v_heads * self.key_head_dim * self.value_head_dim
    }

    /// How many of the first `n` blocks are recurrent.
    pub open spec fn recurrent_count(&self, n: nat) -> nat
        decreases n,
    {
        if n == 0 {
            0
        } else {
            self.recurrent_count((n - 1) as nat) + if self.recurrent@[n - 1] {
                1nat
            } else {
                0
            }
        }
    }

    pub open spec fn state_bytes(&self) -> int {
        self.recurrent_count(self.n_layers as nat) * (self.conv_len() + self.state_len()) * 4
    }

    /// The sizes of the matrices and of the state can be computed.
    pub open spec fn fits(&self) -> bool {
        &&& self.vocab * self.d_model <= usize::MAX
        &&& self.d_ff * self.d_model <= usize::MAX
        &&& 2 * self.attn_width() * self.d_model <= usize::MAX
        &&& self.conv_width() * self.d_model <= usize::MAX
        &&& self.conv_width() * self.conv_kernel <= usize::MAX
        &&& self.n_v_heads * self.d_model <= usize::MAX
        &&& 2 * self.attn_width() <= usize::MAX
        &&& self.conv_width() <= usize::MAX
        &&& self.state_len() <= usize::MAX
        &&& self.n_layers * (self.conv_len() + self.state_len()) * 4 <= usize::MAX
    }

    /// Whether the sizes of the matrices and of the state can be computed.
    pub fn sizes_fit(&self) -> (r: bool)
        requires
            self.wf(),
        ensures
            r == self.fits(),
    {
        proof {
            widths_are_natural(*self);
        }
        let Some(attn) = self.n_heads.checked_mul(self.head_dim) else {
            return false;
        };
        let Some(key) = self.n_k_heads.checked_mul(self.key_head_dim) else {
            return false;
        };
        let Some(value) = self.n_v_heads.checked_mul(self.value_head_dim) else {
            return false;
        };
        if attn > usize::MAX / 2 || key > usize::MAX / 2 || value > usize::MAX - 2 * key {
            return false;
        }
        let conv: usize = 2 * key + value;
        let twice: usize = 2 * attn;
        assert(twice * self.d_model == 2 * self.attn_width() * self.d_model);
        let Some(state) = value.checked_mul(self.key_head_dim) else {
            assert(self.state_len() == value * self.key_head_dim) by (nonlinear_arith)
                requires
                    value == self.n_v_heads * self.value_head_dim,
                    self.state_len() == self.n_v_heads * self.key_head_dim * self.value_head_dim,
            ;
            return false;
        };
        assert(self.state_len() == state) by (nonlinear_arith)
            requires
                state == value * self.key_head_dim,
                value == self.n_v_heads * self.value_head_dim,
                self.state_len() == self.n_v_heads * self.key_head_dim * self.value_head_dim,
        ;
        if self.vocab.checked_mul(self.d_model).is_none() || self.d_ff.checked_mul(
            self.d_model,
        ).is_none() || twice.checked_mul(self.d_model).is_none() || conv.checked_mul(
            self.d_model,
        ).is_none() || conv.checked_mul(self.conv_kernel).is_none() || self.n_v_heads.checked_mul(
            self.d_model,
        ).is_none() {
            return false;
        }
        assert(conv * (self.conv_kernel - 1) <= conv * self.conv_kernel) by (nonlinear_arith)
            requires
                conv >= 0,
                self.conv_kernel >= 1,
        ;
        let history: usize = conv * (self.conv_kernel - 1);
        let ghost words = history + state;
        let ghost n = self.n_layers as int;
        assert(words <= n * words) by (nonlinear_arith)
            requires
                n >= 1,
                words >= 0,
        ;
        if state > usize::MAX - history {
            return false;
        }
        match self.n_layers.checked_mul(history + state) {
            Some(all) => all <= usize::MAX / 4,
            None => false,
        }
    }

    /// Width of one stored key/value vector, in the blocks that store any.
    pub fn kv_dim(&self) -> (n: usize)
        requires
            self.wf(),
            self.fits(),
        ensures
            n == self.kv_width(),
            n == self.n_kv_heads * self.head_dim,
    {
        proof {
            kv_within_attn(*self);
        }
        self.n_kv_heads * self.head_dim
    }

    /// Concatenated width of all attention heads, which may be wider than the model.
    pub fn attn_dim(&self) -> (n: usize)
        requires
            self.fits(),
        ensures
            n == self.attn_width(),
            n == self.n_heads * self.head_dim,
    {
        assert(self.attn_width() >= 0) by (nonlinear_arith)
            requires
                self.attn_width() == self.n_heads * self.head_dim,
        ;
        self.n_heads * self.head_dim
    }

    /// Query, key and value width of a delta net block's joint projection.
    pub fn conv_dim(&self) -> (n: usize)
        requires
            self.fits(),
        ensures
            n == self.conv_width(),
            n == 2 * (self.n_k_heads * self.key_head_dim) + self.n_v_heads * self.value_head_dim,
    {
        proof {
            widths_are_natural(*self);
        }
        2 * (self.n_k_heads * self.key_head_dim) + self.n_v_heads * self.value_head_dim
    }

    pub fn key_dim(&self) -> (n: usize)
        requires
            self.fits(),
        ensures
            n == self.key_width(),
            n == self.n_k_heads * self.key_head_dim,
    {
        proof {
            widths_are_natural(*self);
        }
        self.n_k_heads * self.key_head_dim
    }

    pub fn value_dim(&self) -> (n: usize)
        requires
            self.fits(),
        ensures
            n == self.value_width(),
            n == self.n_v_heads * self.value_head_dim,
    {
        proof {
            widths_are_natural(*self);
        }
        self.n_v_heads * self.value_head_dim
    }

    /// Per-layer key/value width: the real one for an attention block, zero for a
    /// recurrent block, which stores no keys or values at all.
    pub fn kv_dims(&self) -> (out: Vec<usize>)
        requires
            self.wf(),
            self.fits(),
        ensures
            out@.len() == self.n_layers,
            forall|l: int|
                0 <= l < self.n_layers ==> #[trigger] out@[l] == if self.recurrent@[l] {
                    0
                } else {
                    self.kv_width()
                },
    {
        let width: usize = self.kv_dim();
        let mut out: Vec<usize> = Vec::new();
        while out.len() < self.recurrent.len()
            invariant
                self.wf(),
                width == self.kv_width(),
                out@.len() <= self.n_layers,
                forall|l: int|
                    0 <= l < out@.len() ==> #[trigger] out@[l] == if self.recurrent@[l] {
                        0
                    } else {
                        self.kv_width()
                    },
            decreases self.n_layers - out@.len(),
        {
            let n: usize = if self.recurrent[out.len()] {
                0
            } else {
                width
            };
            out.push(n);
        }
        out
    }

    /// Sizes of one recurrent block's state: the convolution history, and the matrix
    /// state.
    pub fn linear_state_shape(&self) -> (r: (usize, usize))
        requires
            self.wf(),
            self.fits(),
        ensures
            r.0 == self.conv_len(),
            r.1 == self.state_len(),
            r.0 == (2 * (self.n_k_heads * self.key_head_dim) + self.n_v_heads
                * self.value_head_dim) * (self.conv_kernel - 1),
            r.1 == self.n_v_heads * self.key_head_dim * self.value_head_dim,
    {
        proof {
            widths_are_natural(*self);
            state_within(*self);
        }
        (
            self.conv_dim() * (self.conv_kernel - 1),
            self.n_v_heads * self.key_head_dim * self.value_head_dim,
        )
    }

    /// How many blocks are recurrent.
    pub fn recurrent_blocks(&self) -> (n: usize)
        requires
            self.wf(),
        ensures
            n == self.recurrent_count(self.n_layers as nat),
            n <= self.n_layers,
    {
        let mut n: usize = 0;
        let mut l: usize = 0;
        while l < self.recurrent.len()
            invariant
                self.wf(),
                n <= l <= self.n_layers,
                n == self.recurrent_count(l as nat),
            decreases self.n_layers - l,
        {
            if self.recurrent[l] {
                n += 1;
            }
            l += 1;
        }
        n
    }

    /// Bytes of recurrent state one sequence carries, across every block. It does not
    /// depend on the length of the sequence.
    pub fn linear_state_bytes(&self) -> (n: usize)
        requires
            self.wf(),
            self.fits(),
        ensures
            n == self.state_bytes(),
    {
        let (conv, state) = self.linear_state_shape();
        let blocks: usize = self.recurrent_blocks();
        proof {
            let words = conv + state;
            state_within(*self);
            assert(blocks * words <= self.n_layers * words && blocks * words >= 0)
                by (nonlinear_arith)
                requires
                    blocks <= self.n_layers,
                    words >= 0,
            ;
        }
        blocks * (conv + state) * 4
    }

    /// The runtime-facing shape. The expert counts are unused by a dense model and set
    /// to the trivial one of one.
    pub fn model_dims(&self) -> (d: ModelDims)
        ensures
            d.d_model == self.d_model,
            d.n_heads == self.n_heads,
            d.head_dim == self.head_dim,
            d.d_ff == self.d_ff,
            d.n_experts == 1,
            d.top_k == 1,
            d.vocab_size == self.vocab,
            d.block_size == 32,
            d.rope_theta_bits == self.rope_theta_bits,
    {
        ModelDims {
            d_model: self.d_model,
            n_heads: self.n_heads,
            head_dim: self.head_dim,
            d_ff: self.d_ff,
            n_experts: 1,
            top_k: 1,
            vocab_size: self.vocab,
            block_size: 32,
            rope_theta_bits: self.rope_theta_bits,
        }
    }
}

/// Widths are products of sizes.
pub(crate) proof fn widths_are_natural(c: Qwen35Config)
    ensures
        c.attn_width() >= 0,
        c.kv_width() >= 0,
        c.key_width() >= 0,
        c.value_width() >= 0,
        c.state_len() >= 0,
        c.conv_width() >= 0,
        c.conv_kernel >= 1 ==> c.conv_len() >= 0,
        c.n_v_heads * c.key_head_dim >= 0,
{
    assert(c.n_heads * c.head_dim >= 0 && c.n_kv_heads * c.head_dim >= 0 && c.n_k_heads
        * c.key_head_dim >= 0 && c.n_v_heads * c.value_head_dim >= 0 && c.n_v_heads
        * c.key_head_dim >= 0) by (nonlinear_arith);
    let (a, b) = (c.n_v_heads * c.key_head_dim, c.value_head_dim as int);
    assert(a * b >= 0) by (nonlinear_arith)
        requires
            a >= 0,
            b >= 0,
    ;
    if c.conv_kernel >= 1 {
        let (w, k) = (c.conv_width(), c.conv_kernel - 1);
        assert(w * k >= 0) by (nonlinear_arith)
            requires
                w >= 0,
                k >= 0,
        ;
    }
}

pub(crate) proof fn kv_within_attn(c: Qwen35Config)
    requires
        c.wf(),
    ensures
        0 <= c.kv_width() <= c.attn_width(),
{
    if c.n_kv_heads > c.n_heads {
        vstd::arithmetic::div_mod::lemma_small_mod(c.n_heads as nat, c.n_kv_heads as nat);
    }
    assert(0 <= c.n_kv_heads * c.head_dim <= c.n_heads * c.head_dim) by (nonlinear_arith)
        requires
            c.n_kv_heads <= c.n_heads,
            c.head_dim >= 0,
    ;
}

/// The state of one block is within that of all.
proof fn state_within(c: Qwen35Config)
    requires
        c.wf(),
        c.fits(),
    ensures
        c.conv_len() <= usize::MAX,
        c.state_len() <= usize::MAX,
        c.conv_len() + c.state_len() <= usize::MAX,
        c.n_v_heads * c.key_head_dim <= usize::MAX,
{
    widths_are_natural(c);
    let w = c.conv_len() + c.state_len();
    let n = c.n_layers as int;
    assert(w <= n * w) by (nonlinear_arith)
        requires
            n >= 1,
            w >= 0,
    ;
    assert(c.n_v_heads * c.key_head_dim == c.value_width());
}

} // verus!
