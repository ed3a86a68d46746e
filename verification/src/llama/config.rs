//! The architecture parameters, read from checkpoint metadata.

use crate::gguf::Gguf;
use crate::text;
use crate::text::{push_size, same_text};
use crate::types::{Fault, GarudaError, ModelDims};
use vstd::prelude::*;
use vstd::string::*;

verus! {

/// Prompt tokens driven through one layer before moving to the next. The value bounds
/// the activation buffer, not the benefit, which saturates long before this.
pub const DEFAULT_PREFILL_CHUNK: usize = 256;

/// The bit pattern of the `f32` one hundred-thousandth.
pub const DEFAULT_RMS_EPS_BITS: u32 = 0x3727_C5AC;

/// The bit pattern of the `f32` ten thousand.
pub const DEFAULT_ROPE_THETA_BITS: u32 = 0x461C_4000;

#[derive(Debug, Clone, Copy, PartialEq, Eq)]
pub struct LlamaConfig {
    pub d_model: usize,
    pub n_layers: usize,
    pub n_heads: usize,
    pub n_kv_heads: usize,
    pub head_dim: usize,
    pub d_ff: usize,
    pub vocab: usize,
    pub context: usize,
    pub rms_eps_bits: u32,
    pub rope_theta_bits: u32,
    /// Number of experts in a mixture-of-experts FFN. Zero means a dense FFN.
    pub n_experts: usize,
    /// Experts activated per token. Unused when `n_experts == 0`.
    pub n_experts_used: usize,
}

/// `value`, or `otherwise` where there is none.
pub open spec fn or_else(value: Option<u64>, otherwise: usize) -> usize {
    match value {
        Some(n) => n as usize,
        None => otherwise,
    }
}

pub(crate) fn number_or(value: Option<u64>, otherwise: usize) -> (n: usize)
    ensures
        n == or_else(value, otherwise),
{
    match value {
        Some(n) => n as usize,
        None => otherwise,
    }
}

pub open spec fn bits_or(value: Option<u32>, otherwise: u32) -> u32 {
    match value {
        Some(b) => b,
        None => otherwise,
    }
}

/// The architecture that a checkpoint names, for messages.
pub open spec fn shown_arch(g: Gguf) -> Seq<char> {
    match g.arch() {
        Some(a) => a,
        None => "unknown"@,
    }
}

impl LlamaConfig {
    pub open spec fn kv_heads_of(g: Gguf) -> usize {
        or_else(
            g.arch_number("attention.head_count_kv"@),
            g.arch_number("attention.head_count"@).unwrap() as usize,
        )
    }

    pub open spec fn heads_message(d_model: usize, heads: usize, kv_heads: usize) -> Seq<char> {
        "inconsistent head configuration: d_model="@ + text::decimal(d_model as nat) + ", heads="@
            + text::decimal(heads as nat) + ", kv_heads="@ + text::decimal(kv_heads as nat)
    }

    /// Why a checkpoint's metadata does not describe a model of this family, if so.
    pub open spec fn fault(g: Gguf) -> Option<Seq<char>> {
        let d_model = g.arch_number("embedding_length"@).unwrap() as usize;
        let heads = g.arch_number("attention.head_count"@).unwrap() as usize;
        let kv_heads = LlamaConfig::kv_heads_of(g);
        if g.arch() != Some("llama"@) {
            Some(
                "architecture '"@ + shown_arch(g)
                    + "' is not supported (this runtime loads llama and qwen35)"@,
            )
        } else if g.arch_number("embedding_length"@) is None {
            Some(missing_message("llama"@, "embedding_length"@))
        } else if g.arch_number("attention.head_count"@) is None {
            Some(missing_message("llama"@, "attention.head_count"@))
        } else if g.arch_number("block_count"@) is None {
            Some(missing_message("llama"@, "block_count"@))
        } else if g.arch_number("feed_forward_length"@) is None {
            Some(missing_message("llama"@, "feed_forward_length"@))
        } else if heads == 0 || kv_heads == 0 || d_model % heads != 0 {
            Some(LlamaConfig::heads_message(d_model, heads, kv_heads))
        } else if heads % kv_heads != 0 {
            Some(
                "head_count "@ + text::decimal(heads as nat)
                    + " is not a multiple of head_count_kv "@ + text::decimal(kv_heads as nat),
            )
        } else if g.vocab() is None {
            Some("gguf has no token list"@)
        } else {
            None
        }
    }

    /// This is what a checkpoint's metadata says.
    pub open spec fn describes(self, g: Gguf) -> bool {
        &&& self.d_model == g.arch_number("embedding_length"@).unwrap() as usize
        &&& self.n_layers == g.arch_number("block_count"@).unwrap() as usize
        &&& self.n_heads == g.arch_number("attention.head_count"@).unwrap() as usize
        &&& self.n_kv_heads == LlamaConfig::kv_heads_of(g)
        &&& self.n_heads > 0
        &&& self.n_kv_heads > 0
        &&& self.n_heads % self.n_kv_heads == 0
        &&& self.n_heads * self.head_dim == self.d_model
        &&& self.d_ff == g.arch_number("feed_forward_length"@).unwrap() as usize
        &&& g.vocab() == Some(self.vocab as nat)
        &&& self.context == or_else(g.arch_number("context_length"@), 2048)
        &&& self.rms_eps_bits == bits_or(
            g.arch_real("attention.layer_norm_rms_epsilon"@),
            DEFAULT_RMS_EPS_BITS,
        )
        &&& self.rope_theta_bits == bits_or(
            g.arch_real("rope.freq_base"@),
            DEFAULT_ROPE_THETA_BITS,
        )
        &&& self.n_experts == or_else(g.arch_number("expert_count"@), 0)
        &&& self.n_experts_used == or_else(g.arch_number("expert_used_count"@), 0)
    }

    /// Reads the parameters, or says what is missing or inconsistent.
    pub fn from_gguf(g: &Gguf) -> (r: Result<Self, GarudaError>)
        ensures
            match r {
                Ok(c) => LlamaConfig::fault(*g) is None && c.describes(*g),
                Err(e) => LlamaConfig::fault(*g) matches Some(m) && Fault::Model(m).is(e),
            },
            r matches Ok(c) ==> g.arch_number("embedding_length"@) is Some && c.d_model == g.arch_number(
                "embedding_length"@,
            )->Some_0 as usize,
            r matches Ok(c) ==> g.arch_number("block_count"@) is Some && c.n_layers == g.arch_number(
                "block_count"@,
            )->Some_0 as usize,
            r matches Ok(c) ==> g.arch_number("attention.head_count"@) is Some && c.n_heads == g.arch_number(
                "attention.head_count"@,
            )->Some_0 as usize,
            r matches Ok(c) ==> g.arch_number("feed_forward_length"@) is Some && c.d_ff == g.arch_number(
                "feed_forward_length"@,
            )->Some_0 as usize,
            r matches Ok(c) ==> c.n_kv_heads == match g.arch_number("attention.head_count_kv"@) {
                Some(n) => n as usize,
                None => c.n_heads,
            },
            r matches Ok(c) ==> c.context == match g.arch_number("context_length"@) {
                Some(n) => n as usize,
                None => 2048,
            },
            r matches Ok(c) ==> c.rms_eps_bits == match g.arch_real("attention.layer_norm_rms_epsilon"@) {
                Some(n) => n,
                None => 0x3727_C5AC,
            },
            r matches Ok(c) ==> c.rope_theta_bits == match g.arch_real("rope.freq_base"@) {
                Some(n) => n,
                None => 0x461C_4000,
            },
            r matches Ok(c) ==> c.n_experts == match g.arch_number("expert_count"@) {
                Some(n) => n as usize,
                None => 0,
            },
            r matches Ok(c) ==> c.n_experts_used == match g.arch_number("expert_used_count"@) {
                Some(n) => n as usize,
                None => 0,
            },
            r matches Ok(c) ==> c.n_heads * c.head_dim == c.d_model,
            r matches Ok(c) ==> g.vocab() == Some(c.vocab as nat),
            r is Ok <==> {
                let d_model = g.arch_number("embedding_length"@)->Some_0 as usize;
                let heads = g.arch_number("attention.head_count"@)->Some_0 as usize;
                let kv_heads = match g.arch_number("attention.head_count_kv"@) {
                    Some(n) => n as usize,
                    None => heads,
                };
                &&& g.arch() == Some("llama"@)
                &&& g.arch_number("embedding_length"@) is Some
                &&& g.arch_number("attention.head_count"@) is Some
                &&& g.arch_number("block_count"@) is Some
                &&& g.arch_number("feed_forward_length"@) is Some
                &&& heads > 0
                &&& kv_heads > 0
                &&& d_model % heads == 0
                &&& heads % kv_heads == 0
                &&& g.vocab() is Some
            },
    {
        let is_llama = match g.architecture() {
            Some(a) => same_text(a, "llama"),
            None => false,
        };
        if !is_llama {
            let mut m = "architecture '".to_owned();
            match g.architecture() {
                Some(a) => {
                    m.append(a);
                },
                None => {
                    m.append("unknown");
                },
            }
            m.append("' is not supported (this runtime loads llama and qwen35)");
            return Err(GarudaError::Model(m));
        }
        let d_model: usize = match need(g, "llama", "embedding_length") {
            Ok(n) => n as usize,
            Err(e) => {
                return Err(e);
            },
        };
        let n_heads: usize = match need(g, "llama", "attention.head_count") {
            Ok(n) => n as usize,
            Err(e) => {
                return Err(e);
            },
        };
        let n_kv_heads: usize = number_or(g.arch_u64("attention.head_count_kv"), n_heads);
        let n_layers: usize = match need(g, "llama", "block_count") {
            Ok(n) => n as usize,
            Err(e) => {
                return Err(e);
            },
        };
        let d_ff: usize = match need(g, "llama", "feed_forward_length") {
            Ok(n) => n as usize,
            Err(e) => {
                return Err(e);
            },
        };
        if n_heads == 0 || n_kv_heads == 0 || d_model % n_heads != 0 {
            let mut m = "inconsistent head configuration: d_model=".to_owned();
            push_size(&mut m, d_model);
            m.append(", heads=");
            push_size(&mut m, n_heads);
            m.append(", kv_heads=");
            push_size(&mut m, n_kv_heads);
            return Err(GarudaError::Model(m));
        }
        if n_heads % n_kv_heads != 0 {
            let mut m = "head_count ".to_owned();
            push_size(&mut m, n_heads);
            m.append(" is not a multiple of head_count_kv ");
            push_size(&mut m, n_kv_heads);
            return Err(GarudaError::Model(m));
        }
        let vocab: usize = match g.vocab_len() {
            Some(n) => n,
            None => {
                return Err(GarudaError::Model("gguf has no token list".to_owned()));
            },
        };
        let head_dim: usize = d_model / n_heads;
        assert(n_heads * head_dim == d_model) by {
            vstd::arithmetic::div_mod::lemma_fundamental_div_mod(d_model as int, n_heads as int);
        }
        let rms_eps_bits: u32 = match g.arch_f32("attention.layer_norm_rms_epsilon") {
            Some(b) => b,
            None => DEFAULT_RMS_EPS_BITS,
        };
        let rope_theta_bits: u32 = match g.arch_f32("rope.freq_base") {
            Some(b) => b,
            None => DEFAULT_ROPE_THETA_BITS,
        };
        Ok(
            LlamaConfig {
                d_model,
                n_layers,
                n_heads,
                n_kv_heads,
                head_dim,
                d_ff,
                vocab,
                context: number_or(g.arch_u64("context_length"), 2048),
                rms_eps_bits,
                rope_theta_bits,
                n_experts: number_or(g.arch_u64("expert_count"), 0),
                n_experts_used: number_or(g.arch_u64("expert_used_count"), 0),
            },
        )
    }

    /// What every configuration that was read satisfies.
    pub open spec fn wf(self) -> bool {
        &&& self.n_heads > 0
        &&& self.n_kv_heads > 0
        &&& self.n_heads % self.n_kv_heads == 0
        &&& self.n_heads * self.head_dim == self.d_model
    }

    pub open spec fn kv_width(self) -> int {
        self.n_kv_heads * self.head_dim
    }

    /// Width of one stored key/value vector under grouped-query attention.
    pub fn kv_dim(&self) -> (n: usize)
        requires
            self.wf(),
        ensures
            n == self.kv_width(),
            n == self.n_kv_heads * self.head_dim,
            n <= self.d_model,
    {
        proof {
            kv_narrower(*self);
        }
        self.n_kv_heads * self.head_dim
    }

    /// The runtime-facing shape. The expert counts are unused by a dense model but must
    /// be acceptable, so they are set to the trivial one of one.
    pub fn model_dims(&self) -> (d: ModelDims)
        ensures
            d.d_model == self.d_model,
            d.n_heads == self.n_heads,
            d.head_dim == self.head_dim,
            d.d_ff == self.d_ff,
            d.n_experts == 1,
            d.top_k == 1,
            d.vocab_size == self.vocab,
            d.block_size == 32,
            d.rope_theta_bits == self.rope_theta_bits,
    {
        ModelDims {
            d_model: self.d_model,
            n_heads: self.n_heads,
            head_dim: self.head_dim,
            d_ff: self.d_ff,
            n_experts: 1,
            top_k: 1,
            vocab_size: self.vocab,
            block_size: 32,
            rope_theta_bits: self.rope_theta_bits,
        }
    }
}

/// There are no more key/value heads than query heads.
pub(crate) proof fn kv_narrower(c: LlamaConfig)
    requires
        c.wf(),
    ensures
        c.kv_width() <= c.d_model,
        c.n_kv_heads <= c.n_heads,
{
    if c.n_kv_heads > c.n_heads {
        vstd::arithmetic::div_mod::lemma_small_mod(c.n_heads as nat, c.n_kv_heads as nat);
    }
    assert(c.n_kv_heads * c.head_dim <= c.n_heads * c.head_dim) by (nonlinear_arith)
        requires
            c.n_kv_heads <= c.n_heads,
            c.head_dim >= 0,
    ;
}

/// The dimensions of a loaded checkpoint are ones that the runtime accepts.
pub proof fn loaded_dims_are_valid(g: Gguf, c: LlamaConfig, d: ModelDims)
    requires
        c.describes(g),
        d.d_model == c.d_model,
        d.n_heads == c.n_heads,
        d.head_dim == c.head_dim,
        d.n_experts == 1,
        d.top_k == 1,
        d.block_size == 32,
    ensures
        d.valid(),
{
}

/// A number that the metadata must hold.
pub(crate) fn need(g: &Gguf, arch: &str, suffix: &str) -> (r: Result<u64, GarudaError>)
    ensures
        match r {
            Ok(n) => g.arch_number(suffix@) == Some(n),
            Err(e) => g.arch_number(suffix@) is None && Fault::Model(
                missing_message(arch@, suffix@),
            ).is(e),
        },
{
    match g.arch_u64(suffix) {
        Some(n) => Ok(n),
        None => {
            let mut m = "gguf is missing ".to_owned();
            m.append(arch);
            m.append(".");
            m.append(suffix);
            Err(GarudaError::Model(m))
        },
    }
}

pub open spec fn missing_message(arch: Seq<char>, suffix: Seq<char>) -> Seq<char> {
    "gguf is missing "@ + arch + "."@ + suffix
}

} // verus!
