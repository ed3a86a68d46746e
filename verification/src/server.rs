//! Assembling the engine from configuration.
//!
//! Two kinds can be built, the synthetic model and a checkpoint, and every front end and
//! the benchmark go through here, so that they cannot drift apart. What is decided here is
//! everything but the reading of files.

use crate::cache::kv::KvConfig;
use crate::chat::ChatFormat;
use crate::config;
use crate::config::AppConfig;
use crate::gguf::Gguf;
use crate::llama::config::{LlamaConfig, DEFAULT_PREFILL_CHUNK};
use crate::llama::loader;
use crate::llama::loader::{LlamaBackend, LoadError};
use crate::llama::weight::Source;
use crate::qwen35::config::Qwen35Config;
use crate::qwen35::loader::Qwen35Backend;
use crate::router::RouterType;
use crate::storage;
use crate::storage::LocalStorageBackend;
use crate::text;
use crate::text::{push_size, same_text};
use crate::types::{Fault, GarudaError, ModelDims, StorageBackend};
use std::sync::Arc;
use vstd::prelude::*;
use vstd::string::*;

verus! {

/// Which backend the engine is running.
#[derive(Debug, Clone)]
pub enum Backend {
    /// The synthetic model with pseudo-random weights.
    SyntheticMoe,
    /// A checkpoint.
    Gguf { path: String, layers: usize },
}

/// How a sequence's KV state is sized, before it is known where it may spill.
#[derive(Debug)]
pub struct KvPlan {
    pub dims: ModelDims,
    pub kv_dim: usize,
    pub n_layers: usize,
    pub kv_dims: Option<Vec<usize>>,
    pub max_positions: usize,
    pub max_resident_blocks: usize,
    pub sliding_window: Option<usize>,
    /// Blocks beyond `max_resident_blocks` go to disk.
    pub spills: bool,
}

impl KvPlan {
    /// Blocks that a full context takes.
    pub open spec fn blocks(self) -> int {
        let b = if self.dims.block_size == 0 {
            1int
        } else {
            self.dims.block_size as int
        };
        (self.max_positions + b - 1) / b
    }

    /// Attention over the whole context reads every earlier position, so that a block
    /// which was spilled is reloaded at every step.
    pub open spec fn thrashes(self) -> bool {
        self.spills && self.sliding_window is None && self.max_resident_blocks < self.blocks()
    }

    /// The blocks that would have to be resident, where the cache would otherwise spill
    /// and reload at every token.
    pub fn thrash(&self) -> (r: Option<usize>)
        ensures
            match r {
                Some(n) => self.thrashes() && n == self.blocks(),
                None => !self.thrashes(),
            },
    {
        let b: usize = if self.dims.block_size == 0 {
            1
        } else {
            self.dims.block_size
        };
        let whole: usize = self.max_positions / b;
        let rest: usize = self.max_positions % b;
        proof {
            vstd::arithmetic::div_mod::lemma_fundamental_div_mod(
                self.max_positions as int,
                b as int,
            );
            let extra = rest + b - 1;
            assert(self.max_positions + b - 1 == b * whole + extra);
            vstd::arithmetic::div_mod::lemma_hoist_over_denominator(
                extra,
                whole as int,
                b as nat,
            );
            assert(b * whole == whole * b) by (nonlinear_arith);
            if rest == 0 {
                vstd::arithmetic::div_mod::lemma_basic_div(extra, b as int);
            } else {
                vstd::arithmetic::div_mod::lemma_basic_div(extra - b, b as int);
                vstd::arithmetic::div_mod::lemma_hoist_over_denominator(extra - b, 1, b as nat);
            }
            assert(whole + (if rest == 0 {
                0int
            } else {
                1int
            }) <= self.max_positions) by (nonlinear_arith)
                requires
                    self.max_positions == b * whole + rest,
                    b >= 1,
                    rest >= 0,
                    whole >= 0,
            ;
        }
        let blocks: usize = if rest == 0 {
            whole
        } else {
            whole + 1
        };
        if self.spills && self.sliding_window.is_none() && self.max_resident_blocks < blocks {
            Some(blocks)
        } else {
            None
        }
    }

    /// The plan with the tier that it spills to.
    pub fn with_storage(self, storage: Option<Arc<dyn StorageBackend>>) -> (c: KvConfig)
        ensures
            c.dims == self.dims,
            c.kv_dim == self.kv_dim,
            c.n_layers == self.n_layers,
            c.kv_dims == self.kv_dims,
            c.max_positions == self.max_positions,
            c.max_resident_blocks == self.max_resident_blocks,
            c.sliding_window == self.sliding_window,
            c.storage == storage,
    {
        KvConfig {
            dims: self.dims,
            kv_dim: self.kv_dim,
            n_layers: self.n_layers,
            kv_dims: self.kv_dims,
            max_positions: self.max_positions,
            max_resident_blocks: self.max_resident_blocks,
            sliding_window: self.sliding_window,
            storage,
        }
    }
}

/// What is read ahead of the computation.
#[derive(Debug, Clone, Copy, PartialEq, Eq)]
pub enum Warming {
    Nothing,
    /// The likely next experts of `count`, `depth` at a time.
    Experts { count: usize, depth: usize },
    /// The next blocks.
    Blocks,
}

/// An engine as it is to be built.
#[derive(Debug)]
pub struct Engine {
    pub dims: ModelDims,
    pub backend: Backend,
    /// The turn markup that the checkpoint was fine-tuned on.
    pub chat: ChatFormat,
    pub kv: KvPlan,
    pub prefill_chunk: usize,
    pub warming: Warming,
    pub prompt_cache_entries: usize,
    pub prompt_cache_bytes: usize,
    /// The checkpoint that guesses ahead.
    pub draft: Option<String>,
}

/// Why an engine is not built.
#[derive(Debug)]
pub enum BuildError {
    Load(LoadError),
    Config(GarudaError),
    Refused(String),
}

/// Prompt tokens that share one pass over a layer's weights.
pub open spec fn chunk_of(config: AppConfig) -> usize {
    if config.model.prefill_batch == 0 {
        DEFAULT_PREFILL_CHUNK
    } else {
        config.model.prefill_batch
    }
}

/// The context window: never longer than the model was trained for, and never empty.
pub open spec fn window_of(asked: usize, trained: usize) -> usize {
    let n = if asked <= trained {
        asked
    } else {
        trained
    };
    if n == 0 {
        1
    } else {
        n
    }
}

fn window(asked: usize, trained: usize) -> (n: usize)
    ensures
        n == window_of(asked, trained),
{
    let n: usize = if asked <= trained {
        asked
    } else {
        trained
    };
    if n == 0 {
        1
    } else {
        n
    }
}

/// The template that a checkpoint carries.
pub open spec fn template_of(g: Gguf) -> Option<Seq<char>> {
    match g.at("tokenizer.chat_template"@) {
        Some(v) => v.text(),
        None => None,
    }
}

fn chat_of(g: &Gguf) -> (f: ChatFormat)
    ensures
        f == ChatFormat::family(template_of(*g)),
{
    let template = match g.get("tokenizer.chat_template") {
        Some(v) => v.as_str(),
        None => None,
    };
    ChatFormat::detect(template)
}

pub open spec fn llama_dims(c: LlamaConfig) -> ModelDims {
    ModelDims {
        d_model: c.d_model,
        n_heads: c.n_heads,
        head_dim: c.head_dim,
        d_ff: c.d_ff,
        n_experts: 1,
        top_k: 1,
        vocab_size: c.vocab,
        block_size: 32,
        rope_theta_bits: c.rope_theta_bits,
    }
}

pub open spec fn qwen_dims(c: Qwen35Config) -> ModelDims {
    ModelDims {
        d_model: c.d_model,
        n_heads: c.n_heads,
        head_dim: c.head_dim,
        d_ff: c.d_ff,
        n_experts: 1,
        top_k: 1,
        vocab_size: c.vocab,
        block_size: 32,
        rope_theta_bits: c.rope_theta_bits,
    }
}

pub open spec fn sized(s: Seq<char>) -> Result<nat, Seq<char>> {
    config::size_of(s, config::normalised(s))
}

pub open spec fn draft_view(draft: Option<String>) -> Option<Seq<char>> {
    match draft {
        Some(p) => Some(p@),
        None => None,
    }
}

/// What a head that does not match its vocabulary is told.
pub open spec fn head_message(head: nat, listed: nat) -> Seq<char> {
    "the checkpoint's output head covers "@ + text::decimal(head)
        + " tokens but its vocabulary lists "@ + text::decimal(listed)
        + " — a sampled id would decode to the wrong word"@
}

pub open spec fn draft_message(draft: Seq<char>) -> Seq<char> {
    "model.draft_gguf is set ("@ + draft
        + "), but this architecture cannot verify speculated tokens: its recurrent layers summarise every token they read and cannot be rewound when a guess is rejected. Clear the key to run this checkpoint."@
}

pub open spec fn vocab_message(path: Seq<char>, draft: nat, target: nat) -> Seq<char> {
    "draft checkpoint "@ + path + " has a "@ + text::decimal(draft)
        + "-token vocabulary but the model has "@ + text::decimal(target)
        + " — they must be the same, or a token id means different words to each"@
}

impl Engine {
    /// What the configuration settles whatever the model is.
    pub open spec fn follows(self, config: AppConfig, dims: ModelDims, trained: usize) -> bool {
        &&& self.dims == dims
        &&& self.prefill_chunk == chunk_of(config)
        &&& self.prompt_cache_entries == config.memory.prompt_cache_entries
        &&& sized(config.memory.prompt_cache@) == Ok::<nat, Seq<char>>(
            self.prompt_cache_bytes as nat,
        )
        &&& self.kv.dims == dims
        &&& self.kv.max_positions == window_of(config.model.context, trained)
        &&& self.kv.max_resident_blocks == config.memory.kv_resident_blocks
        &&& self.kv.sliding_window == config.window()
        &&& self.kv.spills == config.memory.kv_spill
    }

    /// How many prompt tokens share one pass over a layer's weights: the default, unless
    /// the configuration says otherwise.
    pub fn prefill_chunk(config: &AppConfig) -> (n: usize)
        ensures
            n == chunk_of(*config),
            n >= 1,
            config.model.prefill_batch > 0 ==> n == config.model.prefill_batch,
            config.model.prefill_batch == 0 ==> n == 256,
    {
        if config.model.prefill_batch == 0 {
            DEFAULT_PREFILL_CHUNK
        } else {
            config.model.prefill_batch
        }
    }

    /// Where KV blocks spill to, if they do.
    pub fn spill_dir(config: &AppConfig) -> (r: Option<String>)
        ensures
            match r {
                Some(d) => config.memory.kv_spill && d@ == storage::joined(
                    config.model.path@,
                    "kv_spill"@,
                ),
                None => !config.memory.kv_spill,
            },
    {
        if config.memory.kv_spill {
            Some(LocalStorageBackend::new(config.model.path.clone()).full_path("kv_spill"))
        } else {
            None
        }
    }

    /// Where the second tier of experts is kept.
    pub fn l2_dir(config: &AppConfig) -> (d: String)
        ensures
            d@ == storage::joined(config.model.path@, "l2_cache"@),
    {
        LocalStorageBackend::new(config.model.path.clone()).full_path("l2_cache")
    }

    /// Whether a checkpoint is of the hybrid architecture.
    pub fn is_hybrid(g: &Gguf) -> (b: bool)
        ensures
            b == (g.arch() == Some("qwen35"@)),
    {
        match g.architecture() {
            Some(a) => same_text(a, "qwen35"),
            None => false,
        }
    }

    /// Loads a Llama-family checkpoint and settles how it runs.
    ///
    /// Experts are read ahead only from a mapped checkpoint that has some: touching a page
    /// costs a disk read nowhere else.
    pub fn build_gguf(config: &AppConfig, path: &str, g: &Gguf, source: Source) -> (r:
        Result<(LlamaBackend, Engine), BuildError>)
        ensures
            match r {
                Ok((b, e)) => {
                    let c = b.cfg();
                    &&& LlamaBackend::loads(*g, source)
                    &&& b.loaded_from(*g, source)
                    &&& b.wf()
                    &&& b.chunk() == chunk_of(*config)
                    &&& e.follows(*config, llama_dims(c), c.context)
                    &&& e.backend matches Backend::Gguf { path: p, layers } && p@ == path@ && layers
                        == c.n_layers
                    &&& e.chat == ChatFormat::family(template_of(*g))
                    &&& e.kv.kv_dim == c.kv_width()
                    &&& e.kv.n_layers == c.n_layers
                    &&& e.kv.kv_dims is None
                    &&& e.warming == if config.runtime.prefetch && config.runtime.predictor
                        && c.n_experts > 0 && source.mapped {
                        Warming::Experts {
                            count: (c.n_layers * c.n_experts) as usize,
                            depth: if c.n_experts_used == 0 {
                                1
                            } else {
                                c.n_experts_used
                            },
                        }
                    } else {
                        Warming::Nothing
                    }
                    &&& draft_view(e.draft) == config::path_in(config.model.draft_gguf@)
                },
                Err(BuildError::Load(LoadError::TooLarge)) => !g.wf() || (LlamaConfig::fault(
                    *g,
                ) is None && !loader::announced_sizes_fit(*g)),
                Err(BuildError::Load(LoadError::Refused(e))) => g.wf() && match LlamaConfig::fault(
                    *g,
                ) {
                    Some(m) => Fault::Model(m).is(e),
                    None => loader::announced_sizes_fit(*g) && exists|c: LlamaConfig|
                        {
                            &&& #[trigger] c.describes(*g)
                            &&& loader::load_fault(*g, source, c, c.n_layers as nat) matches Some(f)
                                && f.is(e)
                        },
                },
                Err(BuildError::Config(e)) => {
                    &&& LlamaBackend::loads(*g, source)
                    &&& sized(config.memory.prompt_cache@) matches Err(m) && Fault::Config(m).is(e)
                },
                Err(BuildError::Refused(_)) => false,
            },
    {
        let b = match LlamaBackend::try_from_gguf(g, source) {
            Ok(b) => b,
            Err(e) => {
                return Err(BuildError::Load(e));
            },
        };
        let prompt_cache_bytes: usize = match config.prompt_cache_bytes() {
            Ok(n) => n,
            Err(e) => {
                return Err(BuildError::Config(e));
            },
        };
        let c = b.config();
        let dims = b.dims();
        let chunk: usize = Engine::prefill_chunk(config);
        let warming = if config.runtime.prefetch && config.runtime.predictor && c.n_experts > 0
            && source.mapped {
            Warming::Experts {
                count: c.n_layers * c.n_experts,
                depth: if c.n_experts_used == 0 {
                    1
                } else {
                    c.n_experts_used
                },
            }
        } else {
            Warming::Nothing
        };
        let kv = KvPlan {
            dims,
            kv_dim: c.kv_dim(),
            n_layers: c.n_layers,
            kv_dims: None,
            max_positions: window(config.model.context, c.context),
            max_resident_blocks: config.memory.kv_resident_blocks,
            sliding_window: config.sliding_window(),
            spills: config.memory.kv_spill,
        };
        let e = Engine {
            dims,
            backend: Backend::Gguf { path: path.to_owned(), layers: c.n_layers },
            chat: chat_of(g),
            kv,
            prefill_chunk: chunk,
            warming,
            prompt_cache_entries: config.memory.prompt_cache_entries,
            prompt_cache_bytes,
            draft: config.draft_path(),
        };
        Ok((b.with_prefill_chunk(chunk), e))
    }

    /// Loads a hybrid checkpoint and settles how it runs. `listed` is the size of its
    /// vocabulary as its tokenizer counts it.
    ///
    /// A block that keeps a recurrent state stores nothing per position, and a draft model
    /// is refused: what a recurrent state has read cannot be taken back.
    pub fn build_qwen35(
        config: &AppConfig,
        path: &str,
        g: &Gguf,
        source: Source,
        listed: usize,
    ) -> (r: Result<(Qwen35Backend, Engine), BuildError>)
        ensures
            match r {
                Ok((b, e)) => {
                    let c = b.cfg();
                    &&& Qwen35Backend::loads(*g, source)
                    &&& b.loaded_from(*g, source)
                    &&& b.wf()
                    &&& b.chunk() == chunk_of(*config)
                    &&& c.vocab == listed
                    &&& config::path_in(config.model.draft_gguf@) is None
                    &&& e.follows(*config, qwen_dims(c), c.context)
                    &&& e.backend matches Backend::Gguf { path: p, layers } && p@ == path@ && layers
                        == c.n_layers
                    &&& e.chat == ChatFormat::family(template_of(*g)).reasoning(
                        config.model.thinking,
                    )
                    &&& e.kv.kv_dim == c.kv_width()
                    &&& e.kv.n_layers == c.n_layers
                    &&& e.kv.kv_dims matches Some(widths) && widths@.len() == c.n_layers && forall|
                        l: int,
                    |
                        0 <= l < c.n_layers ==> #[trigger] widths@[l] == if c.recurrent@[l] {
                            0
                        } else {
                            c.kv_width()
                        }
                    &&& e.warming == if config.runtime.prefetch && b.embedding().packed() {
                        Warming::Blocks
                    } else {
                        Warming::Nothing
                    }
                    &&& e.draft is None
                },
                Err(BuildError::Load(LoadError::TooLarge)) => !g.wf() || (Qwen35Config::fault(
                    *g,
                ) is None && !crate::qwen35::loader::announced_sizes_fit(*g)),
                Err(BuildError::Load(LoadError::Refused(e))) => g.wf() && match Qwen35Config::fault(
                    *g,
                ) {
                    Some(m) => Fault::Model(m).is(e),
                    None => crate::qwen35::loader::announced_sizes_fit(*g) && exists|
                        c: Qwen35Config,
                    |
                        {
                            &&& #[trigger] c.describes(*g)
                            &&& crate::qwen35::loader::load_fault(
                                *g,
                                source,
                                c,
                                c.n_layers as nat,
                            ) matches Some(f) && f.is(e)
                        },
                },
                Err(BuildError::Refused(m)) => {
                    &&& Qwen35Backend::loads(*g, source)
                    &&& if g.vocab() != Some(listed as nat) {
                        m@ == head_message(g.vocab()->Some_0, listed as nat)
                    } else {
                        config::path_in(config.model.draft_gguf@) matches Some(d) && m@
                            == draft_message(d)
                    }
                },
                Err(BuildError::Config(e)) => {
                    &&& Qwen35Backend::loads(*g, source)
                    &&& g.vocab() == Some(listed as nat)
                    &&& config::path_in(config.model.draft_gguf@) is None
                    &&& sized(config.memory.prompt_cache@) matches Err(m) && Fault::Config(m).is(e)
                },
            },
    {
        let b = match Qwen35Backend::try_from_gguf(g, source) {
            Ok(b) => b,
            Err(e) => {
                return Err(BuildError::Load(e));
            },
        };
        let dims = b.dims();
        if dims.vocab_size != listed {
            let mut m = "the checkpoint's output head covers ".to_owned();
            push_size(&mut m, dims.vocab_size);
            m.append(" tokens but its vocabulary lists ");
            push_size(&mut m, listed);
            m.append(" — a sampled id would decode to the wrong word");
            return Err(BuildError::Refused(m));
        }
        match config.draft_path() {
            Some(d) => {
                let mut m = "model.draft_gguf is set (".to_owned();
                m.append(d.as_str());
                m.append(
                    "), but this architecture cannot verify speculated tokens: its recurrent layers summarise every token they read and cannot be rewound when a guess is rejected. Clear the key to run this checkpoint.",
                );
                return Err(BuildError::Refused(m));
            },
            None => {},
        }
        let prompt_cache_bytes: usize = match config.prompt_cache_bytes() {
            Ok(n) => n,
            Err(e) => {
                return Err(BuildError::Config(e));
            },
        };
        let chunk: usize = Engine::prefill_chunk(config);
        let warming = if config.runtime.prefetch && b.is_mmapped() {
            Warming::Blocks
        } else {
            Warming::Nothing
        };
        let c = b.config();
        let layers: usize = c.n_layers;
        let kv = KvPlan {
            dims,
            kv_dim: c.kv_dim(),
            n_layers: layers,
            kv_dims: Some(c.kv_dims()),
            max_positions: window(config.model.context, c.context),
            max_resident_blocks: config.memory.kv_resident_blocks,
            sliding_window: config.sliding_window(),
            spills: config.memory.kv_spill,
        };
        let e = Engine {
            dims,
            backend: Backend::Gguf { path: path.to_owned(), layers },
            chat: chat_of(g).with_thinking(config.model.thinking),
            kv,
            prefill_chunk: chunk,
            warming,
            prompt_cache_entries: config.memory.prompt_cache_entries,
            prompt_cache_bytes,
            draft: None,
        };
        Ok((b.with_prefill_chunk(chunk), e))
    }

    /// Settles how the synthetic model runs: its router, and the bytes that its experts
    /// may take in memory.
    pub fn build_synthetic(config: &AppConfig) -> (r: Result<
        (Engine, RouterType, usize),
        GarudaError,
    >)
        ensures
            match r {
                Ok((e, router, bytes)) => {
                    &&& config.wanted_dims().top_k_in_range()
                    &&& RouterType::named(config.model.router@) == Some(router)
                    &&& sized(config.memory.expert_cache@) == Ok::<nat, Seq<char>>(bytes as nat)
                    &&& sized(config.memory.prompt_cache@) == Ok::<nat, Seq<char>>(
                        e.prompt_cache_bytes as nat,
                    )
                    &&& e.dims == config.wanted_dims()
                    &&& e.backend is SyntheticMoe
                    &&& e.chat == ChatFormat::Plain
                    &&& e.prefill_chunk == chunk_of(*config)
                    &&& e.prompt_cache_entries == config.memory.prompt_cache_entries
                    &&& e.draft is None
                    &&& e.kv.dims == e.dims
                    &&& e.kv.kv_dim == e.dims.d_model
                    &&& e.kv.n_layers == 1
                    &&& e.kv.kv_dims is None
                    &&& e.kv.max_positions == config.model.context
                    &&& e.kv.max_resident_blocks == config.memory.kv_resident_blocks
                    &&& e.kv.sliding_window == config.window()
                    &&& e.kv.spills == config.memory.kv_spill
                    &&& e.warming == if config.runtime.prefetch && config.runtime.predictor {
                        Warming::Experts { count: e.dims.n_experts, depth: e.dims.top_k }
                    } else {
                        Warming::Nothing
                    }
                },
                Err(e) => if !config.wanted_dims().top_k_in_range() {
                    Fault::Config(config.wanted_dims().top_k_message()).is(e)
                } else if RouterType::named(config.model.router@) is None {
                    Fault::Config(RouterType::unknown_message(config.model.router@)).is(e)
                } else if let Err(m) = sized(config.memory.expert_cache@) {
                    Fault::Config(m).is(e)
                } else {
                    sized(config.memory.prompt_cache@) matches Err(m) && Fault::Config(m).is(e)
                },
            },
    {
        let dims = match config.dims() {
            Ok(d) => d,
            Err(e) => {
                return Err(e);
            },
        };
        let router = match config.router() {
            Ok(t) => t,
            Err(e) => {
                return Err(e);
            },
        };
        let expert_bytes: usize = match config.expert_cache_bytes() {
            Ok(n) => n,
            Err(e) => {
                return Err(e);
            },
        };
        let prompt_cache_bytes: usize = match config.prompt_cache_bytes() {
            Ok(n) => n,
            Err(e) => {
                return Err(e);
            },
        };
        let warming = if config.runtime.prefetch && config.runtime.predictor {
            Warming::Experts { count: dims.n_experts, depth: dims.top_k }
        } else {
            Warming::Nothing
        };
        let kv = KvPlan {
            dims,
            kv_dim: dims.d_model,
            n_layers: 1,
            kv_dims: None,
            max_positions: config.model.context,
            max_resident_blocks: config.memory.kv_resident_blocks,
            sliding_window: config.sliding_window(),
            spills: config.memory.kv_spill,
        };
        let e = Engine {
            dims,
            backend: Backend::SyntheticMoe,
            chat: ChatFormat::Plain,
            kv,
            prefill_chunk: Engine::prefill_chunk(config),
            warming,
            prompt_cache_entries: config.memory.prompt_cache_entries,
            prompt_cache_bytes,
            draft: None,
        };
        Ok((e, router, expert_bytes))
    }

    /// How the draft model's sequences are sized. A draft whose vocabulary is not the main
    /// model's is refused: a token id would mean different words to each. Its cache is
    /// small and short-lived, and never spills.
    pub fn load_draft(
        config: &AppConfig,
        path: &str,
        draft: &LlamaBackend,
        target_vocab: usize,
    ) -> (r: Result<KvPlan, String>)
        requires
            draft.wf(),
        ensures
            match r {
                Ok(kv) => {
                    let c = draft.cfg();
                    &&& c.vocab == target_vocab
                    &&& kv.dims == llama_dims(c)
                    &&& kv.kv_dim == c.kv_width()
                    &&& kv.n_layers == c.n_layers
                    &&& kv.kv_dims is None
                    &&& kv.max_positions == window_of(config.model.context, c.context)
                    &&& kv.max_resident_blocks == config.memory.kv_resident_blocks
                    &&& kv.sliding_window == config.window()
                    &&& !kv.spills
                },
                Err(m) => draft.cfg().vocab != target_vocab && m@ == vocab_message(
                    path@,
                    draft.cfg().vocab as nat,
                    target_vocab as nat,
                ),
            },
    {
        let c = draft.config();
        if c.vocab != target_vocab {
            let mut m = "draft checkpoint ".to_owned();
            m.append(path);
            m.append(" has a ");
            push_size(&mut m, c.vocab);
            m.append("-token vocabulary but the model has ");
            push_size(&mut m, target_vocab);
            m.append(" — they must be the same, or a token id means different words to each");
            return Err(m);
        }
        Ok(
            KvPlan {
                dims: draft.dims(),
                kv_dim: c.kv_dim(),
                n_layers: c.n_layers,
                kv_dims: None,
                max_positions: window(config.model.context, c.context),
                max_resident_blocks: config.memory.kv_resident_blocks,
                sliding_window: config.sliding_window(),
                spills: false,
            },
        )
    }

    /// Whether no prompt of a hybrid model can ever be cached: a cached prompt carries the
    /// recurrent state, whose size does not depend on the prompt.
    pub fn caches_nothing(&self, state_bytes: usize) -> (b: bool)
        ensures
            b == (state_bytes > self.prompt_cache_bytes),
    {
        state_bytes > self.prompt_cache_bytes
    }
}

/// A window bounds what has to be resident, and so does room for the whole context: with
/// either, or without spilling, the cache does not spill and reload at every token.
pub proof fn a_window_makes_spilling_behave(kv: KvPlan)
    ensures
        kv.sliding_window is Some ==> !kv.thrashes(),
        kv.max_resident_blocks >= kv.blocks() ==> !kv.thrashes(),
        !kv.spills ==> !kv.thrashes(),
{
}

/// No engine promises a longer context than its model was trained for, and each has room
/// for one token.
pub proof fn context_is_within_training(asked: usize, trained: usize)
    ensures
        window_of(asked, trained) >= 1,
        trained >= 1 ==> window_of(asked, trained) <= trained,
        asked >= 1 ==> window_of(asked, trained) <= asked,
{
}

/// An engine is set up as its configuration says: the context is what was asked for, as far as
/// the model was trained and at least one token, and the prompt cache, the blocks in RAM, the
/// window, the spilling and the chunks are the configuration's own.
pub proof fn engines_follow_their_configuration(
    e: Engine,
    config: AppConfig,
    dims: ModelDims,
    trained: usize,
)
    requires
        e.follows(config, dims, trained),
    ensures
        e.dims == dims && e.kv.dims == dims,
        e.prefill_chunk == if config.model.prefill_batch > 0 {
            config.model.prefill_batch
        } else {
            256
        },
        e.prompt_cache_entries == config.memory.prompt_cache_entries,
        e.kv.max_positions <= config.model.context || e.kv.max_positions == 1,
        e.kv.max_positions <= trained || e.kv.max_positions == 1,
        e.kv.max_positions >= 1,
        config.model.context > 0 && trained > 0 ==> e.kv.max_positions == config.model.context
            || e.kv.max_positions == trained,
        e.kv.max_resident_blocks == config.memory.kv_resident_blocks,
        e.kv.sliding_window == if config.model.sliding_window > 0 {
            Some(config.model.sliding_window)
        } else {
            None
        },
        e.kv.spills == config.memory.kv_spill,
        config::size_of(
            config.memory.prompt_cache@,
            config::normalised(config.memory.prompt_cache@),
        ) == Ok::<nat, Seq<char>>(e.prompt_cache_bytes as nat),
{
}

/// The shape that the runtime works with is that of the checkpoint, whatever its family.
pub proof fn shapes_are_those_of_the_checkpoint(c: LlamaConfig, q: Qwen35Config)
    ensures
        ({
            let d = llama_dims(c);
            &&& d.d_model == c.d_model && d.n_heads == c.n_heads && d.head_dim == c.head_dim
            &&& d.d_ff == c.d_ff && d.vocab_size == c.vocab
            &&& d.rope_theta_bits == c.rope_theta_bits
            &&& d.block_size == 32 && d.n_experts == 1 && d.top_k == 1
        }),
        ({
            let d = qwen_dims(q);
            &&& d.d_model == q.d_model && d.n_heads == q.n_heads && d.head_dim == q.head_dim
            &&& d.d_ff == q.d_ff && d.vocab_size == q.vocab
            &&& d.rope_theta_bits == q.rope_theta_bits
            &&& d.block_size == 32 && d.n_experts == 1 && d.top_k == 1
        }),
{
}

/// Spilling thrashes exactly where a whole context takes more blocks than may stay in RAM and
/// no window bounds how far back attention reaches.
pub proof fn thrashing_is_a_whole_context_beyond_ram(p: KvPlan)
    requires
        p.dims.block_size > 0,
    ensures
        p.thrashes() <==> p.spills && p.sliding_window is None && p.max_resident_blocks
            * p.dims.block_size < p.max_positions,
{
    let (b, n, m) = (p.dims.block_size as int, p.max_positions as int, p.max_resident_blocks as int);
    vstd::arithmetic::div_mod::lemma_fundamental_div_mod(n + b - 1, b);
    let q = (n + b - 1) / b;
    let r = (n + b - 1) % b;
    assert(m < q <==> m * b < n) by (nonlinear_arith)
        requires
            b > 0,
            n + b - 1 == b * q + r,
            0 <= r < b,
    ;
}

} // verus!
