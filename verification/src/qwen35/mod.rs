//! The Qwen3.5 family: a hybrid transformer whose layers are mostly *not* attention.
//!
//! Three out of every four blocks are a **gated delta net**, a linear-attention layer
//! that keeps a fixed-size recurrent state instead of a growing cache of keys and
//! values. The fourth is ordinary grouped-query attention. The recurrent blocks still
//! count positions, so every layer of a sequence advances together; they just store
//! nothing.
//!
//! What is here: the parameters, where every weight lies, how projections are laid out
//! in heads, and what a token does to the state it reads. The arithmetic is the
//! caller's.

pub mod block;
pub mod config;
pub mod loader;
