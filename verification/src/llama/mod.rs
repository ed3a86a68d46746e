//! A Llama-family transformer, loaded from a checkpoint.
//!
//! Where the weights of a block lie, which experts a token runs and what stays in the
//! cache is decided here. The arithmetic on the weights is the caller's.

pub mod config;
pub mod weight;
pub mod loader;
