//! Garuda: a runtime that serves mixture-of-experts models from a machine with less memory
//! than the model has weights.
//!
//! The library holds everything that is decided on the way from a request to a stream of
//! tokens, each decision with a contract that is proved:
//!
//! * what a checkpoint says and whether it can be run: [`gguf`], [`llama`], [`qwen35`],
//!   [`quant`];
//! * what a forward pass reads, writes and routes: [`forward`], [`attention`], [`routing`],
//!   [`router`], [`moe`], [`simd`];
//! * where state lies and what it may cost: [`cache`], [`memory`], [`storage`], [`stream`],
//!   [`prefetch`], [`predictor`];
//! * what a sequence does next and who runs when: [`backend`], [`sampling`], [`runtime`],
//!   [`decode`], [`batch`], [`scheduler`], [`session`], [`double`];
//! * what clients ask for and are told: [`chat`], [`api`], [`anthropic`], [`ollama`],
//!   [`llamacpp`], [`tgi`], [`auth`];
//! * how the server is set up: [`config`], [`cli`], [`server`], [`cuda`], [`grpc`].
//!
//! Numbers with a fraction are held as the bit patterns of `f32`. The arithmetic on them, the
//! sockets and the files belong to the program around the library.
pub mod anthropic;
pub mod api;
pub mod attention;
pub mod auth;
pub mod backend;
pub mod batch;
pub mod bytes;
pub mod cache;
pub mod chat;
pub mod chat_laws;
pub mod cli;
pub mod config;
pub mod config_laws;
pub mod cuda;
pub mod decode;
pub mod decode_laws;
pub mod double;
pub mod double_laws;
pub mod forward;
pub mod gguf;
pub mod gguf_laws;
pub mod grpc;
pub mod header_laws;
pub mod llama;
pub mod llamacpp;
pub mod loader_laws;
pub mod memory;
pub mod moe;
pub mod number_laws;
pub mod ollama;
pub mod ollama_laws;
pub mod predictor;
pub mod prefetch;
pub mod quant;
pub mod quant_laws;
pub mod qwen35;
pub mod router;
pub mod routing;
pub mod runtime;
pub mod runtime_laws;
pub mod sampling;
pub mod scheduler;
pub mod scheduler_laws;
pub mod server;
pub mod session;
pub mod simd;
pub mod storage;
pub mod stream;
pub mod text;
pub mod tgi;
pub mod types;
