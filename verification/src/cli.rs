//! The command line.

use crate::config::AppConfig;
use vstd::prelude::*;
use vstd::string::*;

verus! {

#[derive(Debug, Clone)]
pub enum Commands {
    /// Serve the API.
    Serve,
    /// Measure startup, expert loads and decoding.
    Benchmark { iterations: usize, tokens: usize },
    /// Report what a checkpoint holds and whether it loads.
    Inspect { file: String },
}

/// Steps that a benchmark takes unless told otherwise.
pub const DEFAULT_ITERATIONS: usize = 100;

/// Tokens that a benchmark decodes unless told otherwise.
pub const DEFAULT_TOKENS: usize = 32;

#[derive(Debug, Clone)]
pub struct Cli {
    /// The configuration file.
    pub config: String,
    /// Overrides `server.port`.
    pub port: Option<u16>,
    /// Overrides `server.host`.
    pub host: Option<String>,
    /// Nothing means serve.
    pub command: Option<Commands>,
}

impl Default for Cli {
    fn default() -> (c: Self)
        ensures
            c.config@ == "config.toml"@,
            c.port is None,
            c.host is None,
            c.command is None,
    {
        Cli { config: "config.toml".to_owned(), port: None, host: None, command: None }
    }
}

impl Cli {
    /// The configuration with what the command line overrides.
    pub fn apply(&self, config: AppConfig) -> (c: AppConfig)
        ensures
            c.model == config.model,
            c.memory == config.memory,
            c.runtime == config.runtime,
            c.sampling == config.sampling,
            c.server.host@ == match self.host {
                Some(h) => h@,
                None => config.server.host@,
            },
            c.server.port == match self.port {
                Some(p) => p,
                None => config.server.port,
            },
            c.server.max_concurrent == config.server.max_concurrent,
            c.server.queue_capacity == config.server.queue_capacity,
            c.server.max_concurrent_per_user == config.server.max_concurrent_per_user,
            c.server.request_timeout_secs == config.server.request_timeout_secs,
            c.server.cors == config.server.cors,
            c.server.api_keys == config.server.api_keys,
    {
        let mut c = config;
        match &self.host {
            Some(h) => {
                c.server.host = h.clone();
            },
            None => {},
        }
        match self.port {
            Some(p) => {
                c.server.port = p;
            },
            None => {},
        }
        c
    }
}

/// The command line may move the address that the server listens on; it cannot turn a
/// configuration that is accepted into one that is refused, nor the other way round.
pub proof fn overrides_keep_validity(before: AppConfig, after: AppConfig)
    requires
        after.model == before.model,
        after.memory == before.memory,
        after.sampling == before.sampling,
        after.server.max_concurrent == before.server.max_concurrent,
        after.server.queue_capacity == before.server.queue_capacity,
        after.server.max_concurrent_per_user == before.server.max_concurrent_per_user,
        after.server.request_timeout_secs == before.server.request_timeout_secs,
    ensures
        after.refusal() == before.refusal(),
{
}

} // verus!
