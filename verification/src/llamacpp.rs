//! The llama.cpp `/completion` endpoint.

use crate::api;
use crate::api::{limit_of, override_params, status_of};
use crate::runtime::StopReason;
use crate::sampling::{SamplingFault, SamplingParams};
use crate::types::GarudaError;
use vstd::prelude::*;
use vstd::string::*;

verus! {

/// What a request that cannot be served as it stands is answered: bad request.
pub const REFUSED: u16 = 400;

#[derive(Debug)]
pub struct CompletionRequest {
    pub prompt: String,
    /// Tokens to generate at most. Zero or less uses the server's default.
    pub n_predict: Option<i64>,
    /// An `f32` bit pattern.
    pub temperature_bits: Option<u32>,
    /// An `f32` bit pattern.
    pub top_p_bits: Option<u32>,
    pub top_k: Option<usize>,
    pub seed: Option<u64>,
    pub stream: bool,
}

impl CompletionRequest {
    pub open spec fn on(self, base: SamplingParams) -> SamplingParams {
        api::overridden(
            base,
            self.temperature_bits,
            self.top_p_bits,
            self.top_k,
            api::limit(self.n_predict),
            self.seed,
        )
    }

    pub fn params(&self, base: SamplingParams) -> (r: Result<SamplingParams, SamplingFault>)
        ensures
            match r {
                Ok(p) => p == self.on(base) && p.fault() is None,
                Err(f) => self.on(base).fault() == Some(f),
            },
            r matches Ok(p) ==> p.temperature_bits == match self.temperature_bits {
                Some(x) => x,
                None => base.temperature_bits,
            },
            r matches Ok(p) ==> p.top_p_bits == match self.top_p_bits {
                Some(x) => x,
                None => base.top_p_bits,
            },
            r matches Ok(p) ==> p.top_k == match self.top_k {
                Some(x) => x,
                None => base.top_k,
            },
            r matches Ok(p) ==> p.max_tokens == match self.n_predict {
                Some(n) => if n > 0 {
                    n as usize
                } else {
                    base.max_tokens
                },
                None => base.max_tokens,
            },
            r matches Ok(p) ==> p.seed == if self.seed is Some {
                self.seed
            } else {
                base.seed
            },
    {
        override_params(
            base,
            self.temperature_bits,
            self.top_p_bits,
            self.top_k,
            limit_of(self.n_predict),
            self.seed,
        )
    }
}

/// The status of an error.
pub fn map_error(e: &GarudaError) -> (s: u16)
    ensures
        s == api::plain_status(*e, REFUSED),
        *e is RateLimit ==> s == 429,
        *e is Busy ==> s == 503,
        *e is Config || *e is Inference || *e is InvalidToken ==> s == 400,
{
    status_of(e, REFUSED)
}

/// The frame that ends a reply.
#[derive(Debug, Clone, Copy, PartialEq, Eq)]
pub struct Ending {
    pub tokens_predicted: usize,
    pub tokens_evaluated: usize,
    pub stopped_eos: bool,
    pub stopped_limit: bool,
}

/// The frame that ends a reply of `predicted` tokens to a prompt of `evaluated`.
pub fn ending(reason: StopReason, predicted: usize, evaluated: usize) -> (e: Ending)
    ensures
        e == (Ending {
            tokens_predicted: predicted,
            tokens_evaluated: evaluated,
            stopped_eos: reason == StopReason::Eos,
            stopped_limit: reason != StopReason::Eos,
        }),
{
    let eos = match reason {
        StopReason::Eos => true,
        _ => false,
    };
    Ending {
        tokens_predicted: predicted,
        tokens_evaluated: evaluated,
        stopped_eos: eos,
        stopped_limit: !eos,
    }
}

} // verus!
