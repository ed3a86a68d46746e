//! Text Generation Inference endpoints.

use crate::api;
use crate::api::{override_params, status_of};
use crate::runtime::StopReason;
use crate::sampling::{SamplingFault, SamplingParams};
use crate::types::GarudaError;
use vstd::prelude::*;
use vstd::string::*;

verus! {

/// What a request that cannot be served as it stands is answered: unprocessable.
pub const REFUSED: u16 = 422;

#[derive(Debug, Clone, Copy)]
pub struct Parameters {
    pub max_new_tokens: Option<usize>,
    /// An `f32` bit pattern.
    pub temperature_bits: Option<u32>,
    /// An `f32` bit pattern.
    pub top_p_bits: Option<u32>,
    pub top_k: Option<usize>,
    pub seed: Option<u64>,
    /// Report why the text ended and how many tokens it took.
    pub details: bool,
}

impl Default for Parameters {
    fn default() -> (p: Self)
        ensures
            p == (Parameters {
                max_new_tokens: None,
                temperature_bits: None,
                top_p_bits: None,
                top_k: None,
                seed: None,
                details: false,
            }),
    {
        Parameters {
            max_new_tokens: None,
            temperature_bits: None,
            top_p_bits: None,
            top_k: None,
            seed: None,
            details: false,
        }
    }
}

impl Parameters {
    pub open spec fn on(self, base: SamplingParams) -> SamplingParams {
        api::overridden(
            base,
            self.temperature_bits,
            self.top_p_bits,
            self.top_k,
            self.max_new_tokens,
            self.seed,
        )
    }

    pub fn apply(&self, base: SamplingParams) -> (r: Result<SamplingParams, SamplingFault>)
        ensures
            match r {
                Ok(p) => p == self.on(base) && p.fault() is None,
                Err(f) => self.on(base).fault() == Some(f),
            },
            r matches Ok(p) ==> p.temperature_bits == match self.temperature_bits {
                Some(x) => x,
                None => base.temperature_bits,
            },
            r matches Ok(p) ==> p.top_p_bits == match self.top_p_bits {
                Some(x) => x,
                None => base.top_p_bits,
            },
            r matches Ok(p) ==> p.top_k == match self.top_k {
                Some(x) => x,
                None => base.top_k,
            },
            r matches Ok(p) ==> p.max_tokens == match self.max_new_tokens {
                Some(x) => x,
                None => base.max_tokens,
            },
            r matches Ok(p) ==> p.seed == if self.seed is Some {
                self.seed
            } else {
                base.seed
            },
    {
        override_params(
            base,
            self.temperature_bits,
            self.top_p_bits,
            self.top_k,
            self.max_new_tokens,
            self.seed,
        )
    }
}

/// Why a text ended, in the protocol's words.
pub fn finish_reason(r: StopReason) -> (s: &'static str)
    ensures
        s@ == if r == StopReason::Eos {
            "eos_token"@
        } else {
            "length"@
        },
{
    match r {
        StopReason::Eos => "eos_token",
        _ => "length",
    }
}

/// The status of an error.
pub fn map_error(e: &GarudaError) -> (s: u16)
    ensures
        s == api::plain_status(*e, REFUSED),
        *e is RateLimit ==> s == 429,
        *e is Busy ==> s == 503,
        *e is Config || *e is Inference || *e is InvalidToken ==> s == 422,
{
    status_of(e, REFUSED)
}

} // verus!
