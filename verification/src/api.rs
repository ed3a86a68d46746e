//! The OpenAI-shaped API: what its requests ask for, and what its replies and errors say.
//!
//! Errors carry the status that clients act on: 429 for rate limits, 503 when the queue
//! is full.

use crate::sampling::{SamplingFault, SamplingParams};
use crate::scheduler;
use crate::scheduler::Priority;
use crate::types::{Fault, GarudaError};
use vstd::prelude::*;
use vstd::string::*;

verus! {

/// The model that a request which names none is answered by.
pub const MODEL_ID: &'static str = "garuda-moe-v1";

/// Inputs that one embedding request may hold.
pub const MAX_EMBEDDING_INPUTS: usize = 256;

/// One turn of a conversation.
#[derive(Debug, Clone)]
pub struct ChatMessage {
    pub role: String,
    pub content: String,
}

/// An error as a client sees it.
#[derive(Debug)]
pub struct ErrorReply {
    /// The HTTP status.
    pub status: u16,
    pub kind: &'static str,
    pub code: &'static str,
    pub message: String,
}

/// The status, the type and the code of an error.
pub open spec fn error_class(e: GarudaError) -> (u16, Seq<char>, Seq<char>) {
    match e {
        GarudaError::RateLimit => (429, "rate_limit_error"@, "rate_limit_exceeded"@),
        GarudaError::Busy => (503, "server_error"@, "queue_full"@),
        GarudaError::Timeout => (504, "server_error"@, "timeout"@),
        GarudaError::Cancelled => (400, "invalid_request_error"@, "cancelled"@),
        GarudaError::Config(_) => (400, "invalid_request_error"@, "invalid_request"@),
        GarudaError::InvalidToken(_) => (400, "invalid_request_error"@, "invalid_request"@),
        GarudaError::Inference(_) => (400, "invalid_request_error"@, "invalid_request"@),
        _ => (500, "server_error"@, "internal_error"@),
    }
}

/// Maps an error onto the status that a client should act on.
pub fn error_response(e: &GarudaError) -> (r: ErrorReply)
    ensures
        (r.status, r.kind@, r.code@) == error_class(*e),
        r.message@ == e.text(),
        r.status == 429 <==> *e is RateLimit,
        r.status == 503 <==> *e is Busy,
        r.status == 504 <==> *e is Timeout,
        r.status == 400 <==> *e is Cancelled || *e is Config || *e is InvalidToken
            || *e is Inference,
        r.status == 500 <==> !(*e is RateLimit || *e is Busy || *e is Timeout || *e is Cancelled
            || *e is Config || *e is InvalidToken || *e is Inference),
        r.kind@ == (if r.status == 429 {
            "rate_limit_error"@
        } else if r.status == 400 {
            "invalid_request_error"@
        } else {
            "server_error"@
        }),
        *e is RateLimit ==> r.code@ == "rate_limit_exceeded"@,
        *e is Busy ==> r.code@ == "queue_full"@,
        *e is Timeout ==> r.code@ == "timeout"@,
        *e is Cancelled ==> r.code@ == "cancelled"@,
        *e is Config || *e is InvalidToken || *e is Inference ==> r.code@ == "invalid_request"@,
        r.status == 500 ==> r.code@ == "internal_error"@,
{
    let (status, kind, code): (u16, &'static str, &'static str) = match e {
        GarudaError::RateLimit => (429, "rate_limit_error", "rate_limit_exceeded"),
        GarudaError::Busy => (503, "server_error", "queue_full"),
        GarudaError::Timeout => (504, "server_error", "timeout"),
        GarudaError::Cancelled => (400, "invalid_request_error", "cancelled"),
        GarudaError::Config(_) => (400, "invalid_request_error", "invalid_request"),
        GarudaError::InvalidToken(_) => (400, "invalid_request_error", "invalid_request"),
        GarudaError::Inference(_) => (400, "invalid_request_error", "invalid_request"),
        _ => (500, "server_error", "internal_error"),
    };
    ErrorReply { status, kind, code, message: e.message() }
}

/// The status of an error where a protocol tells only four kinds apart. `refused` is what
/// it answers to a request that cannot be served as it stands.
pub open spec fn plain_status(e: GarudaError, refused: u16) -> u16 {
    match e {
        GarudaError::RateLimit => 429,
        GarudaError::Busy => 503,
        GarudaError::Config(_) => refused,
        GarudaError::Inference(_) => refused,
        GarudaError::InvalidToken(_) => refused,
        _ => 500,
    }
}

pub fn status_of(e: &GarudaError, refused: u16) -> (s: u16)
    ensures
        s == plain_status(*e, refused),
        *e is RateLimit ==> s == 429,
        *e is Busy ==> s == 503,
        *e is Config || *e is Inference || *e is InvalidToken ==> s == refused,
        !(*e is RateLimit || *e is Busy || *e is Config || *e is Inference
            || *e is InvalidToken) ==> s == 500,
{
    match e {
        GarudaError::RateLimit => 429,
        GarudaError::Busy => 503,
        GarudaError::Config(_) => refused,
        GarudaError::Inference(_) => refused,
        GarudaError::InvalidToken(_) => refused,
        _ => 500,
    }
}

/// The base parameters with whatever a request overrides.
pub open spec fn overridden(
    base: SamplingParams,
    temperature: Option<u32>,
    top_p: Option<u32>,
    top_k: Option<usize>,
    max_tokens: Option<usize>,
    seed: Option<u64>,
) -> SamplingParams {
    SamplingParams {
        temperature_bits: match temperature {
            Some(t) => t,
            None => base.temperature_bits,
        },
        top_p_bits: match top_p {
            Some(p) => p,
            None => base.top_p_bits,
        },
        top_k: match top_k {
            Some(k) => k,
            None => base.top_k,
        },
        max_tokens: match max_tokens {
            Some(n) => n,
            None => base.max_tokens,
        },
        seed: match seed {
            Some(s) => Some(s),
            None => base.seed,
        },
    }
}

/// What a request that overrides some parameters samples with, if that is in range.
pub fn override_params(
    base: SamplingParams,
    temperature: Option<u32>,
    top_p: Option<u32>,
    top_k: Option<usize>,
    max_tokens: Option<usize>,
    seed: Option<u64>,
) -> (r: Result<SamplingParams, SamplingFault>)
    ensures
        match r {
            Ok(p) => p == overridden(base, temperature, top_p, top_k, max_tokens, seed)
                && p.fault() is None,
            Err(f) => overridden(base, temperature, top_p, top_k, max_tokens, seed).fault() == Some(
                f,
            ),
        },
        r matches Ok(p) ==> p.temperature_bits == match temperature {
            Some(x) => x,
            None => base.temperature_bits,
        },
        r matches Ok(p) ==> p.top_p_bits == match top_p {
            Some(x) => x,
            None => base.top_p_bits,
        },
        r matches Ok(p) ==> p.top_k == match top_k {
            Some(x) => x,
            None => base.top_k,
        },
        r matches Ok(p) ==> p.max_tokens == match max_tokens {
            Some(x) => x,
            None => base.max_tokens,
        },
        r matches Ok(p) ==> p.seed == if seed is Some {
            seed
        } else {
            base.seed
        },
        forall|p: SamplingParams|
            p.temperature_bits == (match temperature {
                Some(x) => x,
                None => base.temperature_bits,
            }) && p.top_p_bits == (match top_p {
                Some(x) => x,
                None => base.top_p_bits,
            }) && p.max_tokens == (match max_tokens {
                Some(x) => x,
                None => base.max_tokens,
            }) ==> (r is Err <==> (#[trigger] p.fault()) is Some),
{
    let mut p = base;
    match temperature {
        Some(t) => {
            p.temperature_bits = t;
        },
        None => {},
    }
    match top_p {
        Some(t) => {
            p.top_p_bits = t;
        },
        None => {},
    }
    match top_k {
        Some(k) => {
            p.top_k = k;
        },
        None => {},
    }
    match max_tokens {
        Some(n) => {
            p.max_tokens = n;
        },
        None => {},
    }
    match seed {
        Some(s) => {
            p.seed = Some(s);
        },
        None => {},
    }
    match p.validate() {
        Ok(_) => Ok(p),
        Err(f) => Err(f),
    }
}

/// The token limit that a signed count stands for. Zero or less asks for the default.
pub open spec fn limit(n: Option<i64>) -> Option<usize> {
    match n {
        Some(n) => if n > 0 {
            Some(n as usize)
        } else {
            None
        },
        None => None,
    }
}

pub fn limit_of(n: Option<i64>) -> (r: Option<usize>)
    ensures
        r == limit(n),
        r is Some <==> n is Some && n->Some_0 > 0,
        r is Some && n->Some_0 <= usize::MAX ==> r->Some_0 == n->Some_0,
{
    match n {
        Some(n) => if n > 0 {
            Some(n as usize)
        } else {
            None
        },
        None => None,
    }
}

/// The sampling knobs that every OpenAI-shaped request may carry.
#[derive(Debug, Clone)]
pub struct SamplingOverrides {
    /// An `f32` bit pattern.
    pub temperature_bits: Option<u32>,
    /// An `f32` bit pattern.
    pub top_p_bits: Option<u32>,
    pub top_k: Option<usize>,
    pub max_tokens: Option<usize>,
    pub seed: Option<u64>,
    /// An extension: `low`, `normal` or `high`.
    pub priority: Option<String>,
}

impl Default for SamplingOverrides {
    fn default() -> (o: Self)
        ensures
            o.temperature_bits is None,
            o.top_p_bits is None,
            o.top_k is None,
            o.max_tokens is None,
            o.seed is None,
            o.priority is None,
    {
        SamplingOverrides {
            temperature_bits: None,
            top_p_bits: None,
            top_k: None,
            max_tokens: None,
            seed: None,
            priority: None,
        }
    }
}

impl SamplingOverrides {
    pub open spec fn on(self, base: SamplingParams) -> SamplingParams {
        overridden(
            base,
            self.temperature_bits,
            self.top_p_bits,
            self.top_k,
            self.max_tokens,
            self.seed,
        )
    }

    pub fn apply(&self, base: SamplingParams) -> (r: Result<SamplingParams, SamplingFault>)
        ensures
            match r {
                Ok(p) => p == self.on(base) && p.fault() is None,
                Err(f) => self.on(base).fault() == Some(f),
            },
            r matches Ok(p) ==> p.temperature_bits == match self.temperature_bits {
                Some(x) => x,
                None => base.temperature_bits,
            },
            r matches Ok(p) ==> p.top_p_bits == match self.top_p_bits {
                Some(x) => x,
                None => base.top_p_bits,
            },
            r matches Ok(p) ==> p.top_k == match self.top_k {
                Some(x) => x,
                None => base.top_k,
            },
            r matches Ok(p) ==> p.max_tokens == match self.max_tokens {
                Some(x) => x,
                None => base.max_tokens,
            },
            r matches Ok(p) ==> p.seed == if self.seed is Some {
                self.seed
            } else {
                base.seed
            },
    {
        override_params(
            base,
            self.temperature_bits,
            self.top_p_bits,
            self.top_k,
            self.max_tokens,
            self.seed,
        )
    }

    /// The priority that a request asks for; normal where it asks for none.
    pub fn priority(&self) -> (r: Result<Priority, GarudaError>)
        ensures
            match self.priority {
                None => r == Ok::<Priority, GarudaError>(Priority::Normal),
                Some(s) => match r {
                    Ok(p) => Priority::named(s@) == Some(p),
                    Err(e) => Priority::named(s@) is None && Fault::Config(
                        "unknown priority '"@ + scheduler::lowered(s@)
                            + "' (expected low, normal or high)"@,
                    ).is(e),
                },
            },
    {
        match &self.priority {
            Some(s) => Priority::parse(s.as_str()),
            None => Ok(Priority::Normal),
        }
    }
}

/// Tokens that a request cost.
#[derive(Debug, Clone, Copy, PartialEq, Eq)]
pub struct Usage {
    pub prompt_tokens: usize,
    pub completion_tokens: usize,
    pub total_tokens: usize,
}

impl Usage {
    pub fn new(prompt_tokens: usize, completion_tokens: usize) -> (u: Self)
        requires
            prompt_tokens + completion_tokens <= usize::MAX,
        ensures
            u.prompt_tokens == prompt_tokens,
            u.completion_tokens == completion_tokens,
            u.total_tokens == prompt_tokens + completion_tokens,
    {
        Usage {
            prompt_tokens,
            completion_tokens,
            total_tokens: prompt_tokens + completion_tokens,
        }
    }
}

/// Longest name, in bytes, that a caller may go by.
pub const MAX_USER_BYTES: usize = 128;

/// The name that a caller goes by.
pub open spec fn caller(header: Option<Seq<char>>) -> Seq<char> {
    match header {
        Some(s) => if 0 < vstd::utf8::encode_utf8(s).len() <= MAX_USER_BYTES {
            s
        } else {
            "anonymous"@
        },
        None => "anonymous"@,
    }
}

/// Who a request is counted against. There is no identity behind it: everyone shares one
/// bucket unless they name themselves.
pub fn user_id(header: Option<&str>) -> (user: String)
    ensures
        user@ == caller(
            match header {
                Some(s) => Some(s@),
                None => None,
            },
        ),
        header is None ==> user@ == "anonymous"@,
        header matches Some(s) ==> user@ == if 0 < vstd::utf8::encode_utf8(s@).len() <= 128 {
            s@
        } else {
            "anonymous"@
        },
{
    match header {
        Some(s) => {
            let n: usize = s.as_bytes().len();
            if 0 < n && n <= MAX_USER_BYTES {
                s.to_owned()
            } else {
                "anonymous".to_owned()
            }
        },
        None => "anonymous".to_owned(),
    }
}

/// The model that a reply names.
pub fn model_name(asked: Option<String>) -> (name: String)
    ensures
        name@ == match asked {
            Some(m) => m@,
            None => MODEL_ID@,
        },
{
    match asked {
        Some(m) => m,
        None => MODEL_ID.to_owned(),
    }
}

/// What to answer to a request that lacks what it is about, if it does: `what` is how the
/// protocol calls it, and `len` how much of it there is.
pub fn missing(what: &str, len: usize) -> (r: Option<String>)
    ensures
        match r {
            Some(m) => len == 0 && m@ == what@ + " must not be empty"@,
            None => len > 0,
        },
{
    if len > 0 {
        return None;
    }
    let mut m = what.to_owned();
    m.append(" must not be empty");
    Some(m)
}

/// Refuses a conversation without messages.
pub fn check_messages(messages: &[ChatMessage]) -> (r: Result<(), GarudaError>)
    ensures
        match r {
            Ok(_) => messages@.len() > 0,
            Err(e) => messages@.len() == 0 && Fault::Inference(
                "messages"@ + " must not be empty"@,
            ).is(e),
        },
{
    match missing("messages", messages.len()) {
        Some(m) => Err(GarudaError::Inference(m)),
        None => Ok(()),
    }
}

/// Refuses an empty prompt. `what` is how the protocol calls it.
pub fn check_prompt(what: &str, prompt: &str) -> (r: Result<(), GarudaError>)
    ensures
        match r {
            Ok(_) => prompt@.len() > 0,
            Err(e) => prompt@.len() == 0 && Fault::Inference(what@ + " must not be empty"@).is(e),
        },
{
    match missing(what, crate::text::chars_of(prompt).len()) {
        Some(m) => Err(GarudaError::Inference(m)),
        None => Ok(()),
    }
}

/// What an embedding request holds: a string or an array of strings is what it should.
#[derive(Debug)]
pub enum EmbeddingInput {
    Text(String),
    /// An array. An entry that is not a string is `None`.
    List(Vec<Option<String>>),
    Other,
}

/// The texts of a request, or what is wrong with its shape.
pub open spec fn raw_texts(input: EmbeddingInput) -> Result<Seq<Seq<char>>, Seq<char>> {
    match input {
        EmbeddingInput::Text(s) => Ok(seq![s@]),
        EmbeddingInput::List(items) => if exists|i: int|
            0 <= i < items@.len() && (#[trigger] items@[i]) is None {
            Err("input array must contain only strings"@)
        } else {
            Ok(items@.map_values(|s: Option<String>| s->Some_0@))
        },
        EmbeddingInput::Other => Err("input must be a string or an array of strings"@),
    }
}

pub open spec fn all_empty(texts: Seq<Seq<char>>) -> bool {
    forall|i: int| 0 <= i < texts.len() ==> (#[trigger] texts[i]).len() == 0
}

/// The texts to embed, or what is wrong with the request.
pub open spec fn texts_in(input: EmbeddingInput) -> Result<Seq<Seq<char>>, Seq<char>> {
    match raw_texts(input) {
        Err(m) => Err(m),
        Ok(all) => if all_empty(all) {
            Err("input must not be empty"@)
        } else if all.len() > MAX_EMBEDDING_INPUTS {
            Err("input must hold at most 256 texts"@)
        } else {
            Ok(all)
        },
    }
}

pub open spec fn views(texts: Seq<String>) -> Seq<Seq<char>> {
    texts.map_values(|s: String| s@)
}

fn strings_of(items: Vec<Option<String>>) -> (r: Option<Vec<String>>)
    ensures
        match r {
            Some(out) => (forall|i: int|
                0 <= i < items@.len() ==> (#[trigger] items@[i]) is Some) && views(out@)
                == items@.map_values(|s: Option<String>| s->Some_0@),
            None => exists|i: int| 0 <= i < items@.len() && (#[trigger] items@[i]) is None,
        },
{
    let mut out: Vec<String> = Vec::new();
    let mut i: usize = 0;
    while i < items.len()
        invariant
            i <= items@.len(),
            out@.len() == i,
            forall|j: int| 0 <= j < i ==> (#[trigger] items@[j]) is Some,
            forall|j: int| 0 <= j < i ==> (#[trigger] out@[j])@ == items@[j]->Some_0@,
        decreases items@.len() - i,
    {
        match &items[i] {
            Some(s) => {
                out.push(s.clone());
            },
            None => {
                assert(items@[i as int] is None);
                return None;
            },
        }
        i += 1;
    }
    assert(views(out@) =~= items@.map_values(|s: Option<String>| s->Some_0@));
    Some(out)
}

/// Whether some text holds something.
fn any_text(texts: &[String]) -> (b: bool)
    ensures
        b == !all_empty(views(texts@)),
{
    let mut i: usize = 0;
    while i < texts.len()
        invariant
            i <= texts@.len(),
            forall|j: int| 0 <= j < i ==> (#[trigger] views(texts@)[j]).len() == 0,
        decreases texts@.len() - i,
    {
        let cs = crate::text::chars_of(texts[i].as_str());
        assert(views(texts@)[i as int] == cs@);
        if cs.len() > 0 {
            return true;
        }
        i += 1;
    }
    false
}

/// The texts to embed.
pub fn embedding_inputs(input: EmbeddingInput) -> (r: Result<Vec<String>, GarudaError>)
    ensures
        match r {
            Ok(texts) => texts_in(input) == Ok::<Seq<Seq<char>>, Seq<char>>(views(texts@)),
            Err(e) => texts_in(input) matches Err(m) && Fault::Inference(m).is(e),
        },
        r matches Ok(texts) ==> match input {
            EmbeddingInput::Text(s) => texts@.len() == 1 && texts@[0]@ == s@ && s@.len() > 0,
            EmbeddingInput::List(items) => texts@.len() == items@.len() <= 256 && forall|i: int|
                0 <= i < texts@.len() ==> items@[i] is Some && (#[trigger] texts@[i])@
                    == items@[i]->Some_0@,
            EmbeddingInput::Other => false,
        },
        input matches EmbeddingInput::Text(s) ==> (s@.len() > 0 ==> r is Ok),
{
    let ghost raw = raw_texts(input);
    let texts = match input {
        EmbeddingInput::Text(s) => {
            let mut v: Vec<String> = Vec::new();
            v.push(s);
            assert(views(v@) =~= seq![s@]);
            v
        },
        EmbeddingInput::List(items) => {
            match strings_of(items) {
                Some(v) => v,
                None => {
                    return Err(
                        GarudaError::Inference("input array must contain only strings".to_owned()),
                    );
                },
            }
        },
        EmbeddingInput::Other => {
            return Err(
                GarudaError::Inference(
                    "input must be a string or an array of strings".to_owned(),
                ),
            );
        },
    };
    assert(raw == Ok::<Seq<Seq<char>>, Seq<char>>(views(texts@)));
    assert(views(texts@).len() == texts@.len());
    assert forall|i: int| 0 <= i < texts@.len() implies views(texts@)[i] == (#[trigger] texts@[i])@ by {}
    if !any_text(texts.as_slice()) {
        assert(texts@.len() > 0 ==> views(texts@)[0].len() == 0);
        return Err(GarudaError::Inference("input must not be empty".to_owned()));
    }
    if texts.len() > MAX_EMBEDDING_INPUTS {
        return Err(GarudaError::Inference("input must hold at most 256 texts".to_owned()));
    }
    Ok(texts)
}

/// Every knob is its own: a request that names a value gets it whatever else it names, two
/// requests that differ in one knob differ in that parameter and in no other, and a request
/// that names nothing changes nothing.
pub proof fn each_knob_is_its_own(
    base: SamplingParams,
    temperature: Option<u32>,
    top_p: Option<u32>,
    top_k: Option<usize>,
    max_tokens: Option<usize>,
    seed: Option<u64>,
    bits: u32,
    count: usize,
    number: u64,
)
    ensures
        ({
            let p = overridden(base, temperature, top_p, top_k, max_tokens, seed);
            &&& overridden(base, Some(bits), top_p, top_k, max_tokens, seed) == (SamplingParams {
                temperature_bits: bits,
                ..p
            })
            &&& overridden(base, temperature, Some(bits), top_k, max_tokens, seed) == (
            SamplingParams { top_p_bits: bits, ..p })
            &&& overridden(base, temperature, top_p, Some(count), max_tokens, seed) == (
            SamplingParams { top_k: count, ..p })
            &&& overridden(base, temperature, top_p, top_k, Some(count), seed) == (SamplingParams {
                max_tokens: count,
                ..p
            })
            &&& overridden(base, temperature, top_p, top_k, max_tokens, Some(number)) == (
            SamplingParams { seed: Some(number), ..p })
        }),
        overridden(base, None, None, None, None, None) == base,
{
}

/// Every error has a status that says whose fault it is, and only a full queue, a rate
/// limit and a timeout are worth trying again.
pub proof fn errors_say_whether_to_retry(e: GarudaError)
    ensures
        400 <= error_class(e).0 <= 599,
        error_class(e).0 == 429 <==> e == GarudaError::RateLimit,
        error_class(e).0 == 503 <==> e == GarudaError::Busy,
        error_class(e).0 == 504 <==> e == GarudaError::Timeout,
{
}

} // verus!
