//! The Anthropic Messages API: content blocks, and a system prompt beside the turns.

use crate::api;
use crate::api::{override_params, ChatMessage};
use crate::chat;
use crate::chat::{encode_chat, render_plain, ChatFormat, Tokenize};
use crate::runtime::StopReason;
use crate::sampling::{SamplingFault, SamplingParams};
use crate::text::{chars_of, same_text};
use crate::types::{GarudaError, Token};
use vstd::prelude::*;
use vstd::string::*;

verus! {

/// A content block: its type and its text, where it has them.
#[derive(Debug)]
pub struct Block {
    pub kind: Option<String>,
    pub text: Option<String>,
}

/// What a message holds: a string, or a list of blocks.
#[derive(Debug)]
pub enum Content {
    Text(String),
    Blocks(Vec<Block>),
    Other,
}

impl Block {
    /// The text that this block adds: that of a text block.
    pub open spec fn words(self) -> Seq<char> {
        if self.kind is Some && self.kind->Some_0@ == "text"@ && self.text is Some {
            self.text->Some_0@
        } else {
            Seq::empty()
        }
    }
}

/// The text of the first `n` blocks.
pub open spec fn block_text(blocks: Seq<Block>, n: int) -> Seq<char>
    decreases n,
{
    if n <= 0 {
        Seq::empty()
    } else {
        block_text(blocks, n - 1) + blocks[n - 1].words()
    }
}

impl Content {
    pub open spec fn words(self) -> Seq<char> {
        match self {
            Content::Text(s) => s@,
            Content::Blocks(blocks) => block_text(blocks@, blocks@.len() as int),
            Content::Other => Seq::empty(),
        }
    }
}

/// Flattens content into plain text.
pub fn text_of(v: &Content) -> (s: String)
    ensures
        s@ == v.words(),
        v matches Content::Text(t) ==> s@ == t@,
        v is Other ==> s@.len() == 0,
{
    match v {
        Content::Text(s) => s.clone(),
        Content::Blocks(blocks) => {
            let mut out = String::new();
            let mut i: usize = 0;
            assert(out@ =~= Seq::<char>::empty());
            while i < blocks.len()
                invariant
                    i <= blocks@.len(),
                    out@ == block_text(blocks@, i as int),
                decreases blocks@.len() - i,
            {
                let ghost before = out@;
                match (&blocks[i].kind, &blocks[i].text) {
                    (Some(kind), Some(text)) => {
                        if same_text(kind.as_str(), "text") {
                            out.append(text.as_str());
                        }
                    },
                    _ => {},
                }
                assert(out@ =~= before + blocks@[i as int].words());
                i += 1;
            }
            out
        },
        Content::Other => {
            let out = String::new();
            assert(out@ =~= Seq::<char>::empty());
            out
        },
    }
}

/// A message as it arrives.
#[derive(Debug)]
pub struct InMessage {
    pub role: String,
    pub content: Content,
}

impl InMessage {
    pub open spec fn turn(self) -> chat::Turn {
        chat::Turn { role: self.role@, content: self.content.words() }
    }
}

pub open spec fn turns_of(messages: Seq<InMessage>) -> Seq<chat::Turn> {
    messages.map_values(|m: InMessage| m.turn())
}

/// The text of a system prompt; nothing where there is none.
pub open spec fn system_words(system: Option<Content>) -> Seq<char> {
    match system {
        Some(c) => c.words(),
        None => Seq::empty(),
    }
}

/// The turns of a request, its system prompt first.
pub open spec fn all_turns(system: Option<Content>, messages: Seq<InMessage>) -> Seq<chat::Turn> {
    if system_words(system).len() == 0 {
        turns_of(messages)
    } else {
        seq![chat::Turn { role: "system"@, content: system_words(system) }] + turns_of(messages)
    }
}

/// The prompt of a request: turns in the checkpoint's markup, or, where it has none, the
/// system prompt on its own and the transcript after it.
pub open spec fn request_tokens<T: Tokenize>(
    fmt: ChatFormat,
    tk: T,
    system: Option<Content>,
    messages: Seq<InMessage>,
) -> Seq<Token> {
    if fmt == ChatFormat::Plain {
        tk.encoded(flat_prompt(system, messages))
    } else {
        chat::chat_tokens(fmt, tk, all_turns(system, messages))
    }
}

pub open spec fn flat_prompt(system: Option<Content>, messages: Seq<InMessage>) -> Seq<char> {
    let transcript = chat::transcript(turns_of(messages)) + "assistant: "@;
    if system_words(system).len() == 0 {
        transcript
    } else {
        system_words(system) + "\n\n"@ + transcript
    }
}

fn system_text(system: &Option<Content>) -> (s: String)
    ensures
        s@ == system_words(*system),
{
    match system {
        Some(c) => text_of(c),
        None => {
            let out = String::new();
            assert(out@ =~= Seq::<char>::empty());
            out
        },
    }
}

fn is_blank(s: &str) -> (b: bool)
    ensures
        b == (s@.len() == 0),
{
    let cs = chars_of(s);
    cs.len() == 0
}

/// Appends the turns of `messages` to `out`.
fn push_turns(out: &mut Vec<ChatMessage>, messages: &[InMessage])
    ensures
        chat::turns_of(final(out)@) == chat::turns_of(old(out)@) + turns_of(messages@),
{
    let ghost before = out@;
    let mut i: usize = 0;
    while i < messages.len()
        invariant
            i <= messages@.len(),
            out@.len() == before.len() + i,
            forall|j: int| 0 <= j < before.len() ==> #[trigger] out@[j] == before[j],
            forall|j: int|
                before.len() <= j < out@.len() ==> (#[trigger] out@[j]).turn() == messages@[j
                    - before.len()].turn(),
        decreases messages@.len() - i,
    {
        out.push(
            ChatMessage {
                role: messages[i].role.clone(),
                content: text_of(&messages[i].content),
            },
        );
        i += 1;
    }
    assert(chat::turns_of(out@) =~= chat::turns_of(before) + turns_of(messages@));
}

/// The prompt of a request.
pub fn prompt_tokens<T: Tokenize>(
    fmt: ChatFormat,
    tk: &T,
    system: &Option<Content>,
    messages: &[InMessage],
) -> (out: Vec<Token>)
    ensures
        out@ == request_tokens(fmt, *tk, *system, messages@),
{
    let sys = system_text(system);
    let mut turns: Vec<ChatMessage> = Vec::new();
    match fmt {
        ChatFormat::Plain => {
            push_turns(&mut turns, messages);
            assert(chat::turns_of(turns@) =~= turns_of(messages@));
            let transcript = render_plain(turns.as_slice());
            if is_blank(sys.as_str()) {
                tk.encode(transcript.as_str())
            } else {
                let mut prompt = sys;
                prompt.append("\n\n");
                prompt.append(transcript.as_str());
                assert(prompt@ =~= flat_prompt(*system, messages@));
                tk.encode(prompt.as_str())
            }
        },
        _ => {
            if !is_blank(sys.as_str()) {
                turns.push(ChatMessage { role: "system".to_owned(), content: sys });
            }
            push_turns(&mut turns, messages);
            assert(chat::turns_of(turns@) =~= all_turns(*system, messages@));
            encode_chat(fmt, tk, turns.as_slice())
        },
    }
}

proof fn block_text_of_both(a: Seq<Block>, b: Seq<Block>, n: int)
    requires
        0 <= n <= b.len(),
    ensures
        block_text(a + b, a.len() + n) == block_text(a, a.len() as int) + block_text(b, n),
    decreases n,
{
    if n > 0 {
        block_text_of_both(a, b, n - 1);
        assert((a + b)[a.len() + n - 1] == b[n - 1]);
        assert(block_text(a, a.len() as int) + block_text(b, n - 1) + b[n - 1].words() =~= block_text(
            a,
            a.len() as int,
        ) + (block_text(b, n - 1) + b[n - 1].words()));
    } else {
        block_text_of_first(a, b, a.len() as int);
        assert(block_text(a, a.len() as int) + block_text(b, 0) =~= block_text(a, a.len() as int));
    }
}

proof fn block_text_of_first(a: Seq<Block>, b: Seq<Block>, n: int)
    requires
        n <= a.len(),
    ensures
        block_text(a + b, n) == block_text(a, n),
    decreases n,
{
    if n > 0 {
        block_text_of_first(a, b, n - 1);
        assert((a + b)[n - 1] == a[n - 1]);
    }
}

/// Blocks read in their order: what the blocks of two lists say, one list after the other, is
/// what the first says and then the second. A text block says its text, any other nothing.
pub proof fn blocks_read_in_order(a: Vec<Block>, b: Vec<Block>, both: Vec<Block>, one: Vec<Block>)
    requires
        both@ == a@ + b@,
        one@.len() == 1,
    ensures
        Content::Blocks(both).words() == Content::Blocks(a).words() + Content::Blocks(b).words(),
        one@[0].kind matches Some(kind) ==> (kind@ == "text"@ ==> (one@[0].text matches Some(text)
            ==> Content::Blocks(one).words() == text@)),
        one@[0].kind is None || one@[0].kind->Some_0@ != "text"@ || one@[0].text is None
            ==> Content::Blocks(one).words().len() == 0,
{
    block_text_of_both(a@, b@, b@.len() as int);
    reveal_with_fuel(block_text, 2);
    assert(Content::Blocks(one).words() =~= one@[0].words());
}

/// A system prompt that says something goes before the turns, as a turn of its own or as text
/// of its own, and takes nothing from them. One that says nothing is as good as none.
pub proof fn system_prompts_come_first<T: Tokenize>(
    fmt: ChatFormat,
    tk: T,
    system: Option<Content>,
    messages: Seq<InMessage>,
)
    ensures
        system is None || system->Some_0.words().len() == 0 ==> request_tokens(
            fmt,
            tk,
            system,
            messages,
        ) == request_tokens(fmt, tk, None, messages),
        system matches Some(c) ==> (c.words().len() > 0 ==> {
            let turns = all_turns(system, messages);
            &&& turns.len() == messages.len() + 1
            &&& turns[0].role == "system"@ && turns[0].content == c.words()
            &&& turns.skip(1) == all_turns(None, messages)
            &&& flat_prompt(system, messages) == c.words() + "\n\n"@ + flat_prompt(None, messages)
        }),
        all_turns(None, messages).len() == messages.len(),
        forall|i: int|
            0 <= i < messages.len() ==> (#[trigger] all_turns(None, messages)[i]).role
                == messages[i].role@ && all_turns(None, messages)[i].content
                == messages[i].content.words(),
{
    if let Some(c) = system {
        assert(all_turns(system, messages).skip(1) =~= all_turns(None, messages) || c.words().len()
            == 0);
    }
}

/// The sampling knobs of a request. There is no seed among them.
#[derive(Debug, Clone, Copy)]
pub struct MessagesParams {
    /// An `f32` bit pattern.
    pub temperature_bits: Option<u32>,
    /// An `f32` bit pattern.
    pub top_p_bits: Option<u32>,
    pub top_k: Option<usize>,
    pub max_tokens: Option<usize>,
}

impl MessagesParams {
    pub open spec fn on(self, base: SamplingParams) -> SamplingParams {
        api::overridden(
            base,
            self.temperature_bits,
            self.top_p_bits,
            self.top_k,
            self.max_tokens,
            None,
        )
    }

    pub fn apply(&self, base: SamplingParams) -> (r: Result<SamplingParams, SamplingFault>)
        ensures
            match r {
                Ok(p) => p == self.on(base) && p.fault() is None,
                Err(f) => self.on(base).fault() == Some(f),
            },
            r matches Ok(p) ==> p.temperature_bits == match self.temperature_bits {
                Some(x) => x,
                None => base.temperature_bits,
            },
            r matches Ok(p) ==> p.top_p_bits == match self.top_p_bits {
                Some(x) => x,
                None => base.top_p_bits,
            },
            r matches Ok(p) ==> p.top_k == match self.top_k {
                Some(x) => x,
                None => base.top_k,
            },
            r matches Ok(p) ==> p.max_tokens == match self.max_tokens {
                Some(x) => x,
                None => base.max_tokens,
            },
            r matches Ok(p) ==> p.seed == base.seed,
    {
        override_params(
            base,
            self.temperature_bits,
            self.top_p_bits,
            self.top_k,
            self.max_tokens,
            None,
        )
    }
}

/// The status and the type of an error.
pub open spec fn error_class(e: GarudaError) -> (u16, Seq<char>) {
    match e {
        GarudaError::RateLimit => (429, "rate_limit_error"@),
        GarudaError::Busy => (503, "overloaded_error"@),
        GarudaError::Config(_) => (400, "invalid_request_error"@),
        GarudaError::Inference(_) => (400, "invalid_request_error"@),
        GarudaError::InvalidToken(_) => (400, "invalid_request_error"@),
        _ => (500, "api_error"@),
    }
}

pub fn map_error(e: &GarudaError) -> (r: (u16, &'static str))
    ensures
        (r.0, r.1@) == error_class(*e),
        *e is RateLimit ==> r.0 == 429 && r.1@ == "rate_limit_error"@,
        *e is Busy ==> r.0 == 503 && r.1@ == "overloaded_error"@,
        *e is Config || *e is Inference || *e is InvalidToken ==> r.0 == 400 && r.1@
            == "invalid_request_error"@,
        !(*e is RateLimit || *e is Busy || *e is Config || *e is Inference
            || *e is InvalidToken) ==> r.0 == 500 && r.1@ == "api_error"@,
{
    match e {
        GarudaError::RateLimit => (429, "rate_limit_error"),
        GarudaError::Busy => (503, "overloaded_error"),
        GarudaError::Config(_) => (400, "invalid_request_error"),
        GarudaError::Inference(_) => (400, "invalid_request_error"),
        GarudaError::InvalidToken(_) => (400, "invalid_request_error"),
        _ => (500, "api_error"),
    }
}

/// Why a message stopped, in the API's words.
pub fn stop_reason(r: StopReason) -> (s: &'static str)
    ensures
        s@ == if r == StopReason::Eos {
            "end_turn"@
        } else {
            "max_tokens"@
        },
{
    match r {
        StopReason::Eos => "end_turn",
        _ => "max_tokens",
    }
}

} // verus!
