//! Rendering chat turns as the tokens a checkpoint was fine-tuned on.
//!
//! The templates that matter all say the same thing in different punctuation: a marker
//! before each role's content, a marker ending the turn, and a trailing marker that
//! hands the floor to the assistant. A family is recognised by the literal markers that
//! its template contains.
//!
//! Turn markers are placed as token ids around content that is encoded on its own, so a
//! message that spells a marker out is text: a user cannot close their own turn and open
//! another.

use crate::api::ChatMessage;
use crate::text;
use crate::text::{chars_of, contains_text, same_text};
use crate::types::Token;
use vstd::prelude::*;
use vstd::string::*;

verus! {

/// A tokenizer, which turns text into tokens and knows the ids of its special pieces.
pub trait Tokenize {
    /// The tokens of a text at the start of a prompt. Each tokenizer has its own.
    open spec fn encoded(&self, text: Seq<char>) -> Seq<Token> {
        arbitrary()
    }

    /// The tokens of a text in the middle of a prompt.
    open spec fn fragment(&self, text: Seq<char>) -> Seq<Token> {
        arbitrary()
    }

    /// The id of a piece of the vocabulary.
    open spec fn id_of(&self, piece: Seq<char>) -> Option<Token> {
        arbitrary()
    }

    /// The end-of-sequence token.
    open spec fn end_of_sequence(&self) -> Token {
        arbitrary()
    }

    /// Encodes a text, with whatever begin-of-sequence the checkpoint asks for.
    fn encode(&self, text: &str) -> (tokens: Vec<Token>)
        ensures
            tokens@ == self.encoded(text@),
    ;

    /// Encodes a text without a begin-of-sequence.
    fn encode_fragment(&self, text: &str) -> (tokens: Vec<Token>)
        ensures
            tokens@ == self.fragment(text@),
    ;

    fn token_id(&self, piece: &str) -> (id: Option<Token>)
        ensures
            id == self.id_of(piece@),
    ;

    fn eos(&self) -> (id: Token)
        ensures
            id == self.end_of_sequence(),
    ;
}

/// The turn markup a checkpoint expects.
#[derive(Debug, Clone, Copy, PartialEq, Eq, Structural)]
pub enum ChatFormat {
    /// `role: content`, ending in `assistant: `. What a checkpoint without a template
    /// gets.
    Plain,
    /// `<|user|>`, content and end of sequence: TinyLlama, Zephyr, StableLM.
    Zephyr,
    /// `<|im_start|>user`, content and `<|im_end|>`: ChatML, as Qwen and OpenHermes use
    /// it.
    ChatMl,
    /// ChatML whose assistant turn begins with a reasoning block, left open when
    /// `thinking` and closed at once when not.
    Reasoning { thinking: bool },
    /// `[INST] content [/INST]`: Mistral and Mixtral.
    Mistral,
    /// `<|start_header_id|>user<|end_header_id|>`, content and `<|eot_id|>`: Llama 3.
    Llama3,
}

/// A turn as contracts speak of it.
pub struct Turn {
    pub role: Seq<char>,
    pub content: Seq<char>,
}

impl ChatMessage {
    pub open spec fn turn(self) -> Turn {
        Turn { role: self.role@, content: self.content@ }
    }
}

/// The turns of a conversation.
pub open spec fn turns_of(messages: Seq<ChatMessage>) -> Seq<Turn> {
    messages.map_values(|m: ChatMessage| m.turn())
}

impl ChatFormat {
    /// The family of a template, by the markers it mentions, most distinctive first.
    pub open spec fn family(template: Option<Seq<char>>) -> ChatFormat {
        match template {
            None => ChatFormat::Plain,
            Some(t) => if text::holds_text(t, "<|start_header_id|>"@) {
                ChatFormat::Llama3
            } else if text::holds_text(t, "<|im_start|>"@) {
                ChatFormat::ChatMl
            } else if text::holds_text(t, "<|assistant|>"@) {
                ChatFormat::Zephyr
            } else if text::holds_text(t, "[INST]"@) {
                ChatFormat::Mistral
            } else {
                ChatFormat::Plain
            },
        }
    }

    /// Which family `template` belongs to.
    pub fn detect(template: Option<&str>) -> (f: Self)
        ensures
            f == ChatFormat::family(
                match template {
                    Some(t) => Some(t@),
                    None => None,
                },
            ),
            template is None ==> f is Plain,
            template matches Some(t) ==> {
                &&& f is Llama3 <==> text::holds_text(t@, "<|start_header_id|>"@)
                &&& f is ChatMl <==> text::holds_text(t@, "<|im_start|>"@) && !(f is Llama3)
                &&& f is Zephyr <==> text::holds_text(t@, "<|assistant|>"@) && !(f is Llama3
                    || f is ChatMl)
                &&& f is Mistral <==> text::holds_text(t@, "[INST]"@) && !(f is Llama3
                    || f is ChatMl || f is Zephyr)
                &&& !(f is Reasoning)
            },
    {
        match template {
            None => ChatFormat::Plain,
            Some(t) => if contains_text(t, "<|start_header_id|>") {
                ChatFormat::Llama3
            } else if contains_text(t, "<|im_start|>") {
                ChatFormat::ChatMl
            } else if contains_text(t, "<|assistant|>") {
                ChatFormat::Zephyr
            } else if contains_text(t, "[INST]") {
                ChatFormat::Mistral
            } else {
                ChatFormat::Plain
            },
        }
    }

    /// The same format for a checkpoint whose ChatML template opens a reasoning block.
    pub open spec fn reasoning(self, thinking: bool) -> ChatFormat {
        if self == ChatFormat::ChatMl {
            ChatFormat::Reasoning { thinking }
        } else {
            self
        }
    }

    pub fn with_thinking(self, thinking: bool) -> (f: Self)
        ensures
            f == self.reasoning(thinking),
            self is ChatMl ==> f == (ChatFormat::Reasoning { thinking }),
            !(self is ChatMl) ==> f == self,
    {
        match self {
            ChatFormat::ChatMl => ChatFormat::Reasoning { thinking },
            _ => self,
        }
    }

    pub open spec fn name(self) -> Seq<char> {
        match self {
            ChatFormat::Plain => "plain"@,
            ChatFormat::Zephyr => "zephyr"@,
            ChatFormat::ChatMl => "chatml"@,
            ChatFormat::Reasoning { .. } => "chatml"@,
            ChatFormat::Mistral => "mistral"@,
            ChatFormat::Llama3 => "llama3"@,
        }
    }

    /// The name this format calls itself, for the startup log.
    pub fn as_str(&self) -> (s: &'static str)
        ensures
            s@ == self.name(),
            self is Plain ==> s@ == "plain"@,
            self is Zephyr ==> s@ == "zephyr"@,
            self is ChatMl || self is Reasoning ==> s@ == "chatml"@,
            self is Mistral ==> s@ == "mistral"@,
            self is Llama3 ==> s@ == "llama3"@,
    {
        match self {
            ChatFormat::Plain => "plain",
            ChatFormat::Zephyr => "zephyr",
            ChatFormat::ChatMl => "chatml",
            ChatFormat::Reasoning { .. } => "chatml",
            ChatFormat::Mistral => "mistral",
            ChatFormat::Llama3 => "llama3",
        }
    }

    pub open spec fn end_marker(self) -> Option<Seq<char>> {
        match self {
            ChatFormat::ChatMl => Some("<|im_end|>"@),
            ChatFormat::Reasoning { .. } => Some("<|im_end|>"@),
            ChatFormat::Llama3 => Some("<|eot_id|>"@),
            _ => None,
        }
    }

    /// The marker ending a turn, when it is not the checkpoint's end of sequence.
    ///
    /// ChatML and Llama 3 end a turn with their own token and keep the end of sequence
    /// for the end of the whole document, so the runtime stops on either.
    pub fn turn_end(&self) -> (r: Option<&'static str>)
        ensures
            match r {
                Some(m) => self.end_marker() == Some(m@),
                None => self.end_marker() is None,
            },
            self is ChatMl || self is Reasoning ==> r is Some && r->Some_0@ == "<|im_end|>"@,
            self is Llama3 ==> r is Some && r->Some_0@ == "<|eot_id|>"@,
            self is Plain || self is Zephyr || self is Mistral ==> r is None,
    {
        match self {
            ChatFormat::ChatMl => Some("<|im_end|>"),
            ChatFormat::Reasoning { .. } => Some("<|im_end|>"),
            ChatFormat::Llama3 => Some("<|eot_id|>"),
            _ => None,
        }
    }

    pub open spec fn prefix(self, role: Seq<char>) -> Seq<char> {
        match self {
            ChatFormat::Zephyr => "<|"@ + role + "|>\n"@,
            ChatFormat::ChatMl => "<|im_start|>"@ + role + "\n"@,
            ChatFormat::Reasoning { .. } => "<|im_start|>"@ + role + "\n"@,
            ChatFormat::Llama3 => "<|start_header_id|>"@ + role + "<|end_header_id|>\n\n"@,
            _ => Seq::empty(),
        }
    }

    /// What precedes a turn's content.
    pub fn turn_prefix(&self, role: &str) -> (s: String)
        ensures
            s@ == self.prefix(role@),
            self is Zephyr ==> s@ == "<|"@ + role@ + "|>\n"@,
            self is ChatMl || self is Reasoning ==> s@ == "<|im_start|>"@ + role@ + "\n"@,
            self is Llama3 ==> s@ == "<|start_header_id|>"@ + role@ + "<|end_header_id|>\n\n"@,
            self is Plain || self is Mistral ==> s@.len() == 0,
    {
        match self {
            ChatFormat::Zephyr => around("<|", role, "|>\n"),
            ChatFormat::ChatMl => around("<|im_start|>", role, "\n"),
            ChatFormat::Reasoning { .. } => around("<|im_start|>", role, "\n"),
            ChatFormat::Llama3 => around("<|start_header_id|>", role, "<|end_header_id|>\n\n"),
            _ => String::new(),
        }
    }

    pub open spec fn gap(self) -> Seq<char> {
        match self {
            ChatFormat::Zephyr => "\n"@,
            ChatFormat::ChatMl => "\n"@,
            ChatFormat::Reasoning { .. } => "\n"@,
            _ => ""@,
        }
    }

    /// What sits between one turn's end marker and the next turn's prefix.
    pub fn separator(&self) -> (s: &'static str)
        ensures
            s@ == self.gap(),
    {
        match self {
            ChatFormat::Zephyr => "\n",
            ChatFormat::ChatMl => "\n",
            ChatFormat::Reasoning { .. } => "\n",
            _ => "",
        }
    }

    pub open spec fn cue(self) -> Seq<char> {
        match self {
            ChatFormat::Zephyr => "<|assistant|>\n"@,
            ChatFormat::ChatMl => "<|im_start|>assistant\n"@,
            ChatFormat::Reasoning { thinking } => if thinking {
                "<|im_start|>assistant\n<think>\n"@
            } else {
                "<|im_start|>assistant\n<think>\n\n</think>\n\n"@
            },
            ChatFormat::Llama3 => "<|start_header_id|>assistant<|end_header_id|>\n\n"@,
            _ => ""@,
        }
    }

    /// The cue that tells the model it is the assistant's turn to speak. The end of a
    /// Mistral instruction is that cue already.
    pub fn generation(&self) -> (s: String)
        ensures
            s@ == self.cue(),
    {
        match self {
            ChatFormat::Zephyr => "<|assistant|>\n".to_owned(),
            ChatFormat::ChatMl => "<|im_start|>assistant\n".to_owned(),
            ChatFormat::Reasoning { thinking } => if *thinking {
                "<|im_start|>assistant\n<think>\n".to_owned()
            } else {
                "<|im_start|>assistant\n<think>\n\n</think>\n\n".to_owned()
            },
            ChatFormat::Llama3 => "<|start_header_id|>assistant<|end_header_id|>\n\n".to_owned(),
            _ => "".to_owned(),
        }
    }
}

fn around(head: &str, body: &str, tail: &str) -> (s: String)
    ensures
        s@ == head@ + body@ + tail@,
{
    let mut s = head.to_owned();
    s.append(body);
    s.append(tail);
    s
}

fn is_blank(s: &str) -> (r: bool)
    ensures
        r == (s@.len() == 0),
{
    let cs = chars_of(s);
    cs.len() == 0
}

/// A piece of the prompt: text to encode, or a control token to place verbatim.
#[derive(Debug, Clone)]
pub enum Seg {
    Text(String),
    Control(Token),
}

#[verifier::ext_equal]
pub enum SegView {
    Text(Seq<char>),
    Control(Token),
}

impl View for Seg {
    type V = SegView;

    open spec fn view(&self) -> SegView {
        match self {
            Seg::Text(s) => SegView::Text(s@),
            Seg::Control(t) => SegView::Control(*t),
        }
    }
}

/// What a list of pieces holds.
pub open spec fn pieces(segs: Seq<Seg>) -> Seq<SegView> {
    segs.map_values(|s: Seg| s@)
}

/// The pieces of a conversation whose turns each end in a marker.
pub open spec fn marked(fmt: ChatFormat, turns: Seq<Turn>, end: Token) -> Seq<SegView>
    decreases turns.len(),
{
    if turns.len() == 0 {
        Seq::empty()
    } else {
        marked(fmt, turns.drop_last(), end).push(
            SegView::Text(fmt.prefix(turns.last().role) + turns.last().content),
        ).push(SegView::Control(end))
    }
}

/// The system text that waits for a user turn to join.
pub open spec fn waiting_system(turns: Seq<Turn>) -> Seq<char>
    decreases turns.len(),
{
    if turns.len() == 0 {
        Seq::empty()
    } else {
        let before = waiting_system(turns.drop_last());
        let t = turns.last();
        if t.role == "system"@ {
            if before.len() == 0 {
                t.content
            } else {
                before + "\n\n"@ + t.content
            }
        } else if t.role == "assistant"@ {
            before
        } else {
            Seq::empty()
        }
    }
}

pub open spec fn instruction(body: Seq<char>) -> SegView {
    SegView::Text("[INST] "@ + body + " [/INST]"@)
}

/// The pieces of a Mistral conversation, but for system text that still waits.
pub open spec fn instructed(turns: Seq<Turn>, end: Token) -> Seq<SegView>
    decreases turns.len(),
{
    if turns.len() == 0 {
        Seq::empty()
    } else {
        let before = instructed(turns.drop_last(), end);
        let system = waiting_system(turns.drop_last());
        let t = turns.last();
        if t.role == "system"@ {
            before
        } else if t.role == "assistant"@ {
            before.push(SegView::Text(t.content)).push(SegView::Control(end))
        } else if system.len() == 0 {
            before.push(instruction(t.content))
        } else {
            before.push(instruction(system + "\n\n"@ + t.content))
        }
    }
}

/// The pieces of a conversation.
pub open spec fn segments(fmt: ChatFormat, turns: Seq<Turn>, end: Token) -> Seq<SegView> {
    if fmt == ChatFormat::Mistral {
        if waiting_system(turns).len() == 0 {
            instructed(turns, end)
        } else {
            instructed(turns, end).push(instruction(waiting_system(turns)))
        }
    } else {
        marked(fmt, turns, end).push(SegView::Text(fmt.cue()))
    }
}

/// The text of piece `i`: a separator stands before text that follows a marker.
pub open spec fn text_at(segs: Seq<SegView>, gap: Seq<char>, i: int) -> Seq<char> {
    match segs[i] {
        SegView::Control(_) => Seq::empty(),
        SegView::Text(t) => if i > 0 && segs[i - 1] is Control {
            gap + t
        } else {
            t
        },
    }
}

/// Some text stands before piece `n`.
pub open spec fn has_text(segs: Seq<SegView>, gap: Seq<char>, n: int) -> bool {
    exists|i: int| 0 <= i < n && #[trigger] text_at(segs, gap, i).len() > 0
}

/// The tokens of piece `i`. Only the first text of a prompt carries what the checkpoint
/// puts at its beginning.
pub open spec fn tokens_at<T: Tokenize>(
    tk: T,
    segs: Seq<SegView>,
    gap: Seq<char>,
    i: int,
) -> Seq<Token> {
    match segs[i] {
        SegView::Control(t) => seq![t],
        SegView::Text(_) => {
            let t = text_at(segs, gap, i);
            if t.len() == 0 {
                Seq::empty()
            } else if has_text(segs, gap, i) {
                tk.fragment(t)
            } else {
                tk.encoded(t)
            }
        },
    }
}

/// The tokens of the first `n` pieces, one after another.
pub open spec fn assembled<T: Tokenize>(
    tk: T,
    segs: Seq<SegView>,
    gap: Seq<char>,
    n: int,
) -> Seq<Token>
    decreases n,
{
    if n <= 0 {
        Seq::empty()
    } else {
        assembled(tk, segs, gap, n - 1) + tokens_at(tk, segs, gap, n - 1)
    }
}

/// The role-prefixed transcript.
pub open spec fn transcript(turns: Seq<Turn>) -> Seq<char>
    decreases turns.len(),
{
    if turns.len() == 0 {
        Seq::empty()
    } else {
        transcript(turns.drop_last()) + turns.last().role + ": "@ + turns.last().content + "\n"@
    }
}

/// The token that ends a turn. A format whose marker is missing from the vocabulary falls
/// back to the end of sequence.
pub open spec fn end_token<T: Tokenize>(fmt: ChatFormat, tk: T) -> Token {
    match fmt.end_marker() {
        None => tk.end_of_sequence(),
        Some(m) => match tk.id_of(m) {
            Some(id) => id,
            None => tk.end_of_sequence(),
        },
    }
}

/// The prompt that a conversation makes.
pub open spec fn chat_tokens<T: Tokenize>(fmt: ChatFormat, tk: T, turns: Seq<Turn>) -> Seq<Token> {
    if fmt == ChatFormat::Plain {
        tk.encoded(transcript(turns) + "assistant: "@)
    } else {
        let segs = segments(fmt, turns, end_token(fmt, tk));
        assembled(tk, segs, fmt.gap(), segs.len() as int)
    }
}

/// The role-prefixed transcript used when a checkpoint names no template.
pub fn render_plain(turns: &[ChatMessage]) -> (p: String)
    ensures
        p@ == transcript(turns_of(turns@)) + "assistant: "@,
        turns@.len() == 0 ==> p@ == "assistant: "@,
        turns@.len() == 1 ==> p@ == turns@[0].role@ + ": "@ + turns@[0].content@ + "\n"@
            + "assistant: "@,
{
    let mut p = String::new();
    let mut i: usize = 0;
    assert(turns_of(turns@).take(0) =~= Seq::<Turn>::empty());
    while i < turns.len()
        invariant
            i <= turns@.len(),
            p@ == transcript(turns_of(turns@).take(i as int)),
        decreases turns@.len() - i,
    {
        proof {
            let next = turns_of(turns@).take(i + 1);
            assert(next.drop_last() =~= turns_of(turns@).take(i as int));
            assert(next.last() == turns@[i as int].turn());
        }
        p.append(turns[i].role.as_str());
        p.append(": ");
        p.append(turns[i].content.as_str());
        p.append("\n");
        i += 1;
    }
    assert(turns_of(turns@).take(turns@.len() as int) =~= turns_of(turns@));
    proof {
        assert(turns@.len() == 0 ==> p@ + "assistant: "@ =~= "assistant: "@);
        if turns@.len() == 1 {
            assert(turns_of(turns@).drop_last() =~= Seq::<Turn>::empty());
            assert(p@ =~= turns@[0].role@ + ": "@ + turns@[0].content@ + "\n"@);
        }
    }
    p.append("assistant: ");
    p
}

fn marked_segments(fmt: ChatFormat, turns: &[ChatMessage], end: Token) -> (segs: Vec<Seg>)
    requires
        fmt != ChatFormat::Mistral,
    ensures
        pieces(segs@) == segments(fmt, turns_of(turns@), end),
{
    let mut segs: Vec<Seg> = Vec::new();
    let mut i: usize = 0;
    assert(turns_of(turns@).take(0) =~= Seq::<Turn>::empty());
    assert(pieces(segs@) =~= Seq::<SegView>::empty());
    while i < turns.len()
        invariant
            i <= turns@.len(),
            pieces(segs@) == marked(fmt, turns_of(turns@).take(i as int), end),
        decreases turns@.len() - i,
    {
        let ghost before = segs@;
        proof {
            let next = turns_of(turns@).take(i + 1);
            assert(next.drop_last() =~= turns_of(turns@).take(i as int));
            assert(next.last() == turns@[i as int].turn());
        }
        let mut t = fmt.turn_prefix(turns[i].role.as_str());
        t.append(turns[i].content.as_str());
        let ghost text = t@;
        segs.push(Seg::Text(t));
        segs.push(Seg::Control(end));
        assert(pieces(segs@) =~= pieces(before).push(SegView::Text(text)).push(
            SegView::Control(end),
        ));
        i += 1;
    }
    assert(turns_of(turns@).take(turns@.len() as int) =~= turns_of(turns@));
    let ghost before = segs@;
    segs.push(Seg::Text(fmt.generation()));
    assert(pieces(segs@) =~= pieces(before).push(SegView::Text(fmt.cue())));
    segs
}

/// The pieces of a Mistral conversation. There is no system role: system text joins the
/// user turn that follows. An assistant turn is bare content and an end marker; a user
/// turn is an instruction, whose end is the cue for the reply.
pub fn mistral_segments(turns: &[ChatMessage], end: Token) -> (segs: Vec<Seg>)
    ensures
        pieces(segs@) == segments(ChatFormat::Mistral, turns_of(turns@), end),
{
    let mut segs: Vec<Seg> = Vec::new();
    let mut system = String::new();
    let mut i: usize = 0;
    assert(turns_of(turns@).take(0) =~= Seq::<Turn>::empty());
    assert(pieces(segs@) =~= Seq::<SegView>::empty());
    while i < turns.len()
        invariant
            i <= turns@.len(),
            pieces(segs@) == instructed(turns_of(turns@).take(i as int), end),
            system@ == waiting_system(turns_of(turns@).take(i as int)),
        decreases turns@.len() - i,
    {
        let ghost before = segs@;
        proof {
            let next = turns_of(turns@).take(i + 1);
            assert(next.drop_last() =~= turns_of(turns@).take(i as int));
            assert(next.last() == turns@[i as int].turn());
        }
        let content = turns[i].content.as_str();
        if same_text(turns[i].role.as_str(), "system") {
            if is_blank(system.as_str()) {
                assert(system@ =~= Seq::<char>::empty());
                system.append(content);
                assert(system@ =~= content@);
            } else {
                system.append("\n\n");
                system.append(content);
            }
        } else if same_text(turns[i].role.as_str(), "assistant") {
            segs.push(Seg::Text(content.to_owned()));
            segs.push(Seg::Control(end));
            assert(pieces(segs@) =~= pieces(before).push(SegView::Text(content@)).push(
                SegView::Control(end),
            ));
        } else {
            let body = if is_blank(system.as_str()) {
                content.to_owned()
            } else {
                around(system.as_str(), "\n\n", content)
            };
            segs.push(Seg::Text(around("[INST] ", body.as_str(), " [/INST]")));
            assert(pieces(segs@) =~= pieces(before).push(instruction(body@)));
            system = String::new();
        }
        i += 1;
    }
    assert(turns_of(turns@).take(turns@.len() as int) =~= turns_of(turns@));
    if !is_blank(system.as_str()) {
        let ghost before = segs@;
        segs.push(Seg::Text(around("[INST] ", system.as_str(), " [/INST]")));
        assert(pieces(segs@) =~= pieces(before).push(instruction(system@)));
    }
    segs
}

/// Places control tokens as they are and encodes text, each piece on its own.
fn assemble<T: Tokenize>(tk: &T, segs: &[Seg], gap: &str) -> (out: Vec<Token>)
    ensures
        out@ == assembled(*tk, pieces(segs@), gap@, segs@.len() as int),
{
    let mut out: Vec<Token> = Vec::new();
    let mut first = true;
    let mut pending = false;
    let mut i: usize = 0;
    let ghost view = pieces(segs@);
    while i < segs.len()
        invariant
            i <= segs@.len(),
            view == pieces(segs@),
            out@ == assembled(*tk, view, gap@, i as int),
            first == !has_text(view, gap@, i as int),
            pending == (i > 0 && view[i - 1] is Control),
        decreases segs@.len() - i,
    {
        assert(view[i as int] == segs@[i as int]@);
        match &segs[i] {
            Seg::Control(t) => {
                out.push(*t);
                pending = true;
                assert(text_at(view, gap@, i as int).len() == 0);
                assert(tokens_at(*tk, view, gap@, i as int) =~= seq![*t]);
            },
            Seg::Text(t) => {
                let mut piece = String::new();
                if pending {
                    piece.append(gap);
                }
                piece.append(t.as_str());
                pending = false;
                assert(piece@ =~= text_at(view, gap@, i as int));
                if !is_blank(piece.as_str()) {
                    let mut tokens = if first {
                        tk.encode(piece.as_str())
                    } else {
                        tk.encode_fragment(piece.as_str())
                    };
                    assert(tokens@ == tokens_at(*tk, view, gap@, i as int));
                    out.append(&mut tokens);
                    first = false;
                    assert(has_text(view, gap@, i + 1));
                }
            },
        }
        proof {
            assert(has_text(view, gap@, i + 1) == (has_text(view, gap@, i as int) || text_at(
                view,
                gap@,
                i as int,
            ).len() > 0)) by {
                if has_text(view, gap@, i as int) {
                    let w = choose|w: int|
                        0 <= w < i && #[trigger] text_at(view, gap@, w).len() > 0;
                    assert(text_at(view, gap@, w).len() > 0);
                }
            }
            assert(out@ =~= assembled(*tk, view, gap@, i + 1));
        }
        i += 1;
    }
    out
}

/// Turns into the exact token sequence that `fmt` calls for.
pub fn encode_chat<T: Tokenize>(fmt: ChatFormat, tk: &T, turns: &[ChatMessage]) -> (out: Vec<Token>)
    ensures
        out@ == chat_tokens(fmt, *tk, turns_of(turns@)),
{
    match fmt {
        ChatFormat::Plain => {
            return tk.encode(render_plain(turns).as_str());
        },
        _ => {},
    }
    let end: Token = match fmt.turn_end() {
        None => tk.eos(),
        Some(m) => match tk.token_id(m) {
            Some(id) => id,
            None => tk.eos(),
        },
    };
    let segs = match fmt {
        ChatFormat::Mistral => mistral_segments(turns, end),
        _ => marked_segments(fmt, turns, end),
    };
    assemble(tk, segs.as_slice(), fmt.separator())
}

/// How often `t` occurs in `s`.
pub open spec fn times(s: Seq<Token>, t: Token) -> nat
    decreases s.len(),
{
    if s.len() == 0 {
        0
    } else {
        times(s.drop_last(), t) + if s.last() == t {
            1nat
        } else {
            0nat
        }
    }
}

proof fn times_of_sum(a: Seq<Token>, b: Seq<Token>, t: Token)
    ensures
        times(a + b, t) == times(a, t) + times(b, t),
    decreases b.len(),
{
    if b.len() == 0 {
        assert(a + b =~= a);
    } else {
        times_of_sum(a, b.drop_last(), t);
        assert((a + b).drop_last() =~= a + b.drop_last());
        assert((a + b).last() == b.last());
    }
}

proof fn times_of_one(a: Token, t: Token)
    ensures
        times(seq![a], t) == if a == t {
            1nat
        } else {
            0nat
        },
{
    assert(seq![a].drop_last() =~= Seq::<Token>::empty());
    assert(times(Seq::<Token>::empty(), t) == 0);
    assert(seq![a].last() == a);
}

/// How many markers a list of pieces places.
pub open spec fn markers(segs: Seq<SegView>) -> nat
    decreases segs.len(),
{
    if segs.len() == 0 {
        0
    } else {
        markers(segs.drop_last()) + if segs.last() is Control {
            1nat
        } else {
            0nat
        }
    }
}

proof fn markers_of_push(segs: Seq<SegView>, s: SegView)
    ensures
        markers(segs.push(s)) == markers(segs) + if s is Control {
            1nat
        } else {
            0nat
        },
{
    assert(segs.push(s).drop_last() =~= segs);
}

/// Every marker that is placed is `end`.
pub open spec fn ends_with(segs: Seq<SegView>, end: Token) -> bool {
    forall|i: int| 0 <= i < segs.len() && (#[trigger] segs[i]) is Control ==> segs[i]
        == SegView::Control(end)
}

/// No text that the tokenizer encodes comes out with the token `t`.
pub open spec fn text_never_yields<T: Tokenize>(tk: T, t: Token) -> bool {
    &&& forall|s: Seq<char>| times(#[trigger] tk.encoded(s), t) == 0
    &&& forall|s: Seq<char>| times(#[trigger] tk.fragment(s), t) == 0
}

/// A token that no text yields occurs in a prompt as often as it is placed.
proof fn placed_tokens_are_counted<T: Tokenize>(
    tk: T,
    segs: Seq<SegView>,
    gap: Seq<char>,
    end: Token,
    n: int,
)
    requires
        0 <= n <= segs.len(),
        ends_with(segs, end),
        text_never_yields(tk, end),
    ensures
        times(assembled(tk, segs, gap, n), end) == markers(segs.take(n)),
    decreases n,
{
    if n > 0 {
        placed_tokens_are_counted(tk, segs, gap, end, n - 1);
        let ts = tokens_at(tk, segs, gap, n - 1);
        times_of_sum(assembled(tk, segs, gap, n - 1), ts, end);
        assert(segs.take(n).drop_last() =~= segs.take(n - 1));
        assert(segs.take(n).last() == segs[n - 1]);
        times_of_one(end, end);
        match segs[n - 1] {
            SegView::Control(t) => {
                assert(segs[n - 1] is Control);
                assert(ts == seq![end]);
            },
            SegView::Text(_) => {
                let t = text_at(segs, gap, n - 1);
                assert(times(tk.encoded(t), end) == 0);
                assert(times(tk.fragment(t), end) == 0);
            },
        }
    }
}

proof fn marked_places_one_per_turn(fmt: ChatFormat, turns: Seq<Turn>, end: Token)
    ensures
        markers(marked(fmt, turns, end)) == turns.len(),
        ends_with(marked(fmt, turns, end), end),
    decreases turns.len(),
{
    if turns.len() > 0 {
        marked_places_one_per_turn(fmt, turns.drop_last(), end);
        let before = marked(fmt, turns.drop_last(), end);
        let t = SegView::Text(fmt.prefix(turns.last().role) + turns.last().content);
        markers_of_push(before, t);
        markers_of_push(before.push(t), SegView::Control(end));
        let all = marked(fmt, turns, end);
        assert forall|i: int| 0 <= i < all.len() && (#[trigger] all[i]) is Control implies all[i]
            == SegView::Control(end) by {
            if i < before.len() {
                assert(all[i] == before[i]);
            }
        }
    }
}

/// How many turns the assistant has taken.
pub open spec fn answers(turns: Seq<Turn>) -> nat
    decreases turns.len(),
{
    if turns.len() == 0 {
        0
    } else {
        answers(turns.drop_last()) + if turns.last().role == "assistant"@ {
            1nat
        } else {
            0nat
        }
    }
}

proof fn instructed_places_one_per_answer(turns: Seq<Turn>, end: Token)
    ensures
        markers(instructed(turns, end)) == answers(turns),
        ends_with(instructed(turns, end), end),
    decreases turns.len(),
{
    reveal_strlit("system");
    reveal_strlit("assistant");
    assert("system"@.len() != "assistant"@.len());
    if turns.len() > 0 {
        instructed_places_one_per_answer(turns.drop_last(), end);
        let before = instructed(turns.drop_last(), end);
        let all = instructed(turns, end);
        let t = turns.last();
        let system = waiting_system(turns.drop_last());
        markers_of_push(before, SegView::Text(t.content));
        markers_of_push(before.push(SegView::Text(t.content)), SegView::Control(end));
        markers_of_push(before, instruction(t.content));
        markers_of_push(before, instruction(system + "\n\n"@ + t.content));
        assert forall|i: int| 0 <= i < all.len() && (#[trigger] all[i]) is Control implies all[i]
            == SegView::Control(end) by {
            if i < before.len() {
                assert(all[i] == before[i]);
            }
        }
    }
}

/// Nobody but the server ends a turn. Where no text encodes to the token that ends a
/// turn, that token occurs in a prompt once for every turn, or, in a Mistral
/// conversation, once for every answer, whatever the messages say.
pub proof fn only_the_server_ends_a_turn<T: Tokenize>(fmt: ChatFormat, tk: T, turns: Seq<Turn>)
    requires
        fmt != ChatFormat::Plain,
        text_never_yields(tk, end_token(fmt, tk)),
    ensures
        times(chat_tokens(fmt, tk, turns), end_token(fmt, tk)) == if fmt == ChatFormat::Mistral {
            answers(turns)
        } else {
            turns.len()
        },
{
    let end = end_token(fmt, tk);
    let segs = segments(fmt, turns, end);
    assert(segs.take(segs.len() as int) =~= segs);
    if fmt == ChatFormat::Mistral {
        instructed_places_one_per_answer(turns, end);
        markers_of_push(instructed(turns, end), instruction(waiting_system(turns)));
        let base = instructed(turns, end);
        assert forall|i: int| 0 <= i < segs.len() && (#[trigger] segs[i]) is Control implies segs[i]
            == SegView::Control(end) by {
            if i < base.len() {
                assert(segs[i] == base[i]);
            }
        }
    } else {
        marked_places_one_per_turn(fmt, turns, end);
        markers_of_push(marked(fmt, turns, end), SegView::Text(fmt.cue()));
        let base = marked(fmt, turns, end);
        assert forall|i: int| 0 <= i < segs.len() && (#[trigger] segs[i]) is Control implies segs[i]
            == SegView::Control(end) by {
            if i < base.len() {
                assert(segs[i] == base[i]);
            }
        }
    }
    placed_tokens_are_counted(tk, segs, fmt.gap(), end, segs.len() as int);
}

/// `bos` is what the tokenizer puts at the start of a prompt, and nowhere else.
pub open spec fn begins_with<T: Tokenize>(tk: T, bos: Token) -> bool {
    &&& forall|s: Seq<char>| times(#[trigger] tk.encoded(s), bos) == 1
    &&& forall|s: Seq<char>| times(#[trigger] tk.fragment(s), bos) == 0
}

proof fn beginnings_are_counted<T: Tokenize>(
    tk: T,
    segs: Seq<SegView>,
    gap: Seq<char>,
    end: Token,
    bos: Token,
    n: int,
)
    requires
        0 <= n <= segs.len(),
        ends_with(segs, end),
        begins_with(tk, bos),
        end != bos,
    ensures
        times(assembled(tk, segs, gap, n), bos) == if has_text(segs, gap, n) {
            1nat
        } else {
            0nat
        },
    decreases n,
{
    if n > 0 {
        beginnings_are_counted(tk, segs, gap, end, bos, n - 1);
        let ts = tokens_at(tk, segs, gap, n - 1);
        times_of_sum(assembled(tk, segs, gap, n - 1), ts, bos);
        times_of_one(end, bos);
        let t = text_at(segs, gap, n - 1);
        assert(times(tk.encoded(t), bos) == 1);
        assert(times(tk.fragment(t), bos) == 0);
        if has_text(segs, gap, n - 1) {
            let w = choose|w: int| 0 <= w < n - 1 && #[trigger] text_at(segs, gap, w).len() > 0;
            assert(text_at(segs, gap, w).len() > 0);
            assert(has_text(segs, gap, n));
        } else if t.len() > 0 {
            assert(has_text(segs, gap, n));
        }
        if segs[n - 1] is Control {
            assert(ts == seq![end]);
        }
    }
}

/// A conversation begins once, however many turns it has: the begin-of-sequence token
/// stands in a prompt exactly once wherever the prompt holds any text, which every
/// format but Mistral's guarantees.
pub proof fn a_prompt_begins_once<T: Tokenize>(
    fmt: ChatFormat,
    tk: T,
    turns: Seq<Turn>,
    bos: Token,
)
    requires
        begins_with(tk, bos),
        end_token(fmt, tk) != bos,
    ensures
        times(chat_tokens(fmt, tk, turns), bos) <= 1,
        fmt != ChatFormat::Mistral ==> times(chat_tokens(fmt, tk, turns), bos) == 1,
{
    let end = end_token(fmt, tk);
    let segs = segments(fmt, turns, end);
    if fmt == ChatFormat::Plain {
        assert(times(tk.encoded(transcript(turns) + "assistant: "@), bos) == 1);
    } else if fmt == ChatFormat::Mistral {
        instructed_places_one_per_answer(turns, end);
        let base = instructed(turns, end);
        assert forall|i: int| 0 <= i < segs.len() && (#[trigger] segs[i]) is Control implies segs[i]
            == SegView::Control(end) by {
            if i < base.len() {
                assert(segs[i] == base[i]);
            }
        }
        beginnings_are_counted(tk, segs, fmt.gap(), end, bos, segs.len() as int);
    } else {
        marked_places_one_per_turn(fmt, turns, end);
        let base = marked(fmt, turns, end);
        assert forall|i: int| 0 <= i < segs.len() && (#[trigger] segs[i]) is Control implies segs[i]
            == SegView::Control(end) by {
            if i < base.len() {
                assert(segs[i] == base[i]);
            }
        }
        beginnings_are_counted(tk, segs, fmt.gap(), end, bos, segs.len() as int);
        reveal_strlit("<|assistant|>\n");
        reveal_strlit("<|im_start|>assistant\n");
        reveal_strlit("<|im_start|>assistant\n<think>\n");
        reveal_strlit("<|im_start|>assistant\n<think>\n\n</think>\n\n");
        reveal_strlit("<|start_header_id|>assistant<|end_header_id|>\n\n");
        assert(fmt.cue().len() > 0);
        assert(text_at(segs, fmt.gap(), segs.len() - 1).len() > 0);
        assert(has_text(segs, fmt.gap(), segs.len() as int));
    }
}

} // verus!
