//! What every front end shares: rendering a conversation, collecting a reply, and
//! cutting one into pieces.

use crate::api::ChatMessage;
use crate::chat;
use crate::chat::render_plain;
use crate::runtime::StopReason;
use crate::scheduler::StreamEvent;
use crate::types::{GarudaError, Token};
use vstd::prelude::*;
use vstd::string::*;

verus! {

/// One normalised streaming event, independent of any wire format.
#[derive(Debug)]
pub enum Piece {
    /// A run of decoded text, never empty.
    Text(String),
    /// The reply finished, with the reason it stopped.
    Done(StopReason),
    /// The request failed mid-stream.
    Error(GarudaError),
}

/// A fully collected reply.
#[derive(Debug)]
pub struct Reply {
    pub text: String,
    pub reason: StopReason,
    /// Tokens generated.
    pub tokens: usize,
}

/// Flattens chat turns into one transcript.
pub fn render_chat(turns: &[ChatMessage]) -> (p: String)
    ensures
        p@ == chat::transcript(chat::turns_of(turns@)) + "assistant: "@,
{
    render_plain(turns)
}

/// The tokens before the event that ends a stream.
pub open spec fn tokens_before(events: Seq<StreamEvent>, n: int) -> Seq<Token>
    decreases n,
{
    if n <= 0 {
        Seq::empty()
    } else {
        match events[n - 1] {
            StreamEvent::Token(t) => tokens_before(events, n - 1).push(t),
            _ => tokens_before(events, n - 1),
        }
    }
}

/// How a reply comes out.
#[derive(Debug)]
pub enum Outcome {
    /// It finished.
    Done(StopReason),
    /// It failed.
    Failed(GarudaError),
}

/// A reply that is being collected.
#[derive(Debug)]
pub struct Collector {
    tokens: Vec<Token>,
    outcome: Option<Outcome>,
}

#[verifier::ext_equal]
pub struct CollectorView {
    pub tokens: Seq<Token>,
    pub outcome: Option<Outcome>,
}

impl View for Collector {
    type V = CollectorView;

    closed spec fn view(&self) -> CollectorView {
        CollectorView { tokens: self.tokens@, outcome: self.outcome }
    }
}

impl CollectorView {
    /// The reply after one more event. Nothing that comes after its end changes it.
    pub open spec fn after(self, event: StreamEvent) -> CollectorView {
        if self.outcome is Some {
            self
        } else {
            match event {
                StreamEvent::Token(t) => CollectorView { tokens: self.tokens.push(t), ..self },
                StreamEvent::Done(r) => CollectorView { outcome: Some(Outcome::Done(r)), ..self },
                StreamEvent::Error(e) => CollectorView {
                    outcome: Some(Outcome::Failed(e)),
                    ..self
                },
            }
        }
    }

    pub open spec fn empty() -> CollectorView {
        CollectorView { tokens: Seq::empty(), outcome: None }
    }

    /// The reply after a run of events.
    pub open spec fn over(events: Seq<StreamEvent>) -> CollectorView
        decreases events.len(),
    {
        if events.len() == 0 {
            CollectorView::empty()
        } else {
            CollectorView::over(events.drop_last()).after(events.last())
        }
    }
}

impl Collector {
    pub fn new() -> (c: Self)
        ensures
            c@ == CollectorView::empty(),
    {
        Collector { tokens: Vec::new(), outcome: None }
    }

    /// Takes one event. True once the reply has ended and no more is needed.
    pub fn take(&mut self, event: StreamEvent) -> (ended: bool)
        ensures
            final(self)@ == old(self)@.after(event),
            ended == (final(self)@.outcome is Some),
            old(self)@.outcome is Some ==> final(self)@ == old(self)@,
            old(self)@.outcome is None ==> match event {
                StreamEvent::Token(t) => {
                    &&& final(self)@.tokens == old(self)@.tokens.push(t)
                    &&& final(self)@.outcome is None
                },
                StreamEvent::Done(reason) => {
                    &&& final(self)@.tokens == old(self)@.tokens
                    &&& final(self)@.outcome == Some(Outcome::Done(reason))
                },
                StreamEvent::Error(e) => {
                    &&& final(self)@.tokens == old(self)@.tokens
                    &&& final(self)@.outcome == Some(Outcome::Failed(e))
                },
            },
    {
        if self.outcome.is_some() {
            return true;
        }
        match event {
            StreamEvent::Token(t) => {
                self.tokens.push(t);
                false
            },
            StreamEvent::Done(r) => {
                self.outcome = Some(Outcome::Done(r));
                true
            },
            StreamEvent::Error(e) => {
                self.outcome = Some(Outcome::Failed(e));
                true
            },
        }
    }

    /// The tokens of the reply and why it stopped, to be decoded. A stream that closed
    /// without saying how is an error.
    pub fn finish(self) -> (r: Result<(Vec<Token>, StopReason), GarudaError>)
        ensures
            match self@.outcome {
                Some(Outcome::Done(reason)) => r matches Ok(t) && t.0@ == self@.tokens && t.1
                    == reason,
                Some(Outcome::Failed(e)) => r matches Err(f) && f == e,
                None => r matches Err(GarudaError::Scheduler(m)) && m@
                    == "stream ended without a result"@,
            },
    {
        match self.outcome {
            Some(Outcome::Done(reason)) => Ok((self.tokens, reason)),
            Some(Outcome::Failed(e)) => Err(e),
            None => Err(GarudaError::Scheduler("stream ended without a result".to_owned())),
        }
    }
}

/// The reply whose tokens decode to `text`.
pub fn reply(text: String, reason: StopReason, tokens: usize) -> (r: Reply)
    ensures
        r.text@ == text@,
        r.reason == reason,
        r.tokens == tokens,
{
    Reply { text, reason, tokens }
}

/// The piece that newly decoded text makes, if there is any.
pub fn text_piece(text: String) -> (p: Option<Piece>)
    ensures
        match p {
            Some(Piece::Text(t)) => t@ == text@ && text@.len() > 0,
            Some(_) => false,
            None => text@.len() == 0,
        },
{
    if text_is_empty(text.as_str()) {
        None
    } else {
        Some(Piece::Text(text))
    }
}

fn text_is_empty(s: &str) -> (b: bool)
    ensures
        b == (s@.len() == 0),
{
    let cs = crate::text::chars_of(s);
    cs.len() == 0
}

/// The pieces that end a reply: what the decoder still held, and the reason it stopped.
pub fn last_pieces(tail: String, reason: StopReason) -> (out: Vec<Piece>)
    ensures
        out@.len() == if tail@.len() == 0 {
            1nat
        } else {
            2nat
        },
        out@.last() == Piece::Done(reason),
        tail@.len() > 0 ==> (out@[0] matches Piece::Text(t) && t@ == tail@),
{
    let mut out: Vec<Piece> = Vec::new();
    match text_piece(tail) {
        Some(p) => {
            out.push(p);
        },
        None => {},
    }
    out.push(Piece::Done(reason));
    out
}

/// What a front end has passed on of a streamed reply.
#[derive(Debug)]
pub struct Tally {
    text: String,
    pieces: usize,
}

#[verifier::ext_equal]
pub struct TallyView {
    pub text: Seq<char>,
    pub pieces: nat,
}

impl View for Tally {
    type V = TallyView;

    closed spec fn view(&self) -> TallyView {
        TallyView { text: self.text@, pieces: self.pieces as nat }
    }
}

impl Tally {
    pub fn new() -> (t: Self)
        ensures
            t@ == (TallyView { text: Seq::empty(), pieces: 0 }),
    {
        let t = Tally { text: String::new(), pieces: 0 };
        assert(t@.text =~= Seq::<char>::empty());
        t
    }

    /// Counts a run of text. A count that could go no further stays where it is.
    pub fn pass(&mut self, text: &str)
        ensures
            final(self)@.text == old(self)@.text + text@,
            final(self)@.pieces == if old(self)@.pieces < usize::MAX {
                old(self)@.pieces + 1
            } else {
                old(self)@.pieces
            },
    {
        self.text.append(text);
        self.pieces = self.pieces.saturating_add(1);
    }

    /// True before the first piece, which names the speaker.
    pub fn is_first(&self) -> (b: bool)
        ensures
            b == (self@.pieces == 0),
    {
        self.pieces == 0
    }

    pub fn pieces(&self) -> (n: usize)
        ensures
            n == self@.pieces,
    {
        self.pieces
    }

    /// The whole text so far.
    pub fn text(&self) -> (s: &str)
        ensures
            s@ == self@.text,
    {
        self.text.as_str()
    }
}

/// A stream is read up to the event that ends it and no further: what follows changes
/// neither the tokens nor the outcome.
pub proof fn nothing_follows_the_end(events: Seq<StreamEvent>, more: Seq<StreamEvent>)
    requires
        CollectorView::over(events).outcome is Some,
    ensures
        CollectorView::over(events + more) == CollectorView::over(events),
    decreases more.len(),
{
    if more.len() == 0 {
        assert(events + more =~= events);
    } else {
        nothing_follows_the_end(events, more.drop_last());
        assert((events + more).drop_last() =~= events + more.drop_last());
        assert((events + more).last() == more.last());
    }
}

/// A reply that is still running is made of exactly the tokens that were streamed.
pub proof fn a_running_reply_holds_every_token(events: Seq<StreamEvent>)
    requires
        CollectorView::over(events).outcome is None,
    ensures
        CollectorView::over(events).tokens == tokens_before(events, events.len() as int),
        CollectorView::over(events).tokens.len() == events.len(),
    decreases events.len(),
{
    if events.len() > 0 {
        let init = events.drop_last();
        a_running_reply_holds_every_token(init);
        same_tokens(events, init, init.len() as int);
    }
}

proof fn same_tokens(a: Seq<StreamEvent>, b: Seq<StreamEvent>, n: int)
    requires
        n <= a.len(),
        n <= b.len(),
        forall|i: int| 0 <= i < n ==> a[i] == #[trigger] b[i],
    ensures
        tokens_before(a, n) == tokens_before(b, n),
    decreases n,
{
    if n > 0 {
        assert(a[n - 1] == b[n - 1]);
        same_tokens(a, b, n - 1);
    }
}

} // verus!
