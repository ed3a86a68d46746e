//! What rendering a conversation promises: who says what can be told from the prompt.

use crate::chat;
use crate::chat::{ChatFormat, SegView, Tokenize, Turn};
use crate::types::Token;
use vstd::prelude::*;

verus! {

/// The formats that mark every turn with its role.
pub open spec fn marks_turns(fmt: ChatFormat) -> bool {
    !(fmt is Plain) && !(fmt is Mistral)
}

/// What stands before the role of a turn.
pub open spec fn head(fmt: ChatFormat) -> Seq<char> {
    match fmt {
        ChatFormat::Zephyr => "<|"@,
        ChatFormat::Llama3 => "<|start_header_id|>"@,
        _ => "<|im_start|>"@,
    }
}

/// What stands between the role of a turn and its content.
pub open spec fn tail(fmt: ChatFormat) -> Seq<char> {
    match fmt {
        ChatFormat::Zephyr => "|>\n"@,
        ChatFormat::Llama3 => "<|end_header_id|>\n\n"@,
        _ => "\n"@,
    }
}

/// Equal texts with equal ends around them have equal middles.
proof fn middles_are_equal(head: Seq<char>, a: Seq<char>, b: Seq<char>, tail: Seq<char>)
    requires
        head + a + tail == head + b + tail,
    ensures
        a == b,
{
    let (x, y) = (head + a + tail, head + b + tail);
    assert(x.len() == y.len());
    assert(a.len() == b.len());
    assert forall|i: int| 0 <= i < a.len() implies a[i] == b[i] by {
        assert(x[head.len() + i] == a[i]);
        assert(y[head.len() + i] == b[i]);
    }
    assert(a =~= b);
}

/// The prefix of a turn is its role between fixed marks, so it names the role: two roles have
/// two prefixes.
pub proof fn prefixes_name_the_role(fmt: ChatFormat, a: Seq<char>, b: Seq<char>)
    requires
        marks_turns(fmt),
    ensures
        fmt.prefix(a) == head(fmt) + a + tail(fmt),
        a != b ==> fmt.prefix(a) != fmt.prefix(b),
        fmt.prefix(a).len() - fmt.prefix(b).len() == a.len() - b.len(),
{
    if fmt.prefix(a) == fmt.prefix(b) {
        middles_are_equal(head(fmt), a, b, tail(fmt));
    }
}

/// The reply is asked for as a turn of the assistant that is left open. Only a format that
/// reasons says more: that the reasoning begins, or that it has ended.
pub proof fn cues_open_a_turn(fmt: ChatFormat)
    requires
        marks_turns(fmt),
    ensures
        fmt.cue() == fmt.prefix("assistant"@) + match fmt {
            ChatFormat::Reasoning { thinking } => if thinking {
                "<think>\n"@
            } else {
                "<think>\n\n</think>\n\n"@
            },
            _ => Seq::empty(),
        },
{
    reveal_strlit("assistant");
    reveal_strlit("<|");
    reveal_strlit("|>\n");
    reveal_strlit("<|im_start|>");
    reveal_strlit("\n");
    reveal_strlit("<think>\n");
    reveal_strlit("<think>\n\n</think>\n\n");
    reveal_strlit("<|start_header_id|>");
    reveal_strlit("<|end_header_id|>\n\n");
    reveal_strlit("<|assistant|>\n");
    reveal_strlit("<|im_start|>assistant\n");
    reveal_strlit("<|im_start|>assistant\n<think>\n");
    reveal_strlit("<|im_start|>assistant\n<think>\n\n</think>\n\n");
    reveal_strlit("<|start_header_id|>assistant<|end_header_id|>\n\n");
    let more = match fmt {
        ChatFormat::Reasoning { thinking } => if thinking {
            "<think>\n"@
        } else {
            "<think>\n\n</think>\n\n"@
        },
        _ => Seq::empty(),
    };
    assert(fmt.cue() =~= fmt.prefix("assistant"@) + more);
}

proof fn marked_turns(fmt: ChatFormat, turns: Seq<Turn>, end: Token)
    ensures
        ({
            let segs = chat::marked(fmt, turns, end);
            &&& segs.len() == 2 * turns.len()
            &&& forall|i: int|
                0 <= i < turns.len() ==> segs[2 * i] == SegView::Text(
                    fmt.prefix(#[trigger] turns[i].role) + turns[i].content,
                ) && segs[2 * i + 1] == SegView::Control(end)
        }),
    decreases turns.len(),
{
    if turns.len() > 0 {
        let before = turns.drop_last();
        marked_turns(fmt, before, end);
        let segs = chat::marked(fmt, turns, end);
        assert forall|i: int| 0 <= i < turns.len() implies segs[2 * i] == SegView::Text(
            fmt.prefix(#[trigger] turns[i].role) + turns[i].content,
        ) && segs[2 * i + 1] == SegView::Control(end) by {
            if i < before.len() {
                assert(before[i] == turns[i]);
                assert(before[i].role == turns[i].role);
                assert(segs[2 * i] == chat::marked(fmt, before, end)[2 * i]);
                assert(segs[2 * i + 1] == chat::marked(fmt, before, end)[2 * i + 1]);
            }
        }
    }
}

/// Turns come one after the other, each as its marks, its role and its content, and the token
/// that ends it. The cue for the reply comes last.
pub proof fn turns_are_marked(fmt: ChatFormat, turns: Seq<Turn>, end: Token, i: int)
    requires
        marks_turns(fmt),
        0 <= i < turns.len(),
    ensures
        ({
            let segs = chat::segments(fmt, turns, end);
            &&& segs.len() == 2 * turns.len() + 1
            &&& segs[2 * i] == SegView::Text(
                head(fmt) + turns[i].role + tail(fmt) + turns[i].content,
            )
            &&& segs[2 * i + 1] == SegView::Control(end)
            &&& segs.last() == SegView::Text(fmt.cue())
        }),
{
    marked_turns(fmt, turns, end);
    assert(turns[i].role == turns[i].role);
    prefixes_name_the_role(fmt, turns[i].role, turns[i].role);
    let segs = chat::segments(fmt, turns, end);
    assert(segs[2 * i] == chat::marked(fmt, turns, end)[2 * i]);
    assert(segs[2 * i + 1] == chat::marked(fmt, turns, end)[2 * i + 1]);
}

/// Who speaks, and what is said, shows: two conversations that differ in the role of one turn
/// alone, or in its content alone, are rendered differently.
pub proof fn roles_and_contents_show(
    fmt: ChatFormat,
    turns: Seq<Turn>,
    end: Token,
    i: int,
    role: Seq<char>,
    content: Seq<char>,
)
    requires
        marks_turns(fmt),
        0 <= i < turns.len(),
    ensures
        role != turns[i].role ==> chat::segments(
            fmt,
            turns.update(i, Turn { role, content: turns[i].content }),
            end,
        ) != chat::segments(fmt, turns, end),
        content != turns[i].content ==> chat::segments(
            fmt,
            turns.update(i, Turn { role: turns[i].role, content }),
            end,
        ) != chat::segments(fmt, turns, end),
{
    let other_role = turns.update(i, Turn { role, content: turns[i].content });
    let other_content = turns.update(i, Turn { role: turns[i].role, content });
    turns_are_marked(fmt, turns, end, i);
    turns_are_marked(fmt, other_role, end, i);
    turns_are_marked(fmt, other_content, end, i);
    let (h, t) = (head(fmt), tail(fmt));
    let (r, c) = (turns[i].role, turns[i].content);
    if h + role + t + c == h + r + t + c {
        assert(h + role + t + c =~= h + role + (t + c));
        assert(h + r + t + c =~= h + r + (t + c));
        middles_are_equal(h, role, r, t + c);
    }
    if h + r + t + content == h + r + t + c {
        let none = Seq::<char>::empty();
        assert(h + r + t + content + none =~= h + r + t + c + none);
        middles_are_equal(h + r + t, content, c, none);
    }
}

proof fn transcript_of_both(a: Seq<Turn>, b: Seq<Turn>)
    ensures
        chat::transcript(a + b) == chat::transcript(a) + chat::transcript(b),
    decreases b.len(),
{
    if b.len() == 0 {
        assert(a + b =~= a);
        assert(chat::transcript(a) + chat::transcript(b) =~= chat::transcript(a));
    } else {
        transcript_of_both(a, b.drop_last());
        assert((a + b).drop_last() =~= a + b.drop_last());
        assert((a + b).last() == b.last());
        assert(chat::transcript(a + b) =~= chat::transcript(a) + chat::transcript(b));
    }
}

/// A transcript has a line for every turn, in their order, with its role and its content, so
/// another role makes another transcript and so does another content.
pub proof fn transcripts_have_a_line_per_turn(
    before: Seq<Turn>,
    t: Turn,
    after: Seq<Turn>,
    role: Seq<char>,
    content: Seq<char>,
)
    ensures
        chat::transcript(before + seq![t] + after) == chat::transcript(before) + (t.role + ": "@
            + t.content + "\n"@) + chat::transcript(after),
        chat::transcript(Seq::empty()).len() == 0,
        role != t.role ==> chat::transcript(
            before + seq![Turn { role, content: t.content }] + after,
        ) != chat::transcript(before + seq![t] + after),
        content != t.content ==> chat::transcript(
            before + seq![Turn { role: t.role, content }] + after,
        ) != chat::transcript(before + seq![t] + after),
{
    let one = Turn { role, content: t.content };
    let two = Turn { role: t.role, content };
    line_of(before, t, after);
    line_of(before, one, after);
    line_of(before, two, after);
    let (x, y) = (chat::transcript(before), chat::transcript(after));
    if chat::transcript(before + seq![one] + after) == chat::transcript(before + seq![t] + after) {
        roles_of_lines(x, y, role, t.role, t.content);
    }
    if chat::transcript(before + seq![two] + after) == chat::transcript(before + seq![t] + after) {
        contents_of_lines(x, y, t.role, content, t.content);
    }
}

#[verifier::spinoff_prover]
proof fn roles_of_lines(
    x: Seq<char>,
    y: Seq<char>,
    role: Seq<char>,
    r: Seq<char>,
    c: Seq<char>,
)
    requires
        x + (role + ": "@ + c + "\n"@) + y == x + (r + ": "@ + c + "\n"@) + y,
    ensures
        role == r,
{
    let rest = ": "@ + c + "\n"@ + y;
    assert(x + (role + ": "@ + c + "\n"@) + y =~= x + role + rest);
    assert(x + (r + ": "@ + c + "\n"@) + y =~= x + r + rest);
    middles_are_equal(x, role, r, rest);
}

#[verifier::spinoff_prover]
proof fn contents_of_lines(
    x: Seq<char>,
    y: Seq<char>,
    r: Seq<char>,
    content: Seq<char>,
    c: Seq<char>,
)
    requires
        x + (r + ": "@ + content + "\n"@) + y == x + (r + ": "@ + c + "\n"@) + y,
    ensures
        content == c,
{
    let start = x + r + ": "@;
    assert(x + (r + ": "@ + content + "\n"@) + y =~= start + content + ("\n"@ + y));
    assert(x + (r + ": "@ + c + "\n"@) + y =~= start + c + ("\n"@ + y));
    middles_are_equal(start, content, c, "\n"@ + y);
}

proof fn line_of(before: Seq<Turn>, t: Turn, after: Seq<Turn>)
    ensures
        chat::transcript(before + seq![t] + after) == chat::transcript(before) + (t.role + ": "@
            + t.content + "\n"@) + chat::transcript(after),
{
    transcript_of_both(before + seq![t], after);
    transcript_of_both(before, seq![t]);
    assert(seq![t].drop_last() =~= Seq::<Turn>::empty());
    reveal_with_fuel(chat::transcript, 2);
    assert(chat::transcript(seq![t]) =~= t.role + ": "@ + t.content + "\n"@);
}

/// In a Mistral conversation an answer stands as it is and ends in the marker; whatever the
/// user says stands between the marks of an instruction, after the system text that came since
/// the last of them; and system text that nobody answered is an instruction of its own.
pub proof fn instructions_hold_what_was_said(turns: Seq<Turn>, t: Turn, end: Token)
    ensures
        ({
            let before = chat::instructed(turns, end);
            let after = chat::instructed(turns.push(t), end);
            let system = chat::waiting_system(turns);
            &&& t.role == "system"@ ==> after == before && chat::waiting_system(turns.push(t))
                == if system.len() == 0 {
                t.content
            } else {
                system + "\n\n"@ + t.content
            }
            &&& t.role == "assistant"@ ==> after == before + seq![
                SegView::Text(t.content),
                SegView::Control(end),
            ] && chat::waiting_system(turns.push(t)) == system
            &&& t.role != "system"@ && t.role != "assistant"@ ==> after == before + seq![
                SegView::Text(
                    "[INST] "@ + (if system.len() == 0 {
                        t.content
                    } else {
                        system + "\n\n"@ + t.content
                    }) + " [/INST]"@,
                ),
            ] && chat::waiting_system(turns.push(t)).len() == 0
        }),
        chat::instructed(Seq::empty(), end).len() == 0,
        chat::waiting_system(Seq::empty()).len() == 0,
        chat::segments(ChatFormat::Mistral, turns, end) == chat::instructed(turns, end) + (
        if chat::waiting_system(turns).len() == 0 {
            Seq::empty()
        } else {
            seq![SegView::Text("[INST] "@ + chat::waiting_system(turns) + " [/INST]"@)]
        }),
{
    reveal_strlit("system");
    reveal_strlit("assistant");
    assert("system"@.len() != "assistant"@.len());
    let all = turns.push(t);
    assert(all.drop_last() =~= turns);
    assert(all.last() == t);
    let before = chat::instructed(turns, end);
    assert(before.push(SegView::Text(t.content)).push(SegView::Control(end)) =~= before + seq![
        SegView::Text(t.content),
        SegView::Control(end),
    ]);
}

/// The token that ends a turn is the marker of the format, where it has one and the vocabulary
/// knows it, and the end of sequence otherwise.
pub proof fn turns_end_as_the_format_says<T: Tokenize>(fmt: ChatFormat, tk: T)
    ensures
        fmt is ChatMl || fmt is Reasoning ==> chat::end_token(fmt, tk) == match tk.id_of(
            "<|im_end|>"@,
        ) {
            Some(id) => id,
            None => tk.end_of_sequence(),
        },
        fmt is Llama3 ==> chat::end_token(fmt, tk) == match tk.id_of("<|eot_id|>"@) {
            Some(id) => id,
            None => tk.end_of_sequence(),
        },
        fmt is Plain || fmt is Zephyr || fmt is Mistral ==> chat::end_token(fmt, tk)
            == tk.end_of_sequence(),
{
}

/// The tokens of the first `n` turns.
pub open spec fn tokens_of_turns<T: Tokenize>(
    fmt: ChatFormat,
    tk: T,
    turns: Seq<Turn>,
    n: int,
) -> Seq<Token> {
    let segs = chat::segments(fmt, turns, chat::end_token(fmt, tk));
    chat::assembled(tk, segs, fmt.gap(), 2 * n)
}

proof fn first_text(fmt: ChatFormat, turns: Seq<Turn>, end: Token)
    requires
        marks_turns(fmt),
        turns.len() > 0,
    ensures
        chat::text_at(chat::segments(fmt, turns, end), fmt.gap(), 0).len() > 0,
{
    turns_are_marked(fmt, turns, end, 0);
    reveal_strlit("<|");
    reveal_strlit("<|start_header_id|>");
    reveal_strlit("<|im_start|>");
}

/// A prompt is its turns, each encoded on its own between markers: the first as the start of
/// a prompt, every later one, and the cue, as a fragment after a line break where the format
/// has one.
pub proof fn prompts_are_their_turns<T: Tokenize>(fmt: ChatFormat, tk: T, turns: Seq<Turn>, i: int)
    requires
        marks_turns(fmt),
        0 <= i < turns.len(),
    ensures
        tokens_of_turns(fmt, tk, turns, 0).len() == 0,
        ({
            let gap = if fmt is Llama3 {
                Seq::empty()
            } else {
                "\n"@
            };
            let text = head(fmt) + turns[i].role + tail(fmt) + turns[i].content;
            &&& tokens_of_turns(fmt, tk, turns, i + 1) == tokens_of_turns(fmt, tk, turns, i) + (
            if i == 0 {
                tk.encoded(text)
            } else {
                tk.fragment(gap + text)
            }) + seq![chat::end_token(fmt, tk)]
            &&& chat::chat_tokens(fmt, tk, turns) == tokens_of_turns(
                fmt,
                tk,
                turns,
                turns.len() as int,
            ) + tk.fragment(gap + fmt.cue())
        }),
{
    let end = chat::end_token(fmt, tk);
    let segs = chat::segments(fmt, turns, end);
    let n = turns.len() as int;
    reveal_strlit("");
    assert(fmt.gap() =~= if fmt is Llama3 {
        Seq::empty()
    } else {
        "\n"@
    });
    turns_are_marked(fmt, turns, end, i);
    turns_are_marked(fmt, turns, end, n - 1);
    cues_open_a_turn(fmt);
    reveal_strlit("assistant");
    first_text(fmt, turns, end);
    let gap = fmt.gap();
    let text = head(fmt) + turns[i].role + tail(fmt) + turns[i].content;
    reveal_strlit("<|");
    reveal_strlit("<|start_header_id|>");
    reveal_strlit("<|im_start|>");
    assert(text.len() > 0);
    if i > 0 {
        turns_are_marked(fmt, turns, end, i - 1);
        assert(segs[2 * i - 1] is Control);
        assert(chat::has_text(segs, gap, 2 * i));
    } else {
        assert(!chat::has_text(segs, gap, 0));
    }
    assert(chat::tokens_at(tk, segs, gap, 2 * i + 1) == seq![end]);
    assert(chat::assembled(tk, segs, gap, 2 * i + 2) == chat::assembled(tk, segs, gap, 2 * i + 1)
        + seq![end]);
    assert(chat::has_text(segs, gap, 2 * n));
    assert(segs[2 * n - 1] is Control);
    assert(chat::text_at(segs, gap, 2 * n) == gap + fmt.cue());
    assert(fmt.cue().len() > 0);
    assert(chat::assembled(tk, segs, gap, 2 * n + 1) == chat::assembled(tk, segs, gap, 2 * n)
        + tk.fragment(gap + fmt.cue()));
}

} // verus!
