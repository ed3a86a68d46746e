use garuda::anthropic;
use garuda::api::{
    check_messages, check_prompt, embedding_inputs, error_response, limit_of, missing,
    model_name, user_id, ChatMessage, EmbeddingInput, SamplingOverrides, Usage, MODEL_ID,
};
use garuda::chat::{ChatFormat, Tokenize};
use garuda::cuda::CudaBackend;
use garuda::grpc::GrpcServer;
use garuda::llamacpp;
use garuda::ollama;
use garuda::runtime::StopReason;
use garuda::sampling::{SamplingFault, SamplingParams};
use garuda::scheduler::{Priority, StreamEvent};
use garuda::session::{last_pieces, reply, text_piece, Collector, Piece, Tally};
use garuda::storage::{FileStep, LocalStorageBackend};
use garuda::tgi;
use garuda::types::{GarudaError, Token};

fn inference(r: Result<Vec<String>, GarudaError>) -> String {
    match r {
        Err(GarudaError::Inference(m)) => m,
        other => panic!("{other:?}"),
    }
}

#[test]
fn errors_carry_the_status_that_clients_act_on() {
    for (e, status, kind, code) in [
        (
            GarudaError::RateLimit,
            429,
            "rate_limit_error",
            "rate_limit_exceeded",
        ),
        (GarudaError::Busy, 503, "server_error", "queue_full"),
        (GarudaError::Timeout, 504, "server_error", "timeout"),
        (
            GarudaError::Cancelled,
            400,
            "invalid_request_error",
            "cancelled",
        ),
        (
            GarudaError::InvalidToken(9),
            400,
            "invalid_request_error",
            "invalid_request",
        ),
        (
            GarudaError::Inference("no".into()),
            400,
            "invalid_request_error",
            "invalid_request",
        ),
        (
            GarudaError::Config("no".into()),
            400,
            "invalid_request_error",
            "invalid_request",
        ),
        (
            GarudaError::Cache("no".into()),
            500,
            "server_error",
            "internal_error",
        ),
    ] {
        let r = error_response(&e);
        assert_eq!((r.status, r.kind, r.code), (status, kind, code), "{e:?}");
        assert_eq!(r.message, e.message());
    }
    assert_eq!(
        error_response(&GarudaError::InvalidToken(9)).message,
        "token id 9 is outside the vocabulary"
    );
}

#[test]
fn protocols_map_errors_onto_their_own_statuses() {
    let bad = GarudaError::Config("x".into());
    let broken = GarudaError::Storage("x".into());
    assert_eq!(anthropic::map_error(&bad), (400, "invalid_request_error"));
    assert_eq!(
        anthropic::map_error(&GarudaError::Busy),
        (503, "overloaded_error")
    );
    assert_eq!(
        anthropic::map_error(&GarudaError::RateLimit),
        (429, "rate_limit_error")
    );
    assert_eq!(anthropic::map_error(&broken), (500, "api_error"));
    assert_eq!(tgi::map_error(&bad), 422);
    assert_eq!(ollama::map_error(&bad), 400);
    assert_eq!(llamacpp::map_error(&bad), 400);
    assert_eq!(llamacpp::map_error(&broken), 500);
    assert_eq!(tgi::map_error(&GarudaError::RateLimit), 429);
    assert_eq!(ollama::map_error(&GarudaError::Busy), 503);
}

#[test]
fn a_request_overrides_only_what_it_names() {
    let base = SamplingParams::default();
    let none = SamplingOverrides::default();
    assert_eq!(none.apply(base), Ok(base));
    assert_eq!(none.priority().unwrap(), Priority::Normal);
    let some = SamplingOverrides {
        temperature_bits: Some(0.0f32.to_bits()),
        max_tokens: Some(7),
        seed: Some(3),
        priority: Some("High".into()),
        ..SamplingOverrides::default()
    };
    let p = some.apply(base).unwrap();
    assert!(p.is_greedy());
    assert_eq!((p.max_tokens, p.seed), (7, Some(3)));
    assert_eq!((p.top_k, p.top_p_bits), (base.top_k, base.top_p_bits));
    assert_eq!(some.priority().unwrap(), Priority::High);
    let bad = SamplingOverrides {
        top_p_bits: Some(1.5f32.to_bits()),
        priority: Some("Urgent".into()),
        ..SamplingOverrides::default()
    };
    assert_eq!(bad.apply(base), Err(SamplingFault::TopP));
    assert_eq!(
        bad.priority().unwrap_err().message(),
        "configuration error: unknown priority 'urgent' (expected low, normal or high)"
    );
}

#[test]
fn token_limits_of_zero_or_less_ask_for_the_default() {
    assert_eq!(limit_of(None), None);
    assert_eq!(limit_of(Some(0)), None);
    assert_eq!(limit_of(Some(-1)), None);
    assert_eq!(limit_of(Some(12)), Some(12));
    let base = SamplingParams::default();
    let options = ollama::Options {
        num_predict: Some(-1),
        ..ollama::Options::default()
    };
    assert_eq!(options.apply(base).unwrap().max_tokens, base.max_tokens);
    let req = llamacpp::CompletionRequest {
        prompt: "hi".into(),
        n_predict: Some(5),
        temperature_bits: Some((-1.0f32).to_bits()),
        top_p_bits: None,
        top_k: None,
        seed: None,
        stream: false,
    };
    assert_eq!(req.params(base), Err(SamplingFault::Temperature));
    let params = tgi::Parameters {
        max_new_tokens: Some(0),
        ..tgi::Parameters::default()
    };
    assert_eq!(params.apply(base), Err(SamplingFault::MaxTokens));
    let mut seeded = base;
    seeded.seed = Some(11);
    let m = anthropic::MessagesParams {
        temperature_bits: None,
        top_p_bits: None,
        top_k: Some(1),
        max_tokens: None,
    };
    assert_eq!(m.apply(seeded).unwrap().seed, Some(11));
}

#[test]
fn stop_reasons_speak_each_protocol() {
    let (eos, length, full) = (
        StopReason::Eos,
        StopReason::Length,
        StopReason::ContextFull,
    );
    assert_eq!(eos.as_openai(), "stop");
    assert_eq!(full.as_openai(), "length");
    assert_eq!(anthropic::stop_reason(eos), "end_turn");
    assert_eq!(anthropic::stop_reason(length), "max_tokens");
    assert_eq!(ollama::stop_reason(eos), "stop");
    assert_eq!(ollama::stop_reason(full), "length");
    assert_eq!(tgi::finish_reason(eos), "eos_token");
    assert_eq!(tgi::finish_reason(length), "length");
    let e = llamacpp::ending(full, 3, 8);
    assert!(!e.stopped_eos && e.stopped_limit);
    assert_eq!((e.tokens_predicted, e.tokens_evaluated), (3, 8));
    assert!(llamacpp::ending(eos, 3, 8).stopped_eos);
}

#[test]
fn callers_share_one_bucket_unless_they_name_themselves() {
    assert_eq!(user_id(None), "anonymous");
    assert_eq!(user_id(Some("")), "anonymous");
    assert_eq!(user_id(Some("ann")), "ann");
    let long = "x".repeat(128);
    assert_eq!(user_id(Some(&long)), long);
    assert_eq!(user_id(Some(&format!("{long}x"))), "anonymous");
    assert_eq!(
        user_id(Some(&"é".repeat(65))),
        "anonymous",
        "the limit counts bytes"
    );
}

#[test]
fn empty_requests_are_refused() {
    assert_eq!(missing("inputs", 0).unwrap(), "inputs must not be empty");
    assert_eq!(missing("inputs", 1), None);
    assert_eq!(
        check_messages(&[]).unwrap_err().message(),
        "inference error: messages must not be empty"
    );
    let one = ChatMessage {
        role: "user".into(),
        content: String::new(),
    };
    assert!(check_messages(&[one]).is_ok());
    assert_eq!(
        check_prompt("prompt", "").unwrap_err().message(),
        "inference error: prompt must not be empty"
    );
    assert_eq!(
        check_prompt("inputs", "").unwrap_err().message(),
        "inference error: inputs must not be empty"
    );
    assert!(check_prompt("prompt", " ").is_ok());
    assert_eq!(model_name(None), MODEL_ID);
    assert_eq!(model_name(Some("m".into())), "m");
    let u = Usage::new(3, 4);
    assert_eq!(
        (u.prompt_tokens, u.completion_tokens, u.total_tokens),
        (3, 4, 7)
    );
}

#[test]
fn embedding_inputs_are_strings() {
    assert_eq!(
        embedding_inputs(EmbeddingInput::Text("a".into())).unwrap(),
        vec!["a"]
    );
    assert_eq!(
        embedding_inputs(EmbeddingInput::List(vec![
            Some("a".into()),
            Some(String::new())
        ]))
        .unwrap(),
        vec!["a", ""]
    );
    assert_eq!(
        inference(embedding_inputs(EmbeddingInput::List(vec![
            Some("a".into()),
            None
        ]))),
        "input array must contain only strings"
    );
    assert_eq!(
        inference(embedding_inputs(EmbeddingInput::Other)),
        "input must be a string or an array of strings"
    );
    for empty in [
        EmbeddingInput::Text(String::new()),
        EmbeddingInput::List(vec![]),
        EmbeddingInput::List(vec![Some(String::new())]),
    ] {
        assert_eq!(
            inference(embedding_inputs(empty)),
            "input must not be empty"
        );
    }
    let many = vec![Some("a".to_owned()); 257];
    assert_eq!(
        inference(embedding_inputs(EmbeddingInput::List(many))),
        "input must hold at most 256 texts"
    );
}

struct Bytes;

impl Tokenize for Bytes {
    fn encode(&self, text: &str) -> Vec<Token> {
        let mut v = vec![1];
        v.extend(self.encode_fragment(text));
        v
    }
    fn encode_fragment(&self, text: &str) -> Vec<Token> {
        text.bytes().map(|b| 100 + Token::from(b)).collect()
    }
    fn token_id(&self, _: &str) -> Option<Token> {
        None
    }
    fn eos(&self) -> Token {
        2
    }
}

fn spell(tokens: &[Token]) -> String {
    tokens
        .iter()
        .map(|&t| match t {
            1 => '^',
            2 => '$',
            t => (t - 100) as u8 as char,
        })
        .collect()
}

#[test]
fn anthropic_content_is_flattened_to_its_text_blocks() {
    let block = |kind: &str, text: Option<&str>| anthropic::Block {
        kind: Some(kind.into()),
        text: text.map(str::to_owned),
    };
    let c = anthropic::Content::Blocks(vec![
        block("text", Some("a")),
        block("image", Some("x")),
        block("text", None),
        anthropic::Block {
            kind: None,
            text: Some("y".into()),
        },
        block("text", Some("b")),
    ]);
    assert_eq!(anthropic::text_of(&c), "ab");
    assert_eq!(
        anthropic::text_of(&anthropic::Content::Text("s".into())),
        "s"
    );
    assert_eq!(anthropic::text_of(&anthropic::Content::Other), "");

    let messages = [anthropic::InMessage {
        role: "user".into(),
        content: c,
    }];
    let system = Some(anthropic::Content::Text("brief".into()));
    let tokens = anthropic::prompt_tokens(ChatFormat::Plain, &Bytes, &system, &messages);
    assert_eq!(spell(&tokens), "^brief\n\nuser: ab\nassistant: ");
    let tokens = anthropic::prompt_tokens(ChatFormat::Plain, &Bytes, &None, &messages);
    assert_eq!(spell(&tokens), "^user: ab\nassistant: ");
    let tokens = anthropic::prompt_tokens(ChatFormat::Zephyr, &Bytes, &system, &messages);
    assert_eq!(
        spell(&tokens),
        "^<|system|>\nbrief$\n<|user|>\nab$\n<|assistant|>\n"
    );
}

#[test]
fn timestamps_are_civil_dates() {
    for (secs, want) in [
        (0, "1970-01-01T00:00:00Z"),
        (951_782_400, "2000-02-29T00:00:00Z"),
        (951_868_799, "2000-02-29T23:59:59Z"),
        (951_868_800, "2000-03-01T00:00:00Z"),
        (1_709_210_096, "2024-02-29T12:34:56Z"),
        (4_107_542_400, "2100-03-01T00:00:00Z"),
        (4_102_444_799, "2099-12-31T23:59:59Z"),
        (253_402_300_799, "9999-12-31T23:59:59Z"),
        (253_402_300_800, "10000-01-01T00:00:00Z"),
    ] {
        assert_eq!(ollama::rfc3339(secs), want);
    }
    assert!(ollama::rfc3339(u64::MAX).ends_with("T07:00:15Z"));
}

#[test]
fn consecutive_days_have_consecutive_dates() {
    let mut last = ollama::rfc3339(0);
    let lengths = |y: u32, m: u32| match m {
        2 if y % 4 == 0 && (y % 100 != 0 || y % 400 == 0) => 29,
        2 => 28,
        4 | 6 | 9 | 11 => 30,
        _ => 31,
    };
    for day in 1..200_000u64 {
        let now = ollama::rfc3339(day * 86_400);
        let part = |s: &str, a: usize, b: usize| s[a..b].parse::<u32>().unwrap();
        let (y, m, d) = (part(&last, 0, 4), part(&last, 5, 7), part(&last, 8, 10));
        let want = if d < lengths(y, m) {
            (y, m, d + 1)
        } else if m < 12 {
            (y, m + 1, 1)
        } else {
            (y + 1, 1, 1)
        };
        assert_eq!(
            (part(&now, 0, 4), part(&now, 5, 7), part(&now, 8, 10)),
            want,
            "after {last}"
        );
        last = now;
    }
}

#[test]
fn ollama_prompts_and_names() {
    assert!(ollama::stream_default());
    assert_eq!(ollama::generate_prompt(Some("sys"), "hi"), "sys\nhi");
    assert_eq!(ollama::generate_prompt(None, "hi"), "hi");
    assert_eq!(ollama::tag(MODEL_ID), "garuda-moe-v1:latest");
}

#[test]
fn a_reply_is_collected_up_to_its_end() {
    let mut c = Collector::new();
    assert!(!c.take(StreamEvent::Token(5)));
    assert!(!c.take(StreamEvent::Token(6)));
    assert!(c.take(StreamEvent::Done(StopReason::Length)));
    assert!(c.take(StreamEvent::Token(7)), "nothing follows the end");
    let (tokens, reason) = c.finish().unwrap();
    assert_eq!(tokens, vec![5, 6]);
    assert_eq!(reason, StopReason::Length);
    let r = reply("hi".into(), reason, tokens.len());
    assert_eq!((r.text.as_str(), r.tokens), ("hi", 2));

    let mut c = Collector::new();
    c.take(StreamEvent::Token(5));
    assert!(c.take(StreamEvent::Error(GarudaError::Timeout)));
    assert_eq!(c.finish(), Err(GarudaError::Timeout));

    let mut c = Collector::new();
    c.take(StreamEvent::Token(5));
    assert_eq!(
        c.finish().unwrap_err().message(),
        "scheduler error: stream ended without a result"
    );
}

#[test]
fn pieces_are_never_empty() {
    assert!(text_piece(String::new()).is_none());
    assert!(matches!(text_piece("a".into()), Some(Piece::Text(t)) if t == "a"));
    let only = last_pieces(String::new(), StopReason::Eos);
    assert!(matches!(only.as_slice(), [Piece::Done(StopReason::Eos)]));
    let both = last_pieces("z".into(), StopReason::Eos);
    assert!(
        matches!(both.as_slice(), [Piece::Text(t), Piece::Done(StopReason::Eos)] if t == "z")
    );
    let mut t = Tally::new();
    assert!(t.is_first());
    t.pass("ab");
    t.pass("c");
    assert!(!t.is_first());
    assert_eq!((t.pieces(), t.text()), (2, "abc"));
}

#[test]
fn a_tier_keeps_its_files_under_its_directory() {
    let b = LocalStorageBackend::new("/data".into());
    assert_eq!(b.full_path("kv/1"), "/data/kv/1");
    assert_eq!(b.full_path("/abs"), "/abs");
    assert_eq!(LocalStorageBackend::new("d/".into()).full_path("x"), "d/x");
    assert_eq!(LocalStorageBackend::new(String::new()).full_path("x"), "x");
    assert_eq!(
        b.failure(FileStep::Open, "x", "gone").message(),
        "storage error: Failed to open file /data/x: gone"
    );
    assert_eq!(
        b.failure(FileStep::Write, "x", "full").message(),
        "storage error: Failed to write to file /data/x: full"
    );
    assert_eq!(
        b.failure(FileStep::Mmap, "x", "no").message(),
        "storage error: Failed to mmap file /data/x: no"
    );
    assert_eq!(
        LocalStorageBackend::no_directory("no").message(),
        "storage error: Failed to create directories: no"
    );
}

#[test]
fn stubs_are_built() {
    let c = CudaBackend::new(3);
    assert_eq!(c.device_id, 3);
    let s = c.sources(3);
    assert_eq!(s.len(), 3 * 128);
    assert_eq!(&s[..5], &[0, 1, 2, 0, 1]);
    assert!(c.sources(0).is_empty());
    assert_eq!(GrpcServer::new(), GrpcServer);
}

#[test]
fn timestamps_sort_as_their_seconds() {
    let last = 253_402_300_799u64;
    let mut moments: Vec<u64> = vec![0, 1, 59, 60, 3599, 3600, 86_399, 86_400, 951_782_399];
    moments.extend((0..5000u64).map(|i| i * 50_680_460 + i * i % 77));
    moments.push(last);
    moments.sort_unstable();
    moments.dedup();
    let stamps: Vec<String> = moments.iter().map(|s| ollama::rfc3339(*s)).collect();
    for pair in stamps.windows(2) {
        assert!(pair[0].is_ascii() && pair[0].len() == 20);
        assert!(pair[0].as_bytes() < pair[1].as_bytes(), "{} before {}", pair[0], pair[1]);
    }
    // With a fifth digit the year outgrows the form, and sorts before the others.
    assert!(ollama::rfc3339(last + 1) < ollama::rfc3339(last));
}
