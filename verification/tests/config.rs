use garuda::cli::Cli;
use garuda::config::{parse_normalised, parse_size, AppConfig, ConfigFault};
use garuda::text::{ascii_lowercase, ascii_uppercase, is_white, trim};
use garuda::sampling::SamplingFault;
use garuda::scheduler::SchedulerConfig;
use garuda::types::GarudaError;

#[test]
fn parses_sizes_with_and_without_units() {
    assert_eq!(parse_size("1024").unwrap(), 1024);
    assert_eq!(parse_size("1KB").unwrap(), 1024);
    assert_eq!(parse_size("2 MB").unwrap(), 2 * 1024 * 1024);
    assert_eq!(parse_size("1GiB").unwrap(), 1024 * 1024 * 1024);
    assert_eq!(parse_size("0.5GB").unwrap(), 512 * 1024 * 1024);
    assert_eq!(parse_size("8gb").unwrap(), 8 * 1024 * 1024 * 1024);
}

#[test]
fn rejects_nonsense_sizes() {
    for bad in ["", "abc", "12XB", "-5MB", "MB"] {
        assert!(parse_size(bad).is_err(), "accepted '{bad}'");
    }
}

#[test]
fn default_config_is_valid() {
    AppConfig::default().validate().unwrap();
}

#[test]
fn gpu_true_is_a_startup_error_not_a_silent_no_op() {
    let mut c = AppConfig::default();
    c.model.gpu = true;
    let err = c.validate().unwrap_err();
    let ConfigFault::Refused(err) = err else {
        panic!("not a refusal: {err:?}");
    };
    assert!(matches!(err, GarudaError::Config(_)));
    assert!(err.message().contains("no GPU backend"));
}

#[test]
fn rejects_a_top_k_larger_than_the_expert_count() {
    let mut c = AppConfig::default();
    c.model.experts = 4;
    c.model.top_k = 8;
    assert!(c.validate().is_err());
}

#[test]
fn rejects_a_sliding_window_wider_than_the_context() {
    let mut c = AppConfig::default();
    c.model.context = 128;
    c.model.sliding_window = 256;
    assert!(c.validate().is_err());
}

#[test]
fn rejects_zero_valued_server_limits() {
    for mutate in [
        (|c: &mut AppConfig| c.server.max_concurrent = 0) as fn(&mut AppConfig),
        |c: &mut AppConfig| c.server.queue_capacity = 0,
        |c: &mut AppConfig| c.server.max_concurrent_per_user = 0,
        |c: &mut AppConfig| c.server.request_timeout_secs = 0,
    ] {
        let mut c = AppConfig::default();
        mutate(&mut c);
        assert!(c.validate().is_err());
    }
}

#[test]
fn every_router_name_resolves() {
    for name in ["mixtral", "deepseek", "qwen"] {
        let mut c = AppConfig::default();
        c.model.router = name.into();
        assert!(c.validate().is_ok(), "{name} was rejected");
    }
    let mut c = AppConfig::default();
    c.model.router = "gpt".into();
    assert!(c.validate().is_err());
}

fn config_message(r: Result<usize, GarudaError>) -> String {
    match r {
        Err(GarudaError::Config(m)) => m,
        other => panic!("not a configuration error: {other:?}"),
    }
}

#[test]
fn bad_sizes_say_what_is_wrong() {
    assert_eq!(config_message(parse_size("  ")), "size is empty");
    assert_eq!(
        config_message(parse_size("1.2.3MB")),
        "'1.2.3MB' is not a valid size"
    );
    assert_eq!(config_message(parse_size(".")), "'.' is not a valid size");
    assert_eq!(
        config_message(parse_size("12xb")),
        "unknown size unit 'XB' in '12xb'"
    );
    assert_eq!(
        config_message(parse_size("99999999999TB")),
        "size '99999999999TB' does not fit in memory"
    );
    assert_eq!(
        config_message(parse_size("99999999999999999999999999999999999999999999")),
        "size '99999999999999999999999999999999999999999999' does not fit in memory"
    );
}

#[test]
fn fractions_of_a_unit_are_rounded_down() {
    assert_eq!(parse_size("1.5K").unwrap(), 1536);
    assert_eq!(parse_size(".25 kib").unwrap(), 256);
    assert_eq!(parse_size("0.3K").unwrap(), 307);
    assert_eq!(parse_size("2.").unwrap(), 2);
    assert_eq!(parse_size("\t7 b ").unwrap(), 7);
    assert_eq!(parse_size("1T").unwrap(), 1 << 40);
    let chars: Vec<char> = "3M".chars().collect();
    assert_eq!(parse_normalised("3m", &chars).unwrap(), 3 << 20);
}

#[test]
fn a_checkpoint_brings_its_own_architecture() {
    let mut c = AppConfig::default();
    c.model.gguf = " model.gguf ".into();
    c.model.router = "none".into();
    c.model.top_k = 99;
    assert!(c.validate().is_ok(), "router and experts are ignored");
    assert_eq!(c.gguf_path().as_deref(), Some("model.gguf"));
    c.model.gguf = "   ".into();
    assert_eq!(c.gguf_path(), None);
    assert!(c.validate().is_err());
}

#[test]
fn refusals_come_in_order_with_their_own_words() {
    let refused = |c: &AppConfig| match c.validate() {
        Err(ConfigFault::Refused(e)) => e.message(),
        other => panic!("{other:?}"),
    };
    let mut c = AppConfig::default();
    c.model.context = 0;
    assert_eq!(
        refused(&c),
        "configuration error: model.context must be at least 1"
    );
    c.model.context = 8;
    c.model.sliding_window = 9;
    assert_eq!(
        refused(&c),
        "configuration error: model.sliding_window (9) exceeds model.context (8)"
    );
    c.memory.expert_cache = "lots".into();
    assert_eq!(
        refused(&c),
        "configuration error: 'lots' is not a valid size"
    );
    c.sampling.max_tokens = 0;
    assert_eq!(
        c.validate(),
        Err(ConfigFault::Sampling(SamplingFault::MaxTokens))
    );
    c.model.router = "gpt".into();
    assert_eq!(
        refused(&c),
        "configuration error: unknown router 'gpt' (expected mixtral, deepseek or qwen)"
    );
}

#[test]
fn accessors_hand_out_what_was_configured() {
    let mut c = AppConfig::default();
    assert_eq!(c.expert_cache_bytes().unwrap(), 512 << 20);
    assert_eq!(c.prompt_cache_bytes().unwrap(), 512 << 20);
    assert_eq!(c.sliding_window(), None);
    c.model.sliding_window = 64;
    assert_eq!(c.sliding_window(), Some(64));
    assert_eq!(c.archive_path(), None);
    c.memory.archive_path = " /cold ".into();
    assert_eq!(c.archive_path().as_deref(), Some("/cold"));
    assert_eq!(c.draft_path(), None);
    c.model.draft_gguf = "draft.gguf".into();
    assert_eq!(c.draft_path().as_deref(), Some("draft.gguf"));
    assert_eq!(
        c.scheduler(),
        SchedulerConfig {
            max_concurrent: 4,
            speculative_lookahead: 4,
            queue_capacity: 256,
            max_concurrent_per_user: 8
        }
    );
    assert_eq!(c.request_timeout(), 120);
    let p = c.sampling().unwrap();
    assert_eq!(f32::from_bits(p.temperature_bits), 0.8);
    assert_eq!(f32::from_bits(p.top_p_bits), 0.95);
    assert_eq!((p.top_k, p.max_tokens, p.seed), (40, 256, None));
    let d = c.dims().unwrap();
    assert_eq!((d.d_model, d.n_experts, d.top_k), (128, 8, 2));
    assert_eq!(f32::from_bits(d.rope_theta_bits), 10000.0);
}

#[test]
fn the_command_line_overrides_the_address_alone() {
    let mut cli = Cli::default();
    assert_eq!(cli.config, "config.toml");
    let mut c = AppConfig::default();
    c.server.port = 8090;
    let same = cli.apply(c.clone());
    assert_eq!(same, c, "nothing was asked for");
    cli.host = Some("0.0.0.0".into());
    cli.port = Some(9000);
    let moved = cli.apply(c.clone());
    assert_eq!(moved.server.host, "0.0.0.0");
    assert_eq!(moved.server.port, 9000);
    c.server.host = "0.0.0.0".into();
    c.server.port = 9000;
    assert_eq!(moved, c);
}

/// However a size is written: case, spelling of the unit and spaces make no difference.
#[test]
fn the_spelling_of_a_size_does_not_matter() {
    let units: [(&[&str], u32); 5] = [
        (&["", "b", "B"], 0),
        (&["k", "kb", "Kb", "KiB", "KIB"], 10),
        (&["m", "MB", "mib", "MiB"], 20),
        (&["G", "gb", "GiB"], 30),
        (&["t", "Tb", "tIb"], 40),
    ];
    for x in [0usize, 1, 7, 10, 1023, 8191] {
        for (spellings, shift) in units {
            for u in spellings {
                for s in [
                    format!("{x}{u}"),
                    format!("  {x} {u}\t"),
                    format!("\u{3000}{x}{}", u.chars().map(|c| format!(" {c}")).collect::<String>()),
                ] {
                    assert_eq!(parse_size(&s).unwrap(), x << shift, "'{s}'");
                }
            }
        }
    }
}

/// A size is what a double makes of the number: rounded to 53 bits, and to whole bytes then.
#[test]
fn sizes_are_those_of_a_double() {
    assert_eq!(parse_size("9007199254740993").unwrap(), 9007199254740992);
    assert_eq!(parse_size("9007199254740995").unwrap(), 9007199254740996);
    assert_eq!(parse_size("0.99999999999999999999").unwrap(), 1);
    assert_eq!(parse_size("0.9999999999999999").unwrap(), 0);
    assert_eq!(parse_size("18446744073709551615").unwrap(), usize::MAX);
    assert_eq!(parse_size("18446744073709551616").unwrap(), usize::MAX);
    assert_eq!(parse_size("18446744073709553664").unwrap(), usize::MAX);
    assert_eq!(
        config_message(parse_size("18446744073709553665")),
        "size '18446744073709553665' does not fit in memory"
    );
    let mut x: u64 = 88172645463325252;
    for i in 0..4000u32 {
        x ^= x << 13;
        x ^= x >> 7;
        x ^= x << 17;
        let places = (x % 40) as usize;
        let whole = x >> (i % 64);
        let rest: String = format!("{x}{}", x.rotate_left(29)).chars().take(places).collect();
        let number = if places == 0 {
            format!("{whole}")
        } else {
            format!("{whole}.{rest}")
        };
        for (unit, mult) in [("", 1.0f64), ("K", 1024.0), ("T", 1024.0 * 1024.0 * 1024.0 * 1024.0)] {
            let bytes = number.parse::<f64>().unwrap() * mult;
            let s = format!("{number}{unit}");
            if bytes > usize::MAX as f64 {
                assert_eq!(config_message(parse_size(&s)), format!("size '{s}' does not fit in memory"));
            } else {
                assert_eq!(parse_size(&s).unwrap(), bytes as usize, "'{s}'");
            }
        }
    }
}

/// A number that no double is near is no size at all, whatever its unit.
#[test]
fn endless_numbers_are_no_sizes() {
    // Two to the 1024th less two to the 970th, and one less.
    let endless = "179769313486231580793728971405303415079934132710037826936173778980444968292764750946649017977587207096330286416692887910946555547851940402630657488671505820681908902000708383676273854845817711531764475730270069855571366959622842914819860834936475292719074168444365510704342711559699508093042880177904174497792";
    let last = "179769313486231580793728971405303415079934132710037826936173778980444968292764750946649017977587207096330286416692887910946555547851940402630657488671505820681908902000708383676273854845817711531764475730270069855571366959622842914819860834936475292719074168444365510704342711559699508093042880177904174497791";
    let zeros = "0".repeat(400);
    let nines = "9".repeat(400);
    for (number, ends) in [
        (endless.to_owned(), false),
        (format!("{zeros}{endless}.5"), false),
        (nines, false),
        (last.to_owned(), true),
        (format!("{last}.999"), true),
        (format!("1{}", "0".repeat(308)), true),
        (format!("2{}", "0".repeat(308)), false),
    ] {
        assert_eq!(number.parse::<f64>().unwrap().is_finite(), ends);
        for unit in ["", "KB", "XB"] {
            let s = format!("{number}{unit}");
            let told = config_message(parse_size(&s));
            if !ends {
                assert_eq!(told, format!("'{s}' is not a valid size"));
            } else if unit == "XB" {
                assert_eq!(told, format!("unknown size unit 'XB' in '{s}'"));
            } else {
                assert_eq!(told, format!("size '{s}' does not fit in memory"));
            }
        }
    }
    assert_eq!(parse_size(&format!("{zeros}12K")).unwrap(), 12288);
}

/// White space and the case of letters are what std takes them for.
#[test]
fn characters_are_classed_as_std_classes_them() {
    for n in 0..=0x10FFFFu32 {
        let Some(c) = char::from_u32(n) else {
            continue;
        };
        assert_eq!(is_white(c), c.is_whitespace(), "{n:x}");
    }
    assert_eq!(trim("\u{a0} a b\u{2029}\n"), "a b");
    let all: String = (0..0x250u32).filter_map(char::from_u32).collect();
    assert_eq!(ascii_lowercase(&all), all.to_ascii_lowercase());
    assert_eq!(ascii_uppercase(&all), all.to_ascii_uppercase());
}
