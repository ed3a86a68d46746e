use garuda::chat::ChatFormat;
use garuda::config::AppConfig;
use garuda::llama::config::DEFAULT_PREFILL_CHUNK;
use garuda::router::RouterType;
use garuda::server::{Backend, Engine, Warming};

#[test]
fn prefill_batching_is_on_by_default_and_overridable() {
    let mut c = AppConfig::default();
    assert_eq!(c.model.prefill_batch, 0, "0 means 'use the default'");
    assert_eq!(Engine::prefill_chunk(&c), DEFAULT_PREFILL_CHUNK);

    // There is no configuration it is withheld for, only an explicit opt-out.
    c.model.prefill_batch = 1;
    assert_eq!(Engine::prefill_chunk(&c), 1);
    c.model.prefill_batch = 64;
    assert_eq!(Engine::prefill_chunk(&c), 64);
}

#[test]
fn the_synthetic_engine_is_settled_by_the_configuration() {
    let mut c = AppConfig::default();
    c.model.router = "qwen".into();
    let (e, router, bytes) = Engine::build_synthetic(&c).unwrap();
    assert_eq!(router, RouterType::QwenMoe);
    assert_eq!(bytes, 512 << 20);
    assert!(matches!(e.backend, Backend::SyntheticMoe));
    assert_eq!(e.chat, ChatFormat::Plain);
    assert_eq!(e.kv.kv_dim, 128);
    assert_eq!(e.kv.n_layers, 1);
    assert_eq!(e.kv.max_positions, 4096);
    assert_eq!(e.warming, Warming::Experts { count: 8, depth: 2 });
    c.runtime.predictor = false;
    let (e, _, _) = Engine::build_synthetic(&c).unwrap();
    assert_eq!(e.warming, Warming::Nothing);
    c.memory.prompt_cache = "much".into();
    assert_eq!(
        Engine::build_synthetic(&c).unwrap_err().message(),
        "configuration error: 'much' is not a valid size"
    );
    c.model.router = "x".into();
    assert!(Engine::build_synthetic(&c)
        .unwrap_err()
        .message()
        .contains("unknown router 'x'"));
    c.model.top_k = 0;
    assert!(Engine::build_synthetic(&c)
        .unwrap_err()
        .message()
        .contains("top_k (0)"));
}

#[test]
fn spilling_without_a_window_is_warned_about() {
    let mut c = AppConfig::default();
    c.memory.kv_resident_blocks = 255;
    let (e, _, _) = Engine::build_synthetic(&c).unwrap();
    assert_eq!(e.kv.thrash(), Some(256), "4096 positions in blocks of 16");
    c.memory.kv_resident_blocks = 256;
    let (e, _, _) = Engine::build_synthetic(&c).unwrap();
    assert_eq!(e.kv.thrash(), None);
    c.memory.kv_resident_blocks = 1;
    c.model.sliding_window = 64;
    let (e, _, _) = Engine::build_synthetic(&c).unwrap();
    assert_eq!(e.kv.thrash(), None);
    c.model.sliding_window = 0;
    c.memory.kv_spill = false;
    let (e, _, _) = Engine::build_synthetic(&c).unwrap();
    assert_eq!(e.kv.thrash(), None);
    c.memory.kv_spill = true;
    c.model.context = 17;
    let (e, _, _) = Engine::build_synthetic(&c).unwrap();
    assert_eq!(e.kv.thrash(), Some(2), "a part of a block is a block");
    assert!(e.caches_nothing((512 << 20) + 1));
    assert!(!e.caches_nothing(512 << 20));
}

#[test]
fn directories_lie_under_the_model_path() {
    let mut c = AppConfig::default();
    assert_eq!(
        Engine::spill_dir(&c).as_deref(),
        Some("./models/kv_spill")
    );
    assert_eq!(Engine::l2_dir(&c), "./models/l2_cache");
    c.memory.kv_spill = false;
    assert_eq!(Engine::spill_dir(&c), None);
}
