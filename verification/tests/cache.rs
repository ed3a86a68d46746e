use garuda::cache::expert::ExpertCache;
use garuda::cache::kv::{KVCacheState, KvConfig};
use garuda::cache::prompt::{prompt_key, PromptCache};
use garuda::cache::sequence::SeqState;
use garuda::types::{Expert, ExpertId, GarudaError, ModelDims, StorageBackend};
use std::collections::HashMap;
use std::sync::{Arc, Mutex};

/// A tier that keeps its files in memory.
struct Shelf(Mutex<HashMap<String, Vec<u8>>>);

impl Shelf {
    fn new() -> Arc<Self> {
        Arc::new(Self(Mutex::new(HashMap::new())))
    }
    fn files(&self) -> usize {
        self.0.lock().unwrap().len()
    }
}

impl StorageBackend for Shelf {
    fn read(&self, path: &str) -> Result<Vec<u8>, GarudaError> {
        self.0
            .lock()
            .unwrap()
            .get(path)
            .cloned()
            .ok_or_else(|| GarudaError::Storage(format!("no {path}")))
    }
    fn write(&self, path: &str, data: &[u8]) -> Result<(), GarudaError> {
        self.0
            .lock()
            .unwrap()
            .insert(path.to_owned(), data.to_vec());
        Ok(())
    }
    fn remove(&self, path: &str) -> Result<(), GarudaError> {
        self.0.lock().unwrap().remove(path);
        Ok(())
    }
    fn holds(&self, path: &str) -> bool {
        self.0.lock().unwrap().contains_key(path)
    }
}

fn bits(v: &[f32]) -> Vec<u32> {
    v.iter().map(|x| x.to_bits()).collect()
}

fn dims() -> ModelDims {
    ModelDims {
        block_size: 4,
        ..ModelDims::default()
    }
}

fn kv_cfg(storage: Option<Arc<dyn StorageBackend>>, max_resident: usize) -> KvConfig {
    KvConfig::mha(dims(), 64, max_resident, None, storage)
}

fn some_expert(id: ExpertId, d: &ModelDims) -> Expert {
    let n = d.d_ff * d.d_model;
    let plane = |k: usize| -> Vec<u32> {
        (0..n)
            .map(|i| (i as f32 * 0.01 + k as f32 + id as f32).to_bits())
            .collect()
    };
    Expert {
        id,
        gate: plane(0),
        up: plane(1),
        down: plane(2),
        dims: *d,
    }
}

#[test]
fn expert_cache_evicts_by_byte_budget() {
    let d = ModelDims::default();
    let one = some_expert(0, &d);
    let size = one.size_bytes();

    // Budget for exactly two experts.
    let mut cache = ExpertCache::new(size * 2);
    cache.insert(0, Arc::new(one));
    cache.insert(1, Arc::new(some_expert(1, &d)));
    assert!(cache.contains(0) && cache.contains(1));

    // Touch 0 so that 1 becomes the least-recently-used, then overflow.
    assert!(cache.get(0).is_some());
    let evicted = cache.insert(2, Arc::new(some_expert(2, &d)));

    assert_eq!(evicted, vec![1], "LRU victim should be expert 1");
    assert!(cache.contains(0) && cache.contains(2));
    assert!(!cache.contains(1));
    assert!(cache.stats().bytes <= size * 2);
    assert_eq!(cache.stats().evictions, 1);
    assert_eq!(cache.stats().hits, 1);
    assert!(cache.get(1).is_none());
    assert_eq!(cache.stats().misses, 1);
    cache.remove(0);
    assert_eq!(cache.stats().entries, 1);
}

#[test]
fn an_expert_larger_than_the_budget_still_gets_in() {
    let d = ModelDims::default();
    let mut cache = ExpertCache::new(0);
    assert!(cache.insert(7, Arc::new(some_expert(7, &d))).is_empty());
    assert!(cache.contains(7));
    assert_eq!(cache.insert(8, Arc::new(some_expert(8, &d))), vec![7]);
}

#[test]
fn kv_append_is_capped_by_the_context_window() {
    let d = dims();
    let mut kv = KVCacheState::new(
        &KvConfig {
            max_positions: 3,
            ..kv_cfg(None, 8)
        },
        1,
    );
    let v = bits(&vec![0.5; d.d_model]);
    for _ in 0..3 {
        kv.append(&v, &v).unwrap();
    }
    let err = kv.append(&v, &v).unwrap_err();
    assert!(matches!(err, GarudaError::Cache(_)), "got {err:?}");
    assert_eq!(kv.len(), 3);
}

#[test]
fn kv_append_rejects_wrong_dimension() {
    let mut kv = KVCacheState::new(&kv_cfg(None, 8), 1);
    let v = bits(&[1.0, 2.0]);
    assert!(kv.append(&v, &v).is_err());
    assert_eq!(kv.len(), 0);
}

#[test]
fn kv_spills_to_disk_and_reads_back_identical_values() {
    let shelf = Shelf::new();
    let d = dims();
    // block_size is 4 and only one block may stay resident, so spilling starts early.
    let mut kv = KVCacheState::new(&kv_cfg(Some(shelf.clone()), 1), 42);

    let mut expected = Vec::new();
    for p in 0..12 {
        let k: Vec<f32> = (0..d.d_model).map(|i| p as f32 + i as f32 * 0.01).collect();
        let v: Vec<f32> = k.iter().map(|x| -x).collect();
        kv.append(&bits(&k), &bits(&v)).unwrap();
        expected.push((bits(&k), bits(&v)));
    }

    assert!(kv.spill_count() > 0, "nothing was spilled");
    assert!(
        kv.key_at(0).is_none(),
        "position 0 should be on disk, not in RAM"
    );
    assert!(shelf.files() > 0, "spill wrote no bytes");

    kv.ensure_resident(0, 12).unwrap();
    assert!(kv.reload_count() > 0);
    for (p, (k, v)) in expected.iter().enumerate() {
        assert_eq!(kv.key_at(p).unwrap(), &k[..], "key at {p}");
        assert_eq!(kv.value_at(p).unwrap(), &v[..], "value at {p}");
    }
    kv.purge_spill_files();
}

/// Truncating must leave the cache byte for byte as if the dropped positions had never
/// been appended: that is what lets a rejected speculation be undone.
#[test]
fn truncate_rewinds_to_exactly_the_state_before_the_extra_appends() {
    let d = dims();
    let make = || KVCacheState::new(&kv_cfg(None, 64), 1);
    let vec_at = |p: usize| -> Vec<u32> {
        (0..d.d_model)
            .map(|i| (p as f32 + i as f32 * 0.01).to_bits())
            .collect()
    };

    // Ten positions, then five more that we will take back.
    let mut rewound = make();
    for p in 0..15 {
        let v = vec_at(p);
        rewound.append(&v, &v).unwrap();
    }
    rewound.truncate(10).unwrap();

    // The same cache built with only the first ten.
    let mut reference = make();
    for p in 0..10 {
        let v = vec_at(p);
        reference.append(&v, &v).unwrap();
    }

    assert_eq!(rewound.len(), reference.len());
    for p in 0..10 {
        assert_eq!(rewound.key_at(p), reference.key_at(p), "key at {p}");
        assert_eq!(rewound.value_at(p), reference.value_at(p), "value at {p}");
    }
    assert!(rewound.key_at(10).is_none(), "position 10 survived the cut");

    // And appending after a rewind continues from the right place.
    let v = vec_at(99);
    rewound.append(&v, &v).unwrap();
    assert_eq!(rewound.len(), 11);
    assert_eq!(rewound.key_at(10).unwrap(), &v[..]);
}

#[test]
fn truncate_handles_block_boundaries_and_no_ops() {
    let d = dims(); // block_size 4
    let mut kv = KVCacheState::new(&kv_cfg(None, 64), 1);
    let v = bits(&vec![0.5; d.d_model]);
    for _ in 0..12 {
        kv.append(&v, &v).unwrap();
    }

    // Exactly on a block boundary: the whole block goes.
    kv.truncate(8).unwrap();
    assert_eq!(kv.len(), 8);
    assert!(kv.key_at(8).is_none());

    // Asking to truncate to something longer is a no-op, not an error.
    kv.truncate(100).unwrap();
    assert_eq!(kv.len(), 8);

    // All the way back to empty.
    kv.truncate(0).unwrap();
    assert_eq!(kv.len(), 0);
    assert!(kv.is_empty());
    kv.append(&v, &v).unwrap();
    assert_eq!(kv.len(), 1);
}

#[test]
fn truncate_refuses_to_cut_into_a_spilled_block() {
    let shelf = Shelf::new();
    let d = dims();
    let mut kv = KVCacheState::new(&kv_cfg(Some(shelf), 1), 7);
    let v = bits(&vec![0.25; d.d_model]);
    for _ in 0..12 {
        kv.append(&v, &v).unwrap();
    }
    assert!(kv.has_spill(), "fixture did not spill");

    // Position 1 sits inside block 0, which is on disk. Refuse rather than quietly
    // reload it: a speculation rewind never reaches back this far.
    let err = kv.truncate(1).unwrap_err();
    assert!(matches!(err, GarudaError::Cache(_)), "got {err:?}");
    assert_eq!(kv.len(), 12, "a refused truncate must change nothing");
    kv.purge_spill_files();
}

#[test]
fn a_lost_spill_file_is_an_error_and_a_windowed_read_needs_none() {
    let shelf = Shelf::new();
    let d = dims();
    let mut cfg = kv_cfg(Some(shelf.clone()), 1);
    cfg.sliding_window = Some(2);
    let mut kv = KVCacheState::new(&cfg, 3);
    let v = bits(&vec![0.25; d.d_model]);
    for _ in 0..9 {
        kv.append(&v, &v).unwrap();
    }
    assert_eq!(kv.attention_start(), 7);
    assert_eq!(kv.spill_path(0), "kv/seq_3/layer_0/block_0.bin");
    shelf.0.lock().unwrap().clear();
    assert!(kv.ensure_resident(8, 9).is_ok());
    assert!(kv.ensure_resident(0, 1).is_err());
}

/// A layer keeps every position it was given through appends, spills, reloads, cuts and a
/// new name. Only once its files are deleted are positions lost, and then it says so.
#[test]
fn a_layer_loses_nothing_until_its_files_are_deleted() {
    let shelf = Shelf::new();
    let d = dims();
    let row = |p: usize| bits(&vec![p as f32 + 0.5; d.d_model]);
    let mut kv = KVCacheState::new(&kv_cfg(Some(shelf.clone()), 2), 3);
    for p in 0..18 {
        kv.append(&row(p), &row(p + 100)).unwrap();
    }
    kv.truncate(15).unwrap();
    kv.ensure_resident(0, 15).unwrap();
    kv.rekey(4).unwrap();
    for p in 15..21 {
        kv.append(&row(p), &row(p + 100)).unwrap();
    }
    kv.ensure_resident(0, 21).unwrap();
    for p in 0..21 {
        assert_eq!(kv.key_at(p).unwrap(), row(p));
        assert_eq!(kv.value_at(p).unwrap(), row(p + 100));
    }
    kv.append(&row(21), &row(121)).unwrap();
    assert!(kv.has_spill() && shelf.holds(&kv.spill_path(0)));
    kv.purge_spill_files();
    assert!(!shelf.holds(&kv.spill_path(0)));
    kv.truncate(2).unwrap();
    assert_eq!(kv.len(), 2);
    assert!(kv.key_at(0).is_none(), "the block went with its file");
}

#[test]
fn prompt_cache_hits_and_stays_bounded() {
    let mut cache = PromptCache::new(2, 64 << 20);
    let state = |id| SeqState::new(&kv_cfg(None, 4), id);

    cache.insert(&[1, 2, 3], state(1));
    assert!(
        cache.get(&[1, 2, 3], 10).is_some(),
        "exact prompt should hit"
    );
    assert!(cache.get(&[1, 2, 4], 11).is_none());

    cache.insert(&[4], state(2));
    cache.insert(&[5], state(3)); // evicts the least-recently-used entry

    assert_eq!(cache.stats().entries, 2, "capacity must hold");
    assert!(
        cache.get(&[1, 2, 3], 12).is_none(),
        "oldest should have been evicted"
    );
    assert!(cache.get(&[5], 13).is_some());
    assert_eq!((cache.stats().hits, cache.stats().misses), (2, 2));
}

#[test]
fn prompt_cache_hands_out_distinct_sequence_ids() {
    // Two requests hitting the same cached prompt must not share spill paths.
    let shelf = Shelf::new();
    let mut cache = PromptCache::new(4, 64 << 20);
    cache.insert(&[7, 8], SeqState::new(&kv_cfg(Some(shelf), 1), 1));

    let mut a = cache.get(&[7, 8], 100).unwrap();
    let mut b = cache.get(&[7, 8], 200).unwrap();

    let d = dims();
    let v = bits(&vec![0.25; d.d_model]);
    // Force both to spill, then confirm they wrote to different files.
    for _ in 0..12 {
        a.kv().append(&v, &v).unwrap();
        b.kv().append(&v, &v).unwrap();
    }
    assert!(a.has_spill() && b.has_spill());

    // Purging `a` removes only `a`'s files; `b` must still read back.
    a.purge_spill_files();
    let n = b.len();
    b.kv().ensure_resident(0, n).unwrap();
    assert_eq!(b.kv().key_at(0).unwrap(), &v[..]);
}

/// Entries alone do not bound this cache: one entry is a whole sequence's attention
/// state, and a budget in bytes has to evict too.
#[test]
fn prompt_cache_evicts_on_bytes_before_the_entry_cap_is_reached() {
    let d = dims();
    // A state holding four positions, so its size is easy to reason about.
    let state = |id: u64| {
        let mut s = SeqState::new(&kv_cfg(None, 64), id);
        let v = bits(&vec![0.5; d.d_model]);
        for _ in 0..4 {
            s.kv().append(&v, &v).unwrap();
        }
        s
    };
    let one = state(1).resident_bytes();
    assert!(one > 0, "a populated state should occupy something");

    // Room for two by bytes, but a hundred by entry count.
    let mut cache = PromptCache::new(100, one * 2);
    cache.insert(&[1], state(1));
    cache.insert(&[2], state(2));
    assert_eq!(cache.stats().entries, 2);
    assert_eq!(cache.stats().bytes, one * 2);

    cache.insert(&[3], state(3));
    assert_eq!(
        cache.stats().entries,
        2,
        "the byte budget did not evict, though the entry cap was far away"
    );
    assert!(
        cache.stats().bytes <= one * 2,
        "over budget after inserting"
    );
    assert!(cache.get(&[1], 10).is_none(), "the oldest should have gone");
    assert!(cache.get(&[3], 11).is_some(), "the newest should be here");
}

#[test]
fn prompt_cache_declines_an_entry_larger_than_the_whole_budget() {
    let d = dims();
    let mut big = SeqState::new(&kv_cfg(None, 64), 1);
    let v = bits(&vec![0.5; d.d_model]);
    for _ in 0..8 {
        big.kv().append(&v, &v).unwrap();
    }
    // Budget smaller than this single entry: taking it would evict everything else and
    // then sit there alone.
    let mut cache = PromptCache::new(100, big.resident_bytes() / 2);
    cache.insert(&[9], big);
    assert_eq!(cache.stats().entries, 0);
    assert_eq!(cache.stats().bytes, 0);
}

#[test]
fn prompt_cache_refuses_to_store_spilled_state() {
    let shelf = Shelf::new();
    let d = dims();
    let mut state = SeqState::new(
        &KvConfig {
            max_resident_blocks: 1,
            ..kv_cfg(Some(shelf), 8)
        },
        9,
    );
    let v = bits(&vec![0.5; d.d_model]);
    for _ in 0..12 {
        state.kv().append(&v, &v).unwrap();
    }
    assert!(state.has_spill());

    let mut cache = PromptCache::new(4, 64 << 20);
    cache.insert(&[1], state);
    assert_eq!(cache.stats().entries, 0, "spilled state must not be cached");
}

#[test]
fn prompts_are_told_apart_by_their_digest() {
    assert_eq!(prompt_key(&[1, 2]), prompt_key(&[1, 2]));
    assert_ne!(prompt_key(&[1, 2]), prompt_key(&[2, 1]));
    assert_ne!(prompt_key(&[1]), prompt_key(&[1, 0]));
    let mut input = Vec::new();
    for t in [7u32, 300] {
        input.extend_from_slice(&t.to_le_bytes());
    }
    assert_eq!(prompt_key(&[7, 300]), *blake3::hash(&input).as_bytes());
}

#[test]
fn a_rejected_round_leaves_a_recurrent_sequence_as_it_was() {
    let mut s = SeqState::new(&kv_cfg(None, 8), 1);
    let d = dims();
    let v = bits(&vec![0.5; d.d_model]);
    s.kv().append(&v, &v).unwrap();
    {
        let l = s.linear(0, 3, 2).unwrap();
        l.state[0] = 1.0f32.to_bits();
        l.advance();
    }
    assert!(s.has_linear_state());
    assert!(
        s.truncate(0).is_err(),
        "a recurrent state cannot be rewound without a record"
    );
    s.begin_recording();
    assert!(s.recording());
    for step in 0..3 {
        s.kv().append(&v, &v).unwrap();
        let l = s.linear(0, 3, 2).unwrap();
        l.snapshot();
        l.state[1] = (step as f32).to_bits();
        l.advance();
    }
    s.truncate(2).unwrap();
    s.end_recording();
    assert_eq!(s.len(), 2);
    let l = s.linear(0, 3, 2).unwrap();
    assert_eq!(l.folded(), 2);
    assert_eq!(l.state, vec![1.0f32.to_bits(), 0.0f32.to_bits()]);
    assert!(s.linear(0, 3, 5).is_err(), "the shape is fixed");
}
