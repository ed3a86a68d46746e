use garuda::memory::{expert_from_bytes, expert_path, expert_to_bytes, resolve, Loaded, MemoryManager, MemoryTier,
    Prefetched, Tier, shallowest};
use garuda::types::{Expert, ExpertId, GarudaError, ModelDims, StorageBackend};
use std::collections::HashMap;
use std::sync::{Arc, Mutex};

/// A tier that keeps its files in memory.
struct Shelf(Mutex<HashMap<String, Vec<u8>>>);

impl Shelf {
    fn new() -> Arc<Self> {
        Arc::new(Self(Mutex::new(HashMap::new())))
    }
    fn has(&self, path: &str) -> bool {
        self.0.lock().unwrap().contains_key(path)
    }
    fn put(&self, path: &str, data: &[u8]) {
        self.0
            .lock()
            .unwrap()
            .insert(path.to_owned(), data.to_vec());
    }
}

impl StorageBackend for Shelf {
    fn read(&self, path: &str) -> Result<Vec<u8>, GarudaError> {
        self.0
            .lock()
            .unwrap()
            .get(path)
            .cloned()
            .ok_or_else(|| GarudaError::Storage(format!("no {path}")))
    }
    fn write(&self, path: &str, data: &[u8]) -> Result<(), GarudaError> {
        self.put(path, data);
        Ok(())
    }
    fn remove(&self, path: &str) -> Result<(), GarudaError> {
        self.0.lock().unwrap().remove(path);
        Ok(())
    }
    fn holds(&self, path: &str) -> bool {
        self.has(path)
    }
}

/// A stand-in for weights that no tier has: the same every time.
fn made_up(id: ExpertId, d: &ModelDims) -> Expert {
    let n = d.d_ff * d.d_model;
    let plane = |k: u32| -> Vec<u32> {
        (0..n as u32)
            .map(|i| ((i.wrapping_mul(2654435761) ^ (id * 8 + k)) as f32).to_bits())
            .collect()
    };
    Expert {
        id,
        gate: plane(0),
        up: plane(1),
        down: plane(2),
        dims: *d,
    }
}

struct Tiers {
    mm: MemoryManager,
    l2: Arc<Shelf>,
    l3: Arc<Shelf>,
}

impl Tiers {
    /// A load, with experts made where no tier has them.
    fn load(&mut self, id: ExpertId) -> Result<Arc<Expert>, GarudaError> {
        match self.mm.load(id)? {
            Loaded::Ready(e) => Ok(e),
            Loaded::Absent => {
                let e = Arc::new(made_up(id, &self.mm.dims()));
                self.mm.materialise(id, e.clone());
                Ok(e)
            }
        }
    }
    fn prefetch(&mut self, id: ExpertId) -> Result<(), GarudaError> {
        if let Prefetched::Absent = self.mm.prefetch(id)? {
            let e = Arc::new(made_up(id, &self.mm.dims()));
            self.mm.materialise(id, e);
            self.mm.count_prefetched();
        }
        Ok(())
    }
}

fn tiers(l1_budget: usize) -> Tiers {
    let (l2, l3) = (Shelf::new(), Shelf::new());
    let mm = MemoryManager::new(
        ModelDims::default(),
        l1_budget,
        Tier {
            backend: l2.clone(),
        },
        Some(Tier {
            backend: l3.clone(),
        }),
    )
    .unwrap();
    Tiers { mm, l2, l3 }
}

fn big_budget() -> usize {
    Expert::n_params(&ModelDims::default()) * 4 * 16
}

#[test]
fn first_load_synthesises_then_second_load_hits_l1() {
    let mut t = tiers(big_budget());
    assert_eq!(t.mm.locate(0), MemoryTier::Synthesised);

    let a = t.load(0).unwrap();
    assert_eq!(t.mm.tier_counts().synthesised, 1);
    assert_eq!(t.mm.locate(0), MemoryTier::L1Ram);

    let b = t.load(0).unwrap();
    assert_eq!(t.mm.tier_counts().l1, 1);
    assert!(
        Arc::ptr_eq(&a, &b),
        "L1 should hand back the same allocation"
    );

    // Synthesis materialised a real file in L2.
    assert!(t.l2.has("expert_0.bin"));
}

#[test]
fn evicted_expert_is_reloaded_from_l2_not_resynthesised() {
    // Budget for a single expert, so loading a second evicts the first.
    let one = Expert::n_params(&ModelDims::default()) * 4;
    let mut t = tiers(one);

    let first = t.load(0).unwrap();
    t.load(1).unwrap();
    assert!(!t.mm.is_resident(0), "expert 0 should have been evicted");
    assert_eq!(t.mm.locate(0), MemoryTier::L2Ssd);

    let again = t.load(0).unwrap();
    assert_eq!(t.mm.tier_counts().l2, 1, "should have come back from L2");
    assert_eq!(
        first.gate, again.gate,
        "reload must reproduce the weights exactly"
    );
}

#[test]
fn l3_hit_is_promoted_into_l2() {
    let mut t = tiers(big_budget());
    let dims = ModelDims::default();

    // Seed L3 only.
    let expert = made_up(5, &dims);
    t.l3.put("expert_5.bin", &expert_to_bytes(&expert));
    assert_eq!(t.mm.locate(5), MemoryTier::L3Archive);

    let loaded = t.load(5).unwrap();
    assert_eq!(t.mm.tier_counts().l3, 1);
    assert_eq!(loaded.down, expert.down);
    assert!(
        t.l2.has("expert_5.bin"),
        "an L3 hit must be promoted into L2"
    );
}

#[test]
fn a_corrupt_expert_file_is_an_error_not_a_panic() {
    let mut t = tiers(big_budget());
    t.l2.put("expert_3.bin", &[0u8, 1]);

    let err = t.load(3).unwrap_err();
    assert!(matches!(err, GarudaError::Model(_)), "got {err:?}");
    assert_eq!(
        err.message(),
        "model error: expert 3 file has 2 bytes, expected 393216"
    );
    assert!(!t.mm.is_resident(3));
}

#[test]
fn out_of_range_expert_is_rejected() {
    let mut t = tiers(big_budget());
    let n = ModelDims::default().n_experts as ExpertId;
    assert!(matches!(t.load(n).unwrap_err(), GarudaError::Model(_)));
}

#[test]
fn prefetch_warms_l1_and_is_a_no_op_when_already_resident() {
    let mut t = tiers(big_budget());
    assert!(!t.mm.is_resident(4));

    t.prefetch(4).unwrap();
    assert!(t.mm.is_resident(4));
    assert_eq!(t.mm.tier_counts().prefetched, 1);

    t.prefetch(4).unwrap();
    assert_eq!(
        t.mm.tier_counts().prefetched,
        1,
        "second prefetch should do nothing"
    );
    // One that a tier has is read from it.
    t.mm.unload(4);
    assert!(matches!(t.mm.prefetch(4), Ok(Prefetched::Warmed(_))));
    assert_eq!(t.mm.tier_counts().prefetched, 2);
    assert!(t.mm.prefetch(99).is_err());
}

#[test]
fn works_without_an_l3_tier() {
    let l2 = Shelf::new();
    let mm = MemoryManager::new(
        ModelDims::default(),
        big_budget(),
        Tier {
            backend: l2.clone(),
        },
        None,
    )
    .unwrap();
    let mut t = Tiers {
        mm,
        l2: l2.clone(),
        l3: Shelf::new(),
    };
    assert!(t.load(0).is_ok());
    assert!(l2.has("expert_0.bin"));
}

#[test]
fn experts_survive_their_files() {
    let dims = ModelDims::default();
    let e = made_up(2, &dims);
    let bytes = expert_to_bytes(&e);
    assert_eq!(bytes.len(), e.size_bytes());
    let back = expert_from_bytes(2, &dims, &bytes).unwrap();
    assert_eq!(
        (back.gate, back.up, back.down),
        (e.gate.clone(), e.up.clone(), e.down.clone())
    );
    assert_eq!(expert_path(12), "expert_12.bin");
}

#[test]
fn every_reply_of_a_tier_has_its_outcome() {
    let dims = ModelDims::default();
    assert!(matches!(resolve(0, &dims, &None), Ok(None)));
    let gone = Some((
        Err(GarudaError::Storage("gone".into())),
        MemoryTier::L2Ssd,
    ));
    assert_eq!(
        resolve(0, &dims, &gone).unwrap_err(),
        GarudaError::Storage("gone".into())
    );
    let bytes = expert_to_bytes(&made_up(1, &dims));
    let found = Some((Ok(bytes), MemoryTier::L3Archive));
    let Ok(Some((e, tier))) = resolve(1, &dims, &found) else {
        panic!("not resolved");
    };
    assert_eq!((e.id, tier), (1, MemoryTier::L3Archive));
}

#[test]
fn a_cache_that_cannot_hold_the_dimensions_is_refused() {
    let mut dims = ModelDims::default();
    dims.top_k = 0;
    let r = MemoryManager::new(
        dims,
        1,
        Tier {
            backend: Shelf::new(),
        },
        None,
    );
    assert!(matches!(r, Err(GarudaError::Config(_))));
}

#[test]
fn the_disk_comes_before_the_archive() {
    assert_eq!(shallowest(true, true), MemoryTier::L2Ssd);
    assert_eq!(shallowest(true, false), MemoryTier::L2Ssd);
    assert_eq!(shallowest(false, true), MemoryTier::L3Archive);
    assert_eq!(shallowest(false, false), MemoryTier::Synthesised);
}
