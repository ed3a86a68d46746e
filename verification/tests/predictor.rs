use garuda::predictor::ExpertPredictor;
use garuda::prefetch::PrefetchEngine;
use garuda::types::ExpertId;
use std::collections::HashSet;

#[test]
fn predicts_nothing_before_it_has_learned_anything() {
    let p = ExpertPredictor::new(8);
    assert!(p.predict(&[0, 1], 2).is_empty());
    assert!(p.predict(&[], 2).is_empty());
}

#[test]
fn learns_a_repeated_transition() {
    let mut p = ExpertPredictor::new(8);
    // Experts {0,1} are consistently followed by {3,4}.
    for _ in 0..10 {
        p.observe(&[0, 1], &[3, 4]);
    }
    let got = p.predict(&[0, 1], 2);
    assert_eq!(got.len(), 2);
    assert!(got.contains(&3) && got.contains(&4), "got {got:?}");
}

#[test]
fn prefers_the_more_frequent_successor() {
    let mut p = ExpertPredictor::new(4);
    for _ in 0..9 {
        p.observe(&[0], &[1]);
    }
    p.observe(&[0], &[2]);
    assert_eq!(p.predict(&[0], 1), vec![1]);
    assert_eq!(p.predict(&[0], 2), vec![1, 2]);
}

#[test]
fn ignores_out_of_range_expert_ids() {
    let mut p = ExpertPredictor::new(4);
    p.observe(&[99], &[1]);
    p.observe(&[0], &[99]);
    assert!(p.predict(&[99], 2).is_empty());
    assert!(
        p.predict(&[0], 2).is_empty(),
        "the 99 transition must not be recorded"
    );
}

#[test]
fn saturating_counts_do_not_overflow() {
    let mut p = ExpertPredictor::new(2);
    p.counts[0] = u32::MAX;
    p.observe(&[0], &[0]); // would overflow a wrapping add
    assert_eq!(p.predict(&[0], 1), vec![0]);
}

#[test]
fn scoring_tracks_precision_and_recall() {
    let mut p = ExpertPredictor::new(8);
    p.score(&[1, 2], &[2, 3]); // 1 correct (2), 1 wasted (1), 1 missed (3)
    let s = p.stats();
    assert_eq!(s.correct, 1);
    assert_eq!(s.wasted, 1);
    assert_eq!(s.missed, 1);
    let ratio = |(a, b): (u64, u128)| a as f64 / b as f64;
    assert!((ratio(s.precision_parts()) - 0.5).abs() < 1e-9);
    assert!((ratio(s.recall_parts()) - 0.5).abs() < 1e-9);
}

#[test]
fn ties_go_to_the_lower_id() {
    let mut p = ExpertPredictor::new(4);
    p.observe(&[1], &[3]);
    p.observe(&[1], &[2]);
    assert_eq!(p.predict(&[1], 1), vec![2]);
    assert_eq!(p.n_experts(), 4);
}

/// A prediction is the history: as many as were asked for and ever seen, most often first.
#[test]
fn predictions_follow_the_history() {
    let mut p = ExpertPredictor::new(6);
    p.observe(&[0, 1], &[2, 5]);
    p.observe(&[1], &[2, 3]);
    p.observe(&[4], &[0]);
    // After 0 and 1: expert 2 three times, 5 twice, 3 once, no other ever.
    assert_eq!(p.predict(&[0, 1], 9), vec![2, 5, 3]);
    assert_eq!(p.predict(&[0, 1], 2), vec![2, 5]);
    // One that fired twice counts twice, and one that does not exist not at all.
    assert_eq!(p.predict(&[4, 4, 1, 99], 9), vec![0, 2, 3, 5]);
    assert!(p.predict(&[], 9).is_empty());
    assert!(p.predict(&[0, 1], 0).is_empty());
    assert!(p.predict(&[3], 9).is_empty());
}

/// Counts what the engine asks for.
struct Spy {
    resident: HashSet<ExpertId>,
    calls: usize,
    engine: PrefetchEngine,
}

impl Spy {
    fn new(enabled: bool) -> Self {
        Self {
            resident: HashSet::new(),
            calls: 0,
            engine: PrefetchEngine::new(ExpertPredictor::new(8), enabled, 2),
        }
    }
    fn observe_step(
        &mut self,
        prev: &[ExpertId],
        used: &[ExpertId],
        guessed: &[ExpertId],
    ) -> Vec<ExpertId> {
        let predicted = self.engine.observe_step(prev, used, guessed);
        for &id in &predicted {
            if self.engine.warm(id, self.resident.contains(&id)) {
                self.calls += 1;
                self.resident.insert(id);
                self.engine.finished(id);
            }
        }
        predicted
    }
}

#[test]
fn disabled_engine_does_nothing() {
    let mut e = Spy::new(false);
    for _ in 0..5 {
        e.observe_step(&[0], &[1], &[]);
    }
    assert_eq!(e.engine.launched(), 0);
    assert_eq!(e.calls, 0);
}

#[test]
fn cold_engine_makes_no_prediction() {
    let mut e = Spy::new(true);
    let predicted = e.observe_step(&[], &[0, 1], &[]);
    assert!(
        predicted.is_empty(),
        "an untrained predictor must stay quiet"
    );
    assert!(e.engine.is_drained());
    assert_eq!(e.calls, 0);
}

#[test]
fn warms_the_experts_a_learned_pattern_implies() {
    let mut e = Spy::new(true);

    // Teach it {0,1} -> {4,5}, alternating, without ever letting the loader
    // keep anything resident (so every prediction is a real fetch).
    let mut predicted = Vec::new();
    let mut prev: Vec<ExpertId> = Vec::new();
    for step in 0..12 {
        let used: Vec<ExpertId> = if step % 2 == 0 {
            vec![0, 1]
        } else {
            vec![4, 5]
        };
        predicted = e.observe_step(&prev, &used, &predicted);
        prev = used;
        e.resident.clear();
    }

    assert!(e.engine.launched() > 0, "nothing was ever prefetched");
    assert!(e.calls > 0, "the loader was never asked to warm anything");

    let stats = e.engine.predictor_stats();
    assert!(
        stats.correct > 0,
        "a perfectly regular pattern was never predicted"
    );
    let (a, b) = stats.precision_parts();
    assert!(
        a as f64 / b as f64 > 0.5,
        "precision {a}/{b} on a deterministic alternating pattern"
    );
}

#[test]
fn does_not_refetch_a_resident_expert() {
    let mut e = Spy::new(true);

    // Teach a two-cycle so both experts have a recorded successor and both end
    // up fetched (the spy keeps whatever it loads).
    for _ in 0..10 {
        e.observe_step(&[1], &[0], &[]);
        e.observe_step(&[0], &[1], &[]);
    }
    assert!(
        e.resident.contains(&0) && e.resident.contains(&1),
        "the pattern should have warmed both experts"
    );

    let calls_before = e.calls;
    let skips_before = e.engine.skipped();

    // Predicting an expert that is already resident must not fetch it again.
    e.observe_step(&[0], &[1], &[]);

    assert_eq!(e.calls, calls_before, "refetched a resident expert");
    assert!(
        e.engine.skipped() > skips_before,
        "the skip was not recorded"
    );
}

#[test]
fn a_load_in_flight_is_not_launched_again() {
    let mut e = PrefetchEngine::new(ExpertPredictor::new(4), true, 1);
    assert!(e.warm(2, false));
    assert!(!e.warm(2, false));
    assert!(!e.is_drained());
    e.finished(2);
    assert!(e.is_drained());
    assert!(e.warm(2, false));
    assert_eq!((e.launched(), e.skipped()), (2, 1));
}

/// A count is the number of times that one expert was seen to follow another.
#[test]
fn counts_are_the_observations() {
    let history: Vec<(Vec<ExpertId>, Vec<ExpertId>)> = vec![
        (vec![0, 1], vec![2, 3]),
        (vec![0, 0], vec![2, 2, 1]),
        (vec![3], vec![]),
        (vec![], vec![1]),
        (vec![9, 1], vec![3, 9]),
    ];
    let mut p = ExpertPredictor::new(4);
    for (prev, next) in &history {
        p.observe(prev, next);
    }
    for a in 0..4u32 {
        for b in 0..4u32 {
            let times: usize = history
                .iter()
                .map(|(prev, next)| {
                    prev.iter().filter(|x| **x == a).count()
                        * next.iter().filter(|x| **x == b).count()
                })
                .sum();
            assert_eq!(p.counts[(a * 4 + b) as usize] as usize, times, "{a} to {b}");
        }
    }
    assert_eq!(p.counts[2], 5);
}
