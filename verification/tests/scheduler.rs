use garuda::runtime::StopReason;
use garuda::scheduler::{
    CancelFlag, Fate, Pacing, PrefillOutcome, Priority, Scheduler, SchedulerConfig, Stage,
    StreamEvent, PREFILL_TOKENS_INITIAL, PREFILL_TOKENS_MAX, PREFILL_TOKENS_MIN,
};
use garuda::types::GarudaError;

const MS: u64 = 1_000_000;

/// Admits, prefills and decodes one request, which stops after `n` steps.
fn run(s: &mut Scheduler, ticket: u64, n: usize) -> Vec<StreamEvent> {
    assert!(s.admit_waiting().contains(&ticket));
    s.prefilled(ticket, PrefillOutcome::Ready);
    let mut events = Vec::new();
    for i in 1..=n {
        assert_eq!(s.check(ticket, false, false, false), Fate::Runs);
        events.push(StreamEvent::Token(i as u32));
        let stop = if i == n {
            Some(StopReason::Length)
        } else {
            None
        };
        events.extend(s.stepped(ticket, false, stop));
    }
    events
}

#[test]
fn a_request_streams_tokens_and_then_finishes() {
    let mut s = Scheduler::new(SchedulerConfig::default());
    let t = s.submit("u1", Priority::Normal).unwrap();
    assert_eq!(s.stage(t), Some(Stage::Waiting));
    let events = run(&mut s, t, 6);
    assert_eq!(events.len(), 7);
    assert_eq!(
        events.last(),
        Some(&StreamEvent::Done(StopReason::Length))
    );
    assert_eq!(s.stats().completed, 1);
    assert_eq!(s.stage(t), None);
    assert!(s.is_idle());
}

#[test]
fn per_user_slots_come_back_when_a_client_disconnects() {
    let mut s = Scheduler::new(SchedulerConfig {
        max_concurrent_per_user: 2,
        ..SchedulerConfig::default()
    });
    for _ in 0..20 {
        let t = s.submit("victim", Priority::Normal).unwrap();
        s.admit_waiting();
        assert_eq!(s.check(t, false, true, false), Fate::Gone);
    }
    assert_eq!(s.stats().cancelled, 20);
    assert!(
        s.submit("victim", Priority::Normal).is_ok(),
        "user is locked out after disconnecting repeatedly"
    );
}

#[test]
fn a_user_over_their_concurrency_limit_is_rate_limited() {
    let mut s = Scheduler::new(SchedulerConfig {
        max_concurrent: 1,
        max_concurrent_per_user: 2,
        ..SchedulerConfig::default()
    });
    s.submit("u1", Priority::Normal).unwrap();
    s.submit("u1", Priority::Normal).unwrap();

    let err = s.submit("u1", Priority::Normal).unwrap_err();
    assert_eq!(err, GarudaError::RateLimit);
    assert_eq!(s.stats().rejected_rate_limit, 1);

    // A different user is unaffected.
    assert!(s.submit("u2", Priority::Normal).is_ok());
}

#[test]
fn a_full_queue_is_refused_rather_than_buffered() {
    let mut s = Scheduler::new(SchedulerConfig {
        max_concurrent: 1,
        queue_capacity: 2,
        max_concurrent_per_user: 1000,
        ..SchedulerConfig::default()
    });
    let mut saw_busy = false;
    for i in 0..64 {
        match s.submit(&format!("u{i}"), Priority::Normal) {
            Ok(_) => {
                s.admit_waiting();
            }
            Err(GarudaError::Busy) => {
                saw_busy = true;
                break;
            }
            Err(e) => panic!("unexpected {e:?}"),
        }
    }
    assert!(saw_busy, "an unbounded queue accepted everything");
    assert!(s.stats().rejected_busy >= 1);
}

#[test]
fn cancelling_stops_generation_early() {
    let mut s = Scheduler::new(SchedulerConfig::default());
    let t = s.submit("u1", Priority::Normal).unwrap();
    s.admit_waiting();
    s.prefilled(t, PrefillOutcome::Ready);
    let mut flag = CancelFlag::default();
    for _ in 0..2 {
        assert_eq!(s.check(t, flag.is_cancelled(), false, false), Fate::Runs);
        assert_eq!(s.stepped(t, false, None), None);
    }
    flag.cancel();
    let fate = s.check(t, flag.is_cancelled(), false, false);
    assert_eq!(
        fate.event(),
        Some(StreamEvent::Error(GarudaError::Cancelled))
    );
    assert!(s.stats().cancelled >= 1);
    assert_eq!(s.stage(t), None);
}

#[test]
fn pacing_sizes_a_chunk_to_cost_about_one_decode_step() {
    let mut p = Pacing::default();
    // Nothing measured yet: fall back to the starting guess.
    assert_eq!(p.chunk(), PREFILL_TOKENS_INITIAL);

    // A decode step costing 30 ms and prefill tokens costing 10 ms each means
    // three prompt tokens are worth about one step.
    p.observe_decode(30 * MS);
    p.observe_prefill(100 * MS, 10);
    assert_eq!(p.chunk(), 3);

    // A model ten times faster per prefill token takes ten times as many.
    let mut q = Pacing::default();
    q.observe_decode(30 * MS);
    q.observe_prefill(10 * MS, 10);
    assert_eq!(q.chunk(), 30);

    // And the estimate is held to sane bounds whatever the ratio says.
    let mut wild = Pacing::default();
    wild.observe_decode(60_000 * MS);
    wild.observe_prefill(1, 1000);
    assert_eq!(wild.chunk(), PREFILL_TOKENS_MAX);

    let mut tiny = Pacing::default();
    tiny.observe_decode(1);
    tiny.observe_prefill(1000 * MS, 1);
    assert_eq!(tiny.chunk(), PREFILL_TOKENS_MIN);
}

#[test]
fn pacing_smooths_rather_than_chasing_one_sample() {
    // Prefill tokens at one millisecond each, so that a chunk is the estimate of a
    // step in milliseconds.
    let mut p = Pacing::default();
    p.observe_prefill(MS, 1);
    p.observe_decode(100 * MS);
    // One outlier must not move the estimate all the way to it.
    p.observe_decode(500 * MS);
    let blended = p.chunk() as f64 / 1000.0;
    assert!(
        blended > 0.100 && blended < 0.250,
        "one sample moved the average to {blended}"
    );
}

#[test]
fn concurrent_requests_decode_together_and_each_gets_its_own_answer() {
    let mut s = Scheduler::new(SchedulerConfig {
        max_concurrent: 4,
        ..SchedulerConfig::default()
    });
    let tickets: Vec<u64> = (0..5)
        .map(|i| s.submit(&format!("u{i}"), Priority::Normal).unwrap())
        .collect();
    assert_eq!(
        s.admit_waiting(),
        tickets[..4].to_vec(),
        "four at once, oldest first"
    );
    for &t in &tickets[..4] {
        s.prefilled(t, PrefillOutcome::Ready);
    }
    assert_eq!(s.tickets_in(Stage::Decoding), tickets[..4].to_vec());
    assert_eq!(s.lookahead(), 0, "several already share a pass");
    assert_eq!(
        s.stepped(tickets[1], false, Some(StopReason::Eos)),
        Some(StreamEvent::Done(StopReason::Eos))
    );
    assert_eq!(s.stage(tickets[0]), Some(Stage::Decoding));
    assert_eq!(s.admit_waiting(), vec![tickets[4]], "its slot is free");
}

#[test]
fn a_request_that_outruns_its_timeout_is_stopped() {
    let mut s = Scheduler::new(SchedulerConfig::default());
    let t = s.submit("u1", Priority::Normal).unwrap();
    s.admit_waiting();
    let fate = s.check(t, false, false, true);
    assert_eq!(
        fate.event(),
        Some(StreamEvent::Error(GarudaError::Timeout))
    );
    assert_eq!(s.stats().timed_out, 1);
}

#[test]
fn high_priority_work_overtakes_low_priority_work_in_the_queue() {
    // A single decode slot, so everything after the first request must queue.
    let mut s = Scheduler::new(SchedulerConfig {
        max_concurrent: 1,
        queue_capacity: 64,
        max_concurrent_per_user: 64,
        ..SchedulerConfig::default()
    });
    let blocker = s.submit("blocker", Priority::Normal).unwrap();
    assert_eq!(s.admit_waiting(), vec![blocker]);

    // Queue four low-priority requests, then one high-priority one behind them.
    let low: Vec<u64> = (0..4)
        .map(|i| s.submit(&format!("low{i}"), Priority::Low).unwrap())
        .collect();
    let high = s.submit("high", Priority::High).unwrap();
    assert!(s.admit_waiting().is_empty());

    // Free the slot, and record the order in which they run.
    s.check(blocker, false, true, false);
    let mut order = Vec::new();
    while !s.is_idle() {
        for t in s.admit_waiting() {
            order.push(t);
            s.prefilled(t, PrefillOutcome::Ready);
            s.stepped(t, false, Some(StopReason::Eos));
        }
    }
    assert_eq!(order[0], high, "high priority did not overtake the queue");
    assert_eq!(order[1..], low[..], "equals run in the order they came");
}

#[test]
fn a_lone_sequence_guesses_ahead_and_a_prompt_alone_goes_in_whole() {
    let mut s = Scheduler::new(SchedulerConfig::default());
    let pacing = Pacing::default();
    let a = s.submit("a", Priority::Normal).unwrap();
    s.admit_waiting();
    assert_eq!(s.prefill_budget(&pacing), usize::MAX);
    s.prefilled(a, PrefillOutcome::More);
    assert_eq!(s.stage(a), Some(Stage::Prefilling));
    s.prefilled(a, PrefillOutcome::Ready);
    assert_eq!(s.lookahead(), 4);
    assert_eq!(s.prefill_budget(&pacing), PREFILL_TOKENS_INITIAL);
    s.fail(a);
    assert_eq!(s.stats().failed, 1);
    assert_eq!(s.lookahead(), 0);
}

#[test]
fn requests_that_go_away_unseen_are_still_counted() {
    let mut s = Scheduler::new(SchedulerConfig::default());
    let a = s.submit("a", Priority::Normal).unwrap();
    let b = s.submit("b", Priority::Normal).unwrap();
    s.withdraw(&[a]);
    assert_eq!(s.stats().cancelled, 1);
    s.admit_waiting();
    assert_eq!(s.stage(b), Some(Stage::Prefilling));
    s.prefilled(b, PrefillOutcome::Ready);
    assert_eq!(s.stepped(b, true, Some(StopReason::Eos)), None);
    assert_eq!(s.stats().cancelled, 2);
    let c = s.submit("c", Priority::Normal).unwrap();
    s.admit_waiting();
    s.prefilled(c, PrefillOutcome::Ready);
    s.lose_batch();
    assert!(s.is_idle());
    s.shut_down();
    assert!(s.submit("d", Priority::Normal).is_err());
    assert_eq!(s.config().max_concurrent, 4);
}

#[test]
fn priorities_are_named_in_any_case() {
    assert_eq!("LOW".parse::<Priority>().unwrap(), Priority::Low);
    assert_eq!(Priority::parse("").unwrap(), Priority::Normal);
    assert_eq!(Priority::parse("High").unwrap(), Priority::High);
    assert!(Priority::Low < Priority::High);
    assert!("soon".parse::<Priority>().is_err());
}
