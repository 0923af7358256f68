//! End-to-end tests for the deterministic simulation tester itself.

use faultline::checker::{check_linearizability, Op};
use faultline::linearizability::{is_linearizable, HistoryOp};
use faultline::runner::{find_violation, run, simulate, RunConfig};
use faultline::shrink::shrink;
use faultline::sim::Prob;

/// The threshold of a probability given as a fraction.
fn prob(p: f64) -> Prob {
    Prob { threshold: (p.clamp(0.0, 1.0) * (1u64 << 53) as f64).ceil() as u64 }
}

#[test]
fn finds_bug_in_buggy_config() {
    let cfg = RunConfig::default(); // reads from any node (buggy)
    // Some seed within a small range must expose a violation.
    let found = (0..200).any(|seed| run(seed, &cfg).violation.is_some());
    assert!(found, "DST should find the primary-backup stale-read bug");
}

#[test]
fn correct_config_has_no_violations() {
    // Reads from the primary only -> correct. Across many seeds, zero
    // violations. This is what proves the checker isn't just flagging noise.
    let cfg = RunConfig { read_from_primary_only: true, ..RunConfig::default() };
    for seed in 0..500 {
        let r = run(seed, &cfg);
        assert!(
            r.violation.is_none(),
            "correct (primary-read) config must never violate, but seed {seed} did: {:?}",
            r.violation
        );
    }
}

#[test]
fn runs_are_deterministic() {
    let cfg = RunConfig::default();
    for seed in [0u64, 1, 7, 42, 100] {
        let a = run(seed, &cfg);
        let b = run(seed, &cfg);
        assert_eq!(a.ops, b.ops, "seed {seed}: op count must match");
        assert_eq!(a.sent, b.sent, "seed {seed}: messages sent must match");
        match (a.violation, b.violation) {
            (Some(x), Some(y)) => {
                assert_eq!(x.kind, y.kind);
                assert_eq!(x.at_tick, y.at_tick);
            }
            (None, None) => {}
            _ => panic!("seed {seed}: violation presence diverged between runs"),
        }
    }
}

#[test]
fn default_run_config_values() {
    let c = RunConfig::default();
    assert_eq!((c.n_nodes, c.ticks, c.read_from_primary_only), (3, 2_000, false));
    assert_eq!(c.write_prob, prob(0.15));
    assert_eq!(c.read_prob, prob(0.15));
    assert_eq!(c.fault_prob, prob(0.03));
    assert_eq!(c.net.drop_prob, prob(0.05));
    assert_eq!((c.net.min_delay, c.net.max_delay), (1, 20));
}

#[test]
fn seed_zero_fails_and_shrinks() {
    let cfg = RunConfig::default();
    assert_eq!(find_violation(5000, &cfg), Some(0));
    let found = run(0, &cfg);
    let v = found.violation.unwrap();
    assert_eq!(v.kind, "stale_read");
    assert_eq!(
        v.detail,
        "op #8: node 2 read value 4 (tick 37), but value 5 was already observed by op #7 \
         (read went backwards in time)"
    );
    assert_eq!(v.at_tick, 37);
    let record = simulate(0, &cfg);
    assert_eq!(record.history.len(), 411);
    assert_eq!(found.ops, 411);
    let (min, rest) = shrink(&record.history);
    let text: Vec<String> = min.iter().map(|op| op.describe()).collect();
    assert_eq!(text, vec!["#404 WRITE 288", "#406 READ=286 (node 1)"]);
    assert!(rest.is_some());
    assert!(check_linearizability(&min).is_some());
}

#[test]
fn search_of_the_correct_design_finds_nothing() {
    let cfg = RunConfig { read_from_primary_only: true, ..RunConfig::default() };
    assert_eq!(find_violation(50, &cfg), None);
    assert_eq!(find_violation(0, &RunConfig::default()), None);
}

#[test]
fn a_quiet_run_does_nothing() {
    let never = Prob { threshold: 0 };
    let cfg = RunConfig {
        n_nodes: 0,
        write_prob: never,
        read_prob: never,
        ..RunConfig::default()
    };
    let r = run(3, &cfg);
    assert_eq!((r.seed, r.ops, r.sent, r.dropped), (3, 0, 0, 0));
    assert!(r.violation.is_none());
}

/// The operations of a history, carried out one after the other.
fn timed(history: &[Op]) -> Vec<HistoryOp> {
    history
        .iter()
        .map(|op| match *op {
            Op::Write { value, seq, .. } => {
                HistoryOp::Write { value, inv: 2 * seq, res: 2 * seq + 1 }
            }
            Op::Read { value, seq, .. } => {
                HistoryOp::Read { value, inv: 2 * seq, res: 2 * seq + 1 }
            }
        })
        .collect()
}

#[test]
fn histories_are_numbered_and_writes_increase() {
    for seed in [0u64, 1, 9] {
        let history = simulate(seed, &RunConfig::default()).history;
        let mut last = 0;
        for (i, op) in history.iter().enumerate() {
            match *op {
                Op::Write { value, seq, .. } => {
                    assert_eq!(seq, i as u64);
                    assert!(value > last);
                    last = value;
                }
                Op::Read { seq, .. } => assert_eq!(seq, i as u64),
            }
        }
    }
}

#[test]
fn runs_with_primary_reads_are_linearizable() {
    let cfg = RunConfig { read_from_primary_only: true, ..RunConfig::default() };
    for seed in 0..20 {
        assert!(is_linearizable(&timed(&simulate(seed, &cfg).history), None), "seed {seed}");
    }
}

#[test]
fn runs_with_violations_are_not_linearizable() {
    for seed in 0..20 {
        let history = simulate(seed, &RunConfig::default()).history;
        if check_linearizability(&history).is_some() {
            assert!(!is_linearizable(&timed(&history), None), "seed {seed}");
        }
    }
}

#[test]
fn a_lone_primary_records_its_writes() {
    let cfg = RunConfig { n_nodes: 1, ..RunConfig::default() };
    for seed in 0..5 {
        let r = run(seed, &cfg);
        assert_eq!(r.sent, 0, "there is nobody to replicate to");
        let history = simulate(seed, &cfg).history;
        assert_eq!(r.ops, history.len());
        assert!(history.iter().any(|op| matches!(op, Op::Write { .. })));
        assert!(is_linearizable(&timed(&history), None));
    }
}

#[test]
fn a_cluster_without_nodes_runs_while_no_client_calls() {
    // The chance of an operation is one in 2^53 per draw: none is issued.
    let rare = Prob { threshold: 1 };
    let cfg = RunConfig {
        n_nodes: 0,
        write_prob: rare,
        read_prob: rare,
        ..RunConfig::default()
    };
    let r = run(0, &cfg);
    assert_eq!((r.ops, r.sent, r.dropped), (0, 0, 0));
    assert!(r.violation.is_none());
}
