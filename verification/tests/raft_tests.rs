//! Unit tests for the Raft implementation's core mechanics: election, the
//! up-to-date-log voting restriction, log matching, and the commit rule. These
//! exercise the logic directly (no network) so failures point at the algorithm.

use faultline::raft::{LogEntry, RaftMsg, RaftNode, Role};

#[test]
fn candidate_wins_with_majority_votes() {
    let mut n = RaftNode::new(0, 3);
    let reqs = n.start_election();
    assert_eq!(n.role, Role::Candidate);
    assert_eq!(reqs.len(), 2, "requests one vote per peer");
    // One peer grants -> that's 2 of 3 (incl. self) -> majority -> leader.
    n.handle(1, RaftMsg::RequestVoteReply { term: n.current_term, granted: true });
    assert_eq!(n.role, Role::Leader);
}

#[test]
fn candidate_stays_without_majority() {
    let mut n = RaftNode::new(0, 5);
    n.start_election();
    n.handle(1, RaftMsg::RequestVoteReply { term: n.current_term, granted: true });
    // 2 of 5 is not a majority.
    assert_eq!(n.role, Role::Candidate);
}

#[test]
fn higher_term_forces_step_down() {
    let mut n = RaftNode::new(0, 3);
    n.start_election(); // becomes candidate at term 1
    n.handle(1, RaftMsg::RequestVoteReply { term: 1, granted: true }); // leader
    assert_eq!(n.role, Role::Leader);
    // A message from a higher term must make us step down.
    n.handle(
        2,
        RaftMsg::AppendEntries {
            term: 5,
            leader: 2,
            prev_log_index: 0,
            prev_log_term: 0,
            entries: vec![],
            leader_commit: 0,
        },
    );
    assert_eq!(n.role, Role::Follower);
    assert_eq!(n.current_term, 5);
}

#[test]
fn vote_denied_to_stale_log() {
    // A voter with a longer/newer log must reject a candidate whose log is behind.
    let mut voter = RaftNode::new(1, 3);
    // Give the voter a log at term 2.
    voter.handle(
        0,
        RaftMsg::AppendEntries {
            term: 2,
            leader: 0,
            prev_log_index: 0,
            prev_log_term: 0,
            entries: vec![
                LogEntry { term: 2, command: 10 },
                LogEntry { term: 2, command: 11 },
            ],
            leader_commit: 0,
        },
    );
    // Candidate at a higher term but with an empty (stale) log.
    let reply = voter.handle(
        2,
        RaftMsg::RequestVote { term: 3, candidate: 2, last_log_index: 0, last_log_term: 0 },
    );
    match reply.first().map(|(_, m)| m) {
        Some(RaftMsg::RequestVoteReply { granted, .. }) => {
            assert!(!granted, "must deny vote to a candidate with a less up-to-date log");
        }
        _ => panic!("expected a vote reply"),
    }
}

#[test]
fn append_entries_rejects_on_log_mismatch() {
    let mut f = RaftNode::new(1, 3);
    // Leader claims prev_log_index=5 which the empty follower doesn't have.
    let reply = f.handle(
        0,
        RaftMsg::AppendEntries {
            term: 1,
            leader: 0,
            prev_log_index: 5,
            prev_log_term: 1,
            entries: vec![],
            leader_commit: 0,
        },
    );
    match reply.first().map(|(_, m)| m) {
        Some(RaftMsg::AppendEntriesReply { success, .. }) => {
            assert!(!success, "log-matching check must reject the mismatch");
        }
        _ => panic!("expected an append reply"),
    }
}

#[test]
fn conflicting_entry_truncates_follower_log() {
    let mut f = RaftNode::new(1, 3);
    // First, accept two entries at term 1.
    f.handle(
        0,
        RaftMsg::AppendEntries {
            term: 1,
            leader: 0,
            prev_log_index: 0,
            prev_log_term: 0,
            entries: vec![LogEntry { term: 1, command: 1 }, LogEntry { term: 1, command: 2 }],
            leader_commit: 0,
        },
    );
    assert_eq!(f.log.len(), 2);
    // Now a new leader (term 2) overwrites index 2 with a different-term entry.
    f.handle(
        2,
        RaftMsg::AppendEntries {
            term: 2,
            leader: 2,
            prev_log_index: 1,
            prev_log_term: 1,
            entries: vec![LogEntry { term: 2, command: 99 }],
            leader_commit: 0,
        },
    );
    assert_eq!(f.log.len(), 2, "conflicting suffix truncated, new entry appended");
    assert_eq!(f.log[1].command, 99);
    assert_eq!(f.log[1].term, 2);
}

#[test]
fn leader_commits_replicated_current_term_entry() {
    let mut leader = RaftNode::new(0, 3);
    leader.start_election();
    leader.handle(1, RaftMsg::RequestVoteReply { term: 1, granted: true }); // leader, term 1
    assert!(leader.client_command(42));
    // Two followers ack the entry (match_index 1) -> majority -> commit.
    leader.handle(1, RaftMsg::AppendEntriesReply { term: 1, success: true, match_index: 1 });
    assert_eq!(leader.commit_index, 1, "entry on a majority in current term must commit");
}

// --- Integration: Raft under the deterministic simulator with fault injection ---

use faultline::net::NetConfig;
use faultline::raft_runner::{
    check_safety, demonstrate_injected_bug, run as raft_run, RaftConfig, SeenLeaders,
};
use faultline::sim::Prob;

/// The probability `p`, in units of 2^-53.
fn prob(p: f64) -> Prob {
    Prob { threshold: (p.clamp(0.0, 1.0) * (1u64 << 53) as f64).ceil() as u64 }
}

#[test]
fn raft_holds_safety_across_many_seeds() {
    // The headline property: correct Raft survives adversarial fault injection.
    // No seed in this range may produce a safety violation.
    let cfg = RaftConfig::default();
    for seed in 0..300 {
        let r = raft_run(seed, &cfg);
        assert!(
            r.violation.is_none(),
            "seed {seed} produced a Raft safety violation: {:?}",
            r.violation
        );
    }
}

#[test]
fn raft_makes_real_progress() {
    // A safe-but-idle Raft would be a meaningless test. Confirm commands actually
    // commit under the fault load (across seeds, meaningful commit volume).
    let cfg = RaftConfig::default();
    let total: usize = (0..100).map(|s| raft_run(s, &cfg).commands_committed).sum();
    assert!(total > 50, "expected real commit progress across seeds, got {total}");
}

#[test]
fn raft_runs_are_deterministic() {
    let cfg = RaftConfig::default();
    for seed in [0u64, 1, 42, 1111] {
        let a = raft_run(seed, &cfg);
        let b = raft_run(seed, &cfg);
        assert_eq!(a.commands_committed, b.commands_committed, "seed {seed}");
        assert_eq!(a.leaders_elected, b.leaders_elected, "seed {seed}");
    }
}

#[test]
fn raft_recovers_liveness_after_stabilization() {
    // After faults stop and the network heals, a correct cluster must elect a
    // leader and commit new entries. Every seed should report live=true.
    let cfg = RaftConfig::default();
    for seed in 0..200 {
        let r = raft_run(seed, &cfg);
        // Only meaningful when safety held (it always does here).
        assert!(r.violation.is_none(), "unexpected safety violation at seed {seed}");
        assert_eq!(r.live, Some(true), "seed {seed} failed to recover liveness");
    }
}

#[test]
fn liveness_check_has_teeth() {
    // A stabilization window too short to elect + commit must report live=false.
    // If this passed as live=true, the liveness check would be meaningless.
    let cfg = RaftConfig { stabilize_ticks: 3, ..RaftConfig::default() };
    let failures = (0..50).filter(|&s| raft_run(s, &cfg).live == Some(false)).count();
    assert!(
        failures >= 45,
        "liveness check should fail when there's no time to progress, got {failures}/50"
    );
}

#[test]
fn injected_bug_is_caught_but_fixed_version_is_safe() {
    // Mutation test: with the match-index bug in, the checker must find a safety
    // violation (proving it has teeth); without it (inject_bug = false, the
    // default), the same churn-heavy profile stays safe.
    let churn = |inject_bug| RaftConfig {
        n_nodes: 5,
        ticks: 6000,
        net: NetConfig { drop_prob: prob(0.1), min_delay: 1, max_delay: 20 },
        fault_prob: prob(0.06),
        stabilize_ticks: 0,
        inject_bug,
        ..RaftConfig::default()
    };

    // Buggy: some seed in a modest range must expose a violation.
    let buggy = churn(true);
    let caught = (0..1500).any(|s| raft_run(s, &buggy).violation.is_some());
    assert!(caught, "the match-index bug must be caught by the checker");

    // Fixed: the SAME profile must stay safe across the same range.
    let fixed = churn(false);
    for s in 0..1500 {
        assert!(
            raft_run(s, &fixed).violation.is_none(),
            "fixed protocol must hold safety under the churn profile (seed {s})"
        );
    }
}

#[test]
fn demonstration_names_the_first_seed_that_fails() {
    let (seed, detail) = demonstrate_injected_bug().expect("some seed exposes the bug");
    let cfg = RaftConfig {
        n_nodes: 5,
        ticks: 6000,
        net: NetConfig { drop_prob: prob(0.1), min_delay: 1, max_delay: 20 },
        fault_prob: prob(0.06),
        stabilize_ticks: 0,
        inject_bug: true,
        ..RaftConfig::default()
    };
    assert!(seed < 1500, "a modest range is enough");
    let v = raft_run(seed, &cfg).violation.expect("the seed reproduces the violation");
    assert_eq!(v.kind, "state_machine_safety");
    assert_eq!(v.detail, detail);
    for earlier in 0..seed {
        assert!(raft_run(earlier, &cfg).violation.is_none());
    }
}

#[test]
fn default_raft_config_values() {
    let c = RaftConfig::default();
    assert_eq!((c.n_nodes, c.ticks, c.stabilize_ticks), (5, 3_000, 2_000));
    assert!(!c.inject_bug);
    assert_eq!(c.heartbeat_prob, prob(0.3));
    assert_eq!(c.client_prob, prob(0.1));
    assert_eq!(c.fault_prob, prob(0.02));
    assert_eq!(c.net.drop_prob, prob(0.05));
    assert_eq!((c.net.min_delay, c.net.max_delay), (1, 20));
}

#[test]
fn an_empty_cluster_runs_and_does_nothing() {
    let cfg = RaftConfig { n_nodes: 0, ..RaftConfig::default() };
    let r = raft_run(7, &cfg);
    assert_eq!(r.seed, 7);
    assert!(r.violation.is_none());
    assert_eq!((r.commands_committed, r.leaders_elected), (0, 0));
    assert_eq!(r.live, Some(false));
}

#[test]
fn without_a_stabilization_phase_liveness_is_not_judged() {
    let cfg = RaftConfig { stabilize_ticks: 0, ..RaftConfig::default() };
    assert_eq!(raft_run(0, &cfg).live, None);
}

#[test]
fn a_lone_node_never_wins() {
    // Nobody ever answers its vote requests, so its own vote is never counted.
    let cfg = RaftConfig { n_nodes: 1, ..RaftConfig::default() };
    let r = raft_run(3, &cfg);
    assert_eq!((r.leaders_elected, r.live), (0, Some(false)));
}

fn follower(id: usize, log: Vec<LogEntry>, commit_index: usize) -> RaftNode {
    let mut n = RaftNode::new(id, 3);
    n.log = log;
    n.commit_index = commit_index;
    n
}

#[test]
fn two_leaders_in_one_term_are_reported() {
    let mut nodes = vec![follower(0, vec![], 0), follower(1, vec![], 0), follower(2, vec![], 0)];
    for id in [2, 0] {
        nodes[id].role = Role::Leader;
        nodes[id].current_term = 4;
    }
    let v = check_safety(&nodes, &mut SeenLeaders::new(), 17).expect("two leaders");
    assert_eq!(v.kind, "election_safety");
    assert_eq!(
        v.detail,
        "term 4 had multiple leaders: {0, 2} (two leaders in one term can each commit \
         conflicting entries)"
    );
    assert_eq!(v.tick, 17);
    // Leaders of different terms are fine.
    nodes[0].current_term = 5;
    assert!(check_safety(&nodes, &mut SeenLeaders::new(), 17).is_none());
}

#[test]
fn leaders_are_remembered_from_check_to_check() {
    let mut seen = SeenLeaders::new();
    let mut nodes = vec![follower(0, vec![], 0), follower(1, vec![], 0)];
    nodes[1].role = Role::Leader;
    nodes[1].current_term = 1;
    assert!(check_safety(&nodes, &mut seen, 1).is_none());
    assert!(check_safety(&nodes, &mut seen, 2).is_none(), "the same leader may stay");
    nodes[1].role = Role::Follower;
    nodes[0].role = Role::Leader;
    nodes[0].current_term = 1;
    let v = check_safety(&nodes, &mut seen, 3).expect("a second leader of the same term");
    assert!(v.detail.starts_with("term 1 had multiple leaders: {0, 1} "));
}

#[test]
fn committed_logs_that_disagree_are_reported() {
    let e = |term, command| LogEntry { term, command };
    let nodes = vec![
        follower(0, vec![e(1, 5), e(1, 6)], 2),
        follower(1, vec![e(1, 5), e(2, 7)], 1),
        follower(2, vec![e(1, 5), e(2, 7)], 2),
    ];
    let v = check_safety(&nodes, &mut SeenLeaders::new(), 9).expect("committed logs disagree");
    assert_eq!(v.kind, "state_machine_safety");
    assert_eq!(
        v.detail,
        "nodes 0 and 2 disagree at committed index 2: (term 1, cmd 6) vs (term 2, cmd 7)"
    );
    assert_eq!(v.tick, 9);
    // What is not committed on both may differ.
    assert!(check_safety(&nodes[..2], &mut SeenLeaders::new(), 9).is_none());
}

#[test]
fn committed_log_is_the_committed_prefix() {
    let e = |term, command| LogEntry { term, command };
    let mut n = follower(0, vec![e(1, 5), e(1, 6)], 1);
    assert_eq!(n.committed_log().to_vec(), vec![e(1, 5)]);
    n.commit_index = 9;
    assert_eq!(n.committed_log().len(), 2, "never more than the log holds");
}

#[test]
fn one_vote_per_term_survives_a_restart() {
    let ask = |candidate| RaftMsg::RequestVote {
        term: 1,
        candidate,
        last_log_index: 0,
        last_log_term: 0,
    };
    let granted = |out: Vec<(usize, RaftMsg)>| {
        matches!(out[0].1, RaftMsg::RequestVoteReply { granted: true, term: 1 })
    };
    let mut voter = RaftNode::new(0, 3);
    assert!(granted(voter.handle(1, ask(1))));
    assert!(!granted(voter.handle(2, ask(2))), "the vote is taken");
    assert!(granted(voter.handle(1, ask(1))), "asking again changes nothing");
    voter.crash();
    assert!(voter.handle(2, ask(2)).is_empty());
    voter.restart();
    assert_eq!(voter.voted_for, Some(1));
    assert!(!granted(voter.handle(2, ask(2))), "a restart does not give the vote back");
}

#[test]
fn entries_of_an_earlier_term_are_not_committed_by_count() {
    // A leader of term 2 with an entry of term 1 on a majority: only an entry of
    // its own term, once replicated, commits both.
    let mut leader = RaftNode::new(0, 3);
    leader.log.push(LogEntry { term: 1, command: 1 });
    leader.current_term = 1;
    leader.start_election();
    leader.handle(1, RaftMsg::RequestVoteReply { term: 2, granted: true });
    assert_eq!(leader.role, Role::Leader);
    leader.handle(1, RaftMsg::AppendEntriesReply { term: 2, success: true, match_index: 1 });
    assert_eq!(leader.commit_index, 0);
    leader.client_command(2);
    leader.handle(1, RaftMsg::AppendEntriesReply { term: 2, success: true, match_index: 2 });
    assert_eq!(leader.commit_index, 2);
}

#[test]
fn a_refused_request_makes_the_leader_back_up() {
    let e = |term, command| LogEntry { term, command };
    let mut leader = RaftNode::new(0, 2);
    leader.log = vec![e(1, 1), e(1, 2)];
    leader.current_term = 1;
    leader.start_election();
    leader.handle(1, RaftMsg::RequestVoteReply { term: 2, granted: true });
    let prev = |n: &mut RaftNode| match &n.heartbeat()[0].1 {
        RaftMsg::AppendEntries { prev_log_index, prev_log_term, entries, .. } => {
            (*prev_log_index, *prev_log_term, entries.len())
        }
        _ => panic!("expected a request"),
    };
    assert_eq!(prev(&mut leader), (2, 1, 0));
    let refuse = || RaftMsg::AppendEntriesReply { term: 2, success: false, match_index: 0 };
    leader.handle(1, refuse());
    assert_eq!(prev(&mut leader), (1, 1, 1));
    leader.handle(1, refuse());
    assert_eq!(prev(&mut leader), (0, 0, 2));
    leader.handle(1, refuse());
    assert_eq!(prev(&mut leader), (0, 0, 2), "there is nothing before the first entry");
}

#[test]
fn only_what_a_request_confirmed_is_acknowledged() {
    let e = |term, command| LogEntry { term, command };
    // The follower has a stale tail that the leader knows nothing about.
    let request = || RaftMsg::AppendEntries {
        term: 2,
        leader: 0,
        prev_log_index: 1,
        prev_log_term: 1,
        entries: vec![],
        leader_commit: 5,
    };
    let mut f = follower(1, vec![e(1, 1), e(1, 2), e(1, 3)], 0);
    let out = f.handle(0, request());
    assert!(matches!(
        out[0],
        (0, RaftMsg::AppendEntriesReply { term: 2, success: true, match_index: 1 })
    ));
    assert_eq!(f.commit_index, 1, "commits no further than what was confirmed");
    assert_eq!(f.log.len(), 3);
    // With the bug, it claims its whole log.
    let mut b = follower(1, vec![e(1, 1), e(1, 2), e(1, 3)], 0);
    b.inject_match_index_bug = true;
    let out = b.handle(0, request());
    assert!(matches!(out[0].1, RaftMsg::AppendEntriesReply { match_index: 3, .. }));
}

#[test]
fn a_stale_leader_is_told_the_newer_term() {
    let mut n = RaftNode::new(1, 3);
    n.current_term = 7;
    let out = n.handle(
        0,
        RaftMsg::AppendEntries {
            term: 6,
            leader: 0,
            prev_log_index: 0,
            prev_log_term: 0,
            entries: vec![LogEntry { term: 6, command: 1 }],
            leader_commit: 1,
        },
    );
    assert!(matches!(
        out[0].1,
        RaftMsg::AppendEntriesReply { term: 7, success: false, match_index: 0 }
    ));
    assert!(n.log.is_empty());
}

#[test]
fn election_timer_counts_down_and_resets() {
    let mut n = RaftNode::new(0, 3);
    n.set_base_timeout(3);
    assert!(!n.tick_election_timer());
    assert!(!n.tick_election_timer());
    assert!(n.tick_election_timer(), "expires on the third tick");
    let out = n.start_election();
    assert_eq!(out.iter().map(|(to, _)| *to).collect::<Vec<_>>(), vec![1, 2]);
    assert!(matches!(
        out[0].1,
        RaftMsg::RequestVote { term: 1, candidate: 0, last_log_index: 0, last_log_term: 0 }
    ));
    assert!(!n.tick_election_timer(), "the candidate starts over");
    // A leader has no election timer, and a timeout of 0 counts as 1.
    n.handle(1, RaftMsg::RequestVoteReply { term: 1, granted: true });
    for _ in 0..10 {
        assert!(!n.tick_election_timer());
    }
    let mut z = RaftNode::new(0, 3);
    z.set_base_timeout(0);
    assert!(z.tick_election_timer());
}

#[test]
fn only_a_live_leader_takes_commands() {
    let mut n = RaftNode::new(0, 3);
    assert!(!n.client_command(1));
    assert!(n.heartbeat().is_empty());
    n.start_election();
    n.handle(1, RaftMsg::RequestVoteReply { term: 1, granted: true });
    assert!(n.client_command(1));
    n.crash();
    assert!(!n.client_command(2));
    assert_eq!(n.log, vec![LogEntry { term: 1, command: 1 }]);
}

#[test]
fn no_message_changes_the_log_of_a_leader_that_stays() {
    let mut n = RaftNode::new(0, 3);
    n.start_election();
    n.handle(1, RaftMsg::RequestVoteReply { term: 1, granted: true });
    n.client_command(5);
    n.handle(2, RaftMsg::RequestVoteReply { term: 1, granted: true });
    n.handle(2, RaftMsg::AppendEntriesReply { term: 1, success: false, match_index: 0 });
    n.handle(
        2,
        RaftMsg::RequestVote { term: 1, candidate: 2, last_log_index: 9, last_log_term: 9 },
    );
    assert_eq!(n.role, Role::Leader);
    assert_eq!(n.log, vec![LogEntry { term: 1, command: 5 }]);
    assert_eq!(n.voted_for, Some(0));
}

/// Hand every message to its receiver until none is left.
fn settle(nodes: &mut [RaftNode], from: usize, outbox: Vec<(usize, RaftMsg)>) {
    let mut queue: Vec<(usize, usize, RaftMsg)> =
        outbox.into_iter().map(|(to, m)| (from, to, m)).collect();
    while !queue.is_empty() {
        let (from, to, msg) = queue.remove(0);
        let replies = nodes[to].handle(from, msg);
        queue.extend(replies.into_iter().map(|(dst, m)| (to, dst, m)));
    }
}

#[test]
fn a_new_leader_replaces_a_divergent_tail_and_committed_logs_agree() {
    let mut nodes: Vec<RaftNode> = (0..3).map(|i| RaftNode::new(i, 3)).collect();
    let mut seen = SeenLeaders::new();
    // Node 0 leads term 1 and replicates one entry everywhere.
    let out = nodes[0].start_election();
    settle(&mut nodes, 0, out);
    assert_eq!(nodes[0].role, Role::Leader);
    nodes[0].client_command(1);
    for _ in 0..2 {
        let out = nodes[0].heartbeat();
        settle(&mut nodes, 0, out);
    }
    assert!(nodes.iter().all(|n| n.commit_index == 1));
    assert!(check_safety(&nodes, &mut seen, 1).is_none());
    // It takes two more commands that nobody hears of, and crashes.
    nodes[0].client_command(2);
    nodes[0].client_command(3);
    nodes[0].crash();
    // Node 1 takes over and commits something else at the same index.
    let out = nodes[1].start_election();
    settle(&mut nodes, 1, out);
    assert_eq!((nodes[1].role, nodes[1].current_term), (Role::Leader, 2));
    nodes[1].client_command(4);
    for _ in 0..2 {
        let out = nodes[1].heartbeat();
        settle(&mut nodes, 1, out);
    }
    assert_eq!(nodes[2].commit_index, 2);
    assert!(check_safety(&nodes, &mut seen, 2).is_none());
    // The old leader comes back and follows.
    nodes[0].restart();
    for _ in 0..4 {
        let out = nodes[1].heartbeat();
        settle(&mut nodes, 1, out);
    }
    let log = vec![LogEntry { term: 1, command: 1 }, LogEntry { term: 2, command: 4 }];
    for n in &nodes {
        assert_eq!(n.log, log, "node {}", n.id);
        assert_eq!(n.commit_index, 2, "node {}", n.id);
    }
    assert!(check_safety(&nodes, &mut seen, 3).is_none());
}

#[test]
fn a_commit_is_never_taken_back() {
    let e = |term, command| LogEntry { term, command };
    let request = |entries, leader_commit| RaftMsg::AppendEntries {
        term: 1,
        leader: 0,
        prev_log_index: 0,
        prev_log_term: 0,
        entries,
        leader_commit,
    };
    let mut f = RaftNode::new(1, 3);
    f.handle(0, request(vec![e(1, 1), e(1, 2)], 1));
    assert_eq!(f.commit_index, 1);
    // A delayed heartbeat that confirms nothing leaves what is committed alone.
    f.handle(0, request(vec![], 2));
    assert_eq!(f.commit_index, 1);
    assert_eq!(f.committed_log().to_vec(), vec![e(1, 1)]);
    f.handle(0, request(vec![e(1, 1), e(1, 2)], 2));
    assert_eq!(f.commit_index, 2);
}

#[test]
fn requests_beyond_the_log_are_refused_whatever_they_carry() {
    let mut f = RaftNode::new(1, 3);
    let out = f.handle(
        0,
        RaftMsg::AppendEntries {
            term: 1,
            leader: 0,
            prev_log_index: usize::MAX,
            prev_log_term: 1,
            entries: vec![LogEntry { term: 1, command: 1 }],
            leader_commit: 0,
        },
    );
    assert!(matches!(
        out[0],
        (0, RaftMsg::AppendEntriesReply { term: 1, success: false, match_index: 0 })
    ));
    assert!(f.log.is_empty());
}
