//! What each transition of a Raft node is for, said of the node's fields and of the
//! messages that go in and come out.

use crate::counting::tally;
use crate::net::NodeId;
use crate::raft::{holders, merged, overlap, peers, LogEntry, RaftState, Role, Rpc};
use vstd::prelude::*;

verus! {

/// The term of the last entry of a log; 0 for the empty log.
pub open spec fn ends_in(log: Seq<LogEntry>) -> u64 {
    if log.len() == 0 {
        0
    } else {
        log[log.len() - 1].term
    }
}

/// The later of two terms.
pub open spec fn later(a: u64, b: u64) -> u64 {
    if a >= b {
        a
    } else {
        b
    }
}

/// How many nodes hold the log up to `i`, as far as a leader with these match
/// indices knows.
pub open spec fn holding(match_index: Seq<usize>, i: int) -> nat {
    tally(Seq::new(match_index.len(), |p: int| match_index[p] >= i))
}

/// Nothing changed but the term, the role, the vote, whom the node follows and its
/// election timer.
pub open spec fn keeps_log_and_books(before: RaftState, after: RaftState) -> bool {
    &&& after.id == before.id
    &&& after.n_nodes == before.n_nodes
    &&& after.log == before.log
    &&& after.commit_index == before.commit_index
    &&& after.crashed == before.crashed
    &&& after.base_timeout == before.base_timeout
    &&& after.inject_match_index_bug == before.inject_match_index_bug
    &&& after.votes_received == before.votes_received
    &&& after.next_index == before.next_index
    &&& after.match_index == before.match_index
}

// ---- A node on its own ----

/// A new node follows nobody, in term 0, with an empty log and nothing committed.
pub proof fn new_nodes_start_from_nothing(id: NodeId, n_nodes: usize, p: int)
    requires
        0 <= p < n_nodes,
    ensures
        ({
            let node = RaftState::init(id, n_nodes);
            &&& node.id == id
            &&& node.n_nodes == n_nodes
            &&& node.current_term == 0
            &&& node.voted_for is None
            &&& node.log.len() == 0
            &&& node.role == Role::Follower
            &&& node.commit_index == 0
            &&& node.leader_id is None
            &&& !node.crashed
            &&& !node.inject_match_index_bug
            &&& node.votes_received.len() == n_nodes && !node.votes_received[p]
            &&& node.next_index.len() == n_nodes && node.next_index[p] == 1
            &&& node.match_index.len() == n_nodes && node.match_index[p] == 0
            &&& node.election_timer == 0
            &&& node.base_timeout == 10
        }),
{
}

/// A timeout is at least one tick, and setting it arms the timer with it.
pub proof fn timeouts_arm_the_timer(node: RaftState, ticks: u64)
    ensures
        ({
            let after = node.timeout_set(ticks);
            &&& after.base_timeout >= 1
            &&& ticks >= 1 ==> after.base_timeout == ticks
            &&& ticks == 0 ==> after.base_timeout == 1
            &&& after.election_timer == after.base_timeout
            &&& after.current_term == node.current_term
            &&& after.voted_for == node.voted_for
            &&& after.role == node.role
            &&& after.leader_id == node.leader_id
            &&& keeps_log_and_books(
                node,
                RaftState { base_timeout: node.base_timeout, ..after },
            )
        }),
{
}

/// The timer of a live node that does not lead counts down to 0 and expires when it
/// gets there; a leader and a crashed node have no election timeout.
pub proof fn timers_count_down(node: RaftState)
    ensures
        ({
            let after = node.ticked();
            let runs = !node.crashed && node.role != Role::Leader;
            &&& keeps_log_and_books(node, after)
            &&& after.current_term == node.current_term
            &&& after.voted_for == node.voted_for
            &&& after.role == node.role
            &&& after.leader_id == node.leader_id
            &&& !runs ==> after.election_timer == node.election_timer && !node.times_out()
            &&& runs && node.election_timer > 0 ==> after.election_timer == node.election_timer - 1
            &&& runs && node.election_timer == 0 ==> after.election_timer == 0
            &&& runs ==> (node.times_out() <==> after.election_timer == 0)
        }),
{
}

/// A crash stops the node and changes nothing else; a restart makes it a live
/// follower of nobody and changes nothing else.
pub proof fn crashes_and_restarts_are_warm(node: RaftState)
    ensures
        node.crash_set() == (RaftState { crashed: true, ..node }),
        ({
            let after = node.restarted();
            &&& !after.crashed
            &&& after.role == Role::Follower
            &&& after.leader_id is None
            &&& after.current_term == node.current_term
            &&& after.voted_for == node.voted_for
            &&& after.election_timer == node.election_timer
            &&& keeps_log_and_books(node, RaftState { crashed: node.crashed, ..after })
        }),
{
}

/// Exactly a live leader takes a command: it becomes the last entry, in the leader's
/// term. Nothing else changes, and every other node ignores it.
pub proof fn commands_are_appended_by_leaders(node: RaftState, command: u64)
    ensures
        node.leads() <==> !node.crashed && node.role == Role::Leader,
        ({
            let after = node.commanded(command);
            &&& !node.crashed && node.role == Role::Leader ==> {
                &&& after.log.len() == node.log.len() + 1
                &&& after.log.last() == LogEntry { term: node.current_term, command }
                &&& after.log.drop_last() =~= node.log
                &&& after == RaftState { log: after.log, ..node }
            }
            &&& node.crashed || node.role != Role::Leader ==> after == node
        }),
{
}

/// The committed log is the part of the log up to the commit index.
pub proof fn committed_logs_are_prefixes(node: RaftState, k: int)
    ensures
        node.commit_index <= node.log.len() ==> node.committed().len() == node.commit_index,
        node.commit_index > node.log.len() ==> node.committed().len() == node.log.len(),
        0 <= k < node.committed().len() ==> node.committed()[k] == node.log[k],
{
}

// ---- Elections ----

/// The peers of a node are all the others, in ascending order.
pub proof fn peers_are_the_others(n: nat, id: NodeId)
    requires
        n <= usize::MAX,
    ensures
        forall|x: NodeId| #[trigger] peers(n, id).contains(x) <==> x < n && x != id,
        forall|i: int, j: int|
            0 <= i < j < peers(n, id).len() ==> #[trigger] peers(n, id)[i] < #[trigger] peers(
                n,
                id,
            )[j],
        peers(n, id).len() == if id < n {
            n - 1
        } else {
            n as int
        },
        forall|i: int| 0 <= i < peers(n, id).len() ==> #[trigger] peers(n, id)[i] < n,
    decreases n,
{
    if n > 0 {
        let m = (n - 1) as nat;
        peers_are_the_others(m, id);
        let before = peers(m, id);
        let after = peers(n, id);
        assert forall|x: NodeId| #[trigger] after.contains(x) <==> x < n && x != id by {
            assert(before.contains(x) <==> x < m && x != id);
            if m != id {
                assert(after.last() == m);
                if before.contains(x) {
                    let i = choose|i: int| 0 <= i < before.len() && before[i] == x;
                    assert(after[i] == x);
                }
                if after.contains(x) && x != m {
                    let i = choose|i: int| 0 <= i < after.len() && after[i] == x;
                    assert(before[i] == x);
                }
            }
        }
    }
}

/// A live node that does not lead becomes a candidate of the next term: it votes for
/// itself and nobody else's vote counts yet, it re-arms its timer, and it asks every
/// peer, telling it where its own log ends.
pub proof fn candidates_ask_every_peer(node: RaftState, v: int, k: int)
    requires
        !node.crashed,
        node.role != Role::Leader,
        node.current_term < u64::MAX,
        node.log.len() <= usize::MAX,
        0 <= v < node.n_nodes,
    ensures
        ({
            let after = node.campaigning();
            let outbox = node.campaign_outbox();
            let others = peers(node.n_nodes as nat, node.id);
            &&& after.current_term == node.current_term + 1
            &&& after.role == Role::Candidate
            &&& after.voted_for == Some(node.id)
            &&& after.leader_id is None
            &&& after.election_timer == node.base_timeout
            &&& after.votes_received.len() == node.n_nodes
            &&& after.votes_received[v] <==> v == node.id
            &&& keeps_log_and_books(
                node,
                RaftState { votes_received: node.votes_received, ..after },
            )
            &&& outbox.len() == others.len()
            &&& 0 <= k < others.len() ==> outbox[k] == (
                others[k],
                Rpc::RequestVote {
                    term: (node.current_term + 1) as u64,
                    candidate: node.id,
                    last_log_index: node.log.len() as usize,
                    last_log_term: ends_in(node.log),
                },
            )
        }),
{
}

/// A leader and a crashed node do not stand for election.
pub proof fn leaders_do_not_campaign(node: RaftState)
    requires
        node.crashed || node.role == Role::Leader,
    ensures
        node.campaigning() == node,
        node.campaign_outbox() =~= Seq::<(NodeId, Rpc)>::empty(),
{
}

/// A live node grants its vote exactly if the request's term is not older than its
/// own, it has not voted for someone else in that term, and the candidate's log ends
/// in a later term than its own, or in the same term and is at least as long. It
/// answers with the later of the two terms, and a vote re-arms its timer.
pub proof fn votes_go_to_current_candidates(
    node: RaftState,
    from: NodeId,
    term: u64,
    candidate: NodeId,
    last_log_index: usize,
    last_log_term: u64,
)
    requires
        !node.crashed,
    ensures
        ({
            let (after, replies) = node.handled(
                from,
                Rpc::RequestVote { term, candidate, last_log_index, last_log_term },
            );
            let free = term > node.current_term || node.voted_for is None || node.voted_for
                == Some(candidate);
            let current = last_log_term > ends_in(node.log) || (last_log_term == ends_in(node.log)
                && last_log_index >= node.log.len());
            let granted = term >= node.current_term && free && current;
            &&& replies =~= seq![
                (
                    from,
                    Rpc::RequestVoteReply { term: later(term, node.current_term), granted },
                ),
            ]
            &&& after.current_term == later(term, node.current_term)
            &&& granted ==> after.voted_for == Some(candidate) && after.election_timer
                == node.base_timeout
            &&& !granted && term > node.current_term ==> after.voted_for is None
            &&& !granted && term <= node.current_term ==> after.voted_for == node.voted_for
            &&& !granted ==> after.election_timer == node.election_timer
            &&& term > node.current_term ==> after.role == Role::Follower && after.leader_id is None
            &&& term <= node.current_term ==> after.role == node.role && after.leader_id
                == node.leader_id
            &&& keeps_log_and_books(node, after)
        }),
{
}

/// The vote that an answer to a vote request carries.
pub open spec fn vote_in(replies: Seq<(NodeId, Rpc)>) -> bool {
    &&& replies.len() == 1
    &&& replies[0].1 matches Rpc::RequestVoteReply { granted, .. }
    &&& granted
}

/// Being up to date is total: of two live nodes that each ask the other in a term that
/// is new to both, at least one grants its vote.
pub proof fn two_nodes_never_both_refuse(a: RaftState, b: RaftState, term: u64)
    requires
        !a.crashed,
        !b.crashed,
        term > a.current_term,
        term > b.current_term,
        a.log.len() <= usize::MAX,
        b.log.len() <= usize::MAX,
    ensures
        ({
            let by_a = a.handled(
                b.id,
                Rpc::RequestVote {
                    term,
                    candidate: b.id,
                    last_log_index: b.log.len() as usize,
                    last_log_term: ends_in(b.log),
                },
            ).1;
            let by_b = b.handled(
                a.id,
                Rpc::RequestVote {
                    term,
                    candidate: a.id,
                    last_log_index: a.log.len() as usize,
                    last_log_term: ends_in(a.log),
                },
            ).1;
            vote_in(by_a) || vote_in(by_b)
        }),
{
}

/// A candidate counts each vote for its own term, and leads as soon as more than half
/// of all nodes voted for it. It then expects every follower to be up to date and
/// knows only of its own log. No other answer makes a leader, and none is answered.
pub proof fn majorities_make_leaders(
    node: RaftState,
    from: NodeId,
    term: u64,
    granted: bool,
    p: int,
)
    requires
        !node.crashed,
        node.votes_received.len() == node.n_nodes,
        from < node.n_nodes,
        node.log.len() < usize::MAX,
        0 <= p < node.n_nodes,
    ensures
        ({
            let (after, replies) = node.handled(from, Rpc::RequestVoteReply { term, granted });
            let votes = node.votes_received.update(from as int, true);
            let counts = node.role == Role::Candidate && term == node.current_term && granted;
            &&& replies =~= Seq::<(NodeId, Rpc)>::empty()
            &&& after.log == node.log
            &&& after.commit_index == node.commit_index
            &&& after.current_term == later(term, node.current_term)
            &&& after.election_timer == node.election_timer
            &&& counts ==> after.votes_received == votes && after.voted_for == node.voted_for
            &&& counts && 2 * tally(votes) > node.n_nodes ==> {
                &&& after.role == Role::Leader
                &&& after.leader_id == Some(node.id)
                &&& after.next_index.len() == node.n_nodes
                &&& after.match_index.len() == node.n_nodes
                &&& after.next_index[p] == node.log.len() + 1
                &&& p == node.id ==> after.match_index[p] == node.log.len()
                &&& p != node.id ==> after.match_index[p] == 0
                &&& after == RaftState {
                    role: Role::Leader,
                    leader_id: Some(node.id),
                    votes_received: votes,
                    next_index: after.next_index,
                    match_index: after.match_index,
                    ..node
                }
            }
            &&& counts && 2 * tally(votes) <= node.n_nodes ==> after == RaftState {
                votes_received: votes,
                ..node
            }
            &&& !counts && term > node.current_term ==> after.role == Role::Follower
                && after.voted_for is None && after.leader_id is None && keeps_log_and_books(
                node,
                after,
            )
            &&& !counts && term <= node.current_term ==> after == node
        }),
{
}

// ---- Replication ----

/// How far a leader's entries overlap with the log: as far as the terms agree.
proof fn overlap_is_agreement(log: Seq<LogEntry>, prev: int, entries: Seq<LogEntry>, k: int)
    requires
        0 <= prev <= log.len(),
        0 <= k <= entries.len(),
        prev + k <= log.len(),
    ensures
        ({
            let o = overlap(log, prev, entries, k);
            &&& k <= o <= entries.len()
            &&& prev + o <= log.len()
            &&& forall|j: int| k <= j < o ==> log[prev + j].term == (#[trigger] entries[j]).term
            &&& o < entries.len() && prev + o < log.len() ==> log[prev + o].term
                != entries[o].term
        }),
    decreases entries.len() - k,
{
    if k < entries.len() && prev + k < log.len() && log[prev + k].term == entries[k].term {
        overlap_is_agreement(log, prev, entries, k + 1);
        let o = overlap(log, prev, entries, k);
        assert forall|j: int| k <= j < o implies log[prev + j].term == (
        #[trigger] entries[j]).term by {
            if j > k {
                assert(k + 1 <= j);
            }
        }
    }
}

/// The entries and the log do not contradict each other: where both have an entry,
/// the terms are the same.
pub open spec fn compatible(log: Seq<LogEntry>, prev: int, entries: Seq<LogEntry>) -> bool {
    forall|k: int|
        0 <= k < entries.len() && prev + k < log.len() ==> log[prev + k].term == (
        #[trigger] entries[k]).term
}

/// What taking over a leader's entries does to a log. What comes before them stays;
/// where they are placed, the log has their terms; an entry that was there already
/// with the same term is not touched. If nothing contradicts, nothing is lost. If
/// something does, the log ends with the leader's entries, and from the first
/// contradiction on holds just them.
pub proof fn merging_follows_the_leader(log: Seq<LogEntry>, prev: int, entries: Seq<LogEntry>)
    requires
        0 <= prev <= log.len(),
    ensures
        ({
            let m = merged(log, prev, entries);
            &&& m.len() >= prev + entries.len()
            &&& forall|i: int| 0 <= i < prev ==> #[trigger] m[i] == log[i]
            &&& forall|k: int|
                0 <= k < entries.len() ==> m[prev + k].term == (#[trigger] entries[k]).term && (
                m[prev + k] == entries[k] || (prev + k < log.len() && m[prev + k] == log[prev
                    + k]))
            &&& compatible(log, prev, entries) ==> {
                &&& forall|i: int| 0 <= i < log.len() ==> #[trigger] m[i] == log[i]
                &&& m.len() == if log.len() >= prev + entries.len() {
                    log.len() as int
                } else {
                    prev + entries.len()
                }
                &&& forall|k: int|
                    log.len() - prev <= k < entries.len() ==> m[prev + k]
                        == #[trigger] entries[k]
            }
            &&& !compatible(log, prev, entries) ==> m.len() == prev + entries.len()
            &&& forall|c: int, k: int|
                0 <= c <= k < entries.len() && prev + c < log.len() && log[prev + c].term != (
                #[trigger] entries[c]).term ==> m[prev + k] == #[trigger] entries[k]
        }),
{
    let o = overlap(log, prev, entries, 0);
    let m = merged(log, prev, entries);
    overlap_is_agreement(log, prev, entries, 0);
    if o < entries.len() {
        assert forall|k: int| 0 <= k < entries.len() implies m[prev + k].term == (
        #[trigger] entries[k]).term && (m[prev + k] == entries[k] || (prev + k < log.len() && m[prev
            + k] == log[prev + k])) by {
            if k < o {
                assert(m[prev + k] == log[prev + k]);
            } else {
                assert(m[prev + k] == entries.skip(o)[k - o]);
            }
        }
        if compatible(log, prev, entries) {
            assert(entries[o].term == entries[o].term);
            assert(prev + o == log.len());
        }
        assert forall|c: int, k: int|
            0 <= c <= k < entries.len() && prev + c < log.len() && log[prev + c].term != (
            #[trigger] entries[c]).term implies m[prev + k] == #[trigger] entries[k] by {
            assert(c >= o);
            assert(m[prev + k] == entries.skip(o)[k - o]);
        }
    }
}

/// A request from a leader of an older term is refused, and changes nothing.
pub proof fn stale_leaders_are_refused(
    node: RaftState,
    from: NodeId,
    term: u64,
    leader: NodeId,
    prev_log_index: usize,
    prev_log_term: u64,
    entries: Seq<LogEntry>,
    leader_commit: usize,
)
    requires
        !node.crashed,
        term < node.current_term,
    ensures
        ({
            let (after, replies) = node.handled(
                from,
                Rpc::AppendEntries {
                    term,
                    leader,
                    prev_log_index,
                    prev_log_term,
                    entries,
                    leader_commit,
                },
            );
            &&& after == node
            &&& replies =~= seq![
                (
                    from,
                    Rpc::AppendEntriesReply {
                        term: node.current_term,
                        success: false,
                        match_index: 0,
                    },
                ),
            ]
        }),
{
}

/// What a live node does with a request from a leader of its own or a newer term. It
/// follows that leader and re-arms its timer. It refuses the entries exactly if it
/// does not have the entry before them; then its log and its commit index stay. Else
/// it takes them over, and its commit index becomes the leader's, capped by the last
/// entry that this request confirmed, but never goes back. It reports that last entry,
/// or the length of its log with the injected bug.
pub proof fn requests_are_followed(
    node: RaftState,
    from: NodeId,
    term: u64,
    leader: NodeId,
    prev_log_index: usize,
    prev_log_term: u64,
    entries: Seq<LogEntry>,
    leader_commit: usize,
)
    requires
        !node.crashed,
        term >= node.current_term,
        prev_log_index + entries.len() <= usize::MAX,
        node.log.len() <= usize::MAX,
    ensures
        ({
            let (after, replies) = node.handled(
                from,
                Rpc::AppendEntries {
                    term,
                    leader,
                    prev_log_index,
                    prev_log_term,
                    entries,
                    leader_commit,
                },
            );
            let has_previous = prev_log_index == 0 || (prev_log_index <= node.log.len()
                && node.log[prev_log_index - 1].term == prev_log_term);
            let confirmed = prev_log_index + entries.len();
            let capped = if leader_commit <= confirmed {
                leader_commit as int
            } else {
                confirmed as int
            };
            &&& after.current_term == term
            &&& after.role == Role::Follower
            &&& after.leader_id == Some(leader)
            &&& after.election_timer == node.base_timeout
            &&& term == node.current_term ==> after.voted_for == node.voted_for
            &&& term > node.current_term ==> after.voted_for is None
            &&& keeps_log_and_books(
                node,
                RaftState { log: node.log, commit_index: node.commit_index, ..after },
            )
            &&& !has_previous ==> {
                &&& after.log == node.log
                &&& after.commit_index == node.commit_index
                &&& replies =~= seq![
                    (
                        from,
                        Rpc::AppendEntriesReply { term, success: false, match_index: 0 },
                    ),
                ]
            }
            &&& has_previous ==> {
                &&& after.log == merged(node.log, prev_log_index as int, entries)
                &&& after.commit_index == if capped >= node.commit_index {
                    capped
                } else {
                    node.commit_index as int
                }
                &&& replies =~= seq![
                    (
                        from,
                        Rpc::AppendEntriesReply {
                            term,
                            success: true,
                            match_index: if node.inject_match_index_bug {
                                after.log.len() as usize
                            } else {
                                confirmed as usize
                            },
                        },
                    ),
                ]
            }
        }),
{
}

/// A live leader sends every peer its log from where it believes that peer's log to
/// end, and its commit index; nobody else sends anything.
pub proof fn leaders_send_what_is_missing(node: RaftState, k: int, i: int)
    requires
        node.next_index.len() == node.n_nodes,
        node.log.len() < usize::MAX,
        node.n_nodes <= usize::MAX,
    ensures
        ({
            let others = peers(node.n_nodes as nat, node.id);
            let outbox = node.heartbeat_outbox();
            &&& node.crashed || node.role != Role::Leader ==> outbox =~= Seq::empty()
            &&& !node.crashed && node.role == Role::Leader ==> outbox.len() == others.len()
            &&& !node.crashed && node.role == Role::Leader && 0 <= k < others.len()
                && node.next_index[others[k] as int] >= 1 ==> {
                let prev = node.next_index[others[k] as int] - 1;
                &&& outbox[k].0 == others[k]
                &&& outbox[k].1 matches Rpc::AppendEntries {
                    term,
                    leader,
                    prev_log_index,
                    prev_log_term,
                    entries,
                    leader_commit,
                }
                &&& term == node.current_term
                &&& leader == node.id
                &&& prev_log_index == prev
                &&& 0 < prev <= node.log.len() ==> prev_log_term == node.log[prev - 1].term
                &&& prev == 0 || prev > node.log.len() ==> prev_log_term == 0
                &&& prev <= node.log.len() ==> prev + entries.len() == node.log.len()
                &&& prev > node.log.len() ==> entries.len() == 0
                &&& 0 <= i < entries.len() ==> entries[i] == node.log[prev + i]
                &&& leader_commit == node.commit_index
            }
        }),
{
}

/// A heartbeat replicates: a live follower in no newer term, whose log agrees with the
/// leader's up to where the leader believes, and in which equal terms mean equal
/// entries, has the leader's whole log afterwards, and says so.
pub proof fn heartbeats_replicate(leader: RaftState, follower: RaftState, p: NodeId)
    requires
        !leader.crashed,
        leader.role == Role::Leader,
        leader.log.len() < usize::MAX,
        p < leader.next_index.len(),
        1 <= leader.next_index[p as int] <= leader.log.len() + 1,
        !follower.crashed,
        !follower.inject_match_index_bug,
        follower.current_term <= leader.current_term,
        follower.log.len() >= leader.next_index[p as int] - 1,
        follower.log.len() <= usize::MAX,
        forall|i: int|
            0 <= i < leader.next_index[p as int] - 1 ==> #[trigger] follower.log[i]
                == leader.log[i],
        forall|i: int|
            0 <= i < follower.log.len() && i < leader.log.len() && (
            #[trigger] follower.log[i]).term == leader.log[i].term ==> follower.log[i]
                == leader.log[i],
    ensures
        ({
            let (after, replies) = follower.handled(leader.id, leader.append_for(p));
            &&& after.log.len() >= leader.log.len()
            &&& forall|i: int| 0 <= i < leader.log.len() ==> #[trigger] after.log[i]
                == leader.log[i]
            &&& replies =~= seq![
                (
                    leader.id,
                    Rpc::AppendEntriesReply {
                        term: leader.current_term,
                        success: true,
                        match_index: leader.log.len() as usize,
                    },
                ),
            ]
        }),
{
    let prev = leader.next_index[p as int] - 1;
    let entries = leader.log.skip(prev);
    let (after, replies) = follower.handled(leader.id, leader.append_for(p));
    if prev > 0 {
        assert(follower.log[prev - 1] == leader.log[prev - 1]);
    }
    if prev == leader.log.len() {
        assert(entries =~= Seq::empty());
    }
    assert(after.log == merged(follower.log, prev, entries));
    merging_follows_the_leader(follower.log, prev, entries);
    assert forall|i: int| 0 <= i < leader.log.len() implies #[trigger] after.log[i]
        == leader.log[i] by {
        if i < prev {
            assert(after.log[i] == follower.log[i]);
        } else {
            let k = i - prev;
            assert(entries[k] == leader.log[i]);
            assert(after.log[prev + k].term == entries[k].term);
            if after.log[i] != entries[k] {
                assert(after.log[i] == follower.log[i]);
            }
        }
    }
}

/// The commit index that a leader counts is committable, or the one it had, and none
/// above it is.
proof fn highest_commit_is_highest(node: RaftState, hi: int)
    requires
        hi <= node.log.len(),
    ensures
        ({
            let c = node.highest_commit(hi);
            &&& c == node.commit_index || (node.commit_index < c <= hi && node.log[c - 1].term
                == node.current_term && holding(node.match_index, c) >= node.n_nodes / 2 + 1)
            &&& forall|i: int|
                c < i <= hi ==> (#[trigger] node.log[i - 1]).term != node.current_term || holding(
                    node.match_index,
                    i,
                ) < node.n_nodes / 2 + 1
        }),
    decreases hi - node.commit_index,
{
    assert forall|i: int| holding(node.match_index, i) == tally(
        #[trigger] holders(node.match_index, i),
    ) by {
        assert(holders(node.match_index, i) =~= Seq::new(
            node.match_index.len(),
            |p: int| node.match_index[p] >= i,
        ));
    }
    assert(holding(node.match_index, hi) == tally(holders(node.match_index, hi)));
    if hi > node.commit_index && !node.can_commit(hi) {
        highest_commit_is_highest(node, hi - 1);
        assert forall|i: int| node.highest_commit(hi) < i <= hi implies (
        #[trigger] node.log[i - 1]).term != node.current_term || holding(node.match_index, i)
            < node.n_nodes / 2 + 1 by {
            if i < hi {
                assert(i <= hi - 1);
            }
        }
    }
}

/// What a live leader does with a node's confirmation. It notes how far that node's
/// log is known to match and where to go on, counts its own log as a whole, and moves
/// its commit index to the highest entry of its own term that more than half of all
/// nodes hold: nothing above it could be committed too.
pub proof fn leaders_commit_what_a_majority_holds(
    node: RaftState,
    from: NodeId,
    match_index: usize,
    p: int,
    i: int,
)
    requires
        !node.crashed,
        node.role == Role::Leader,
        node.wf(),
        from < node.n_nodes,
        node.id < node.n_nodes,
        match_index < usize::MAX,
        node.log.len() <= usize::MAX,
        0 <= p < node.n_nodes,
    ensures
        ({
            let (after, replies) = node.handled(
                from,
                Rpc::AppendEntriesReply { term: node.current_term, success: true, match_index },
            );
            let c = after.commit_index;
            &&& replies =~= Seq::<(NodeId, Rpc)>::empty()
            &&& after.match_index.len() == node.n_nodes
            &&& p == node.id ==> after.match_index[p] == node.log.len()
            &&& p == from && p != node.id ==> after.match_index[p] == match_index
            &&& p != from && p != node.id ==> after.match_index[p] == node.match_index[p]
            &&& p == from ==> after.next_index[p] == match_index + 1
            &&& p != from ==> after.next_index[p] == node.next_index[p]
            &&& after == RaftState {
                match_index: after.match_index,
                next_index: after.next_index,
                commit_index: c,
                ..node
            }
            &&& c >= node.commit_index
            &&& c > node.commit_index ==> {
                &&& c <= node.log.len()
                &&& node.log[c - 1].term == node.current_term
                &&& 2 * holding(after.match_index, c as int) > node.n_nodes
            }
            &&& c < i <= node.log.len() ==> node.log[i - 1].term != node.current_term || 2
                * holding(after.match_index, i) <= node.n_nodes
        }),
{
    let told = RaftState {
        match_index: node.match_index.update(from as int, match_index),
        next_index: node.next_index.update(from as int, (match_index + 1) as usize),
        ..node
    };
    let counted = RaftState {
        match_index: told.match_index.update(told.id as int, told.log.len() as usize),
        ..told
    };
    highest_commit_is_highest(counted, counted.log.len() as int);
    let after = node.handled(
        from,
        Rpc::AppendEntriesReply { term: node.current_term, success: true, match_index },
    ).0;
    assert(after.match_index == counted.match_index);
    let c = counted.highest_commit(counted.log.len() as int);
    assert(after.commit_index == c);
    if c < i <= node.log.len() {
        assert(counted.log[i - 1].term != node.current_term || holding(counted.match_index, i)
            < node.n_nodes / 2 + 1);
    }
}

/// A refusal makes a live leader go one entry further back for that node, but not
/// behind the first, whatever index it carries, and nothing else.
pub proof fn refusals_make_leaders_back_up(node: RaftState, from: NodeId, match_index: usize)
    requires
        !node.crashed,
        node.role == Role::Leader,
        node.wf(),
        from < node.n_nodes,
    ensures
        ({
            let (after, replies) = node.handled(
                from,
                Rpc::AppendEntriesReply { term: node.current_term, success: false, match_index },
            );
            let next = node.next_index[from as int];
            &&& replies =~= Seq::<(NodeId, Rpc)>::empty()
            &&& after =~= RaftState {
                next_index: node.next_index.update(
                    from as int,
                    if next > 1 {
                        (next - 1) as usize
                    } else {
                        next
                    },
                ),
                ..node
            }
        }),
{
    let next = node.next_index[from as int];
    if next <= 1 {
        assert(node.next_index.update(from as int, next) =~= node.next_index);
    }
}

/// An answer to a leader's request counts only for a leader of the same term: a newer
/// term makes the node step down, and any other answer changes nothing.
pub proof fn stray_answers_change_nothing(
    node: RaftState,
    from: NodeId,
    term: u64,
    success: bool,
    match_index: usize,
)
    requires
        !node.crashed,
        node.role != Role::Leader || term != node.current_term,
    ensures
        ({
            let (after, replies) = node.handled(
                from,
                Rpc::AppendEntriesReply { term, success, match_index },
            );
            &&& replies =~= Seq::<(NodeId, Rpc)>::empty()
            &&& term <= node.current_term ==> after == node
            &&& term > node.current_term ==> {
                &&& after.current_term == term
                &&& after.role == Role::Follower
                &&& after.voted_for is None
                &&& after.leader_id is None
                &&& after.election_timer == node.election_timer
                &&& keeps_log_and_books(node, after)
            }
        }),
{
}

} // verus!
