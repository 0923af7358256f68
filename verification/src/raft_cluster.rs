//! Why Raft is safe, for clusters of any size, under any schedule of messages,
//! losses, delays, partitions, crashes and restarts.
//!
//! The proof follows a cluster together with its history: who stood and voted in
//! which term, with what log, who won, what the winner's log has become, and how
//! much of it each node has confirmed. Every step of a node extends the history
//! and keeps the invariant `holds`, from which follow
//!   - election safety: at most one leader per term,
//!   - log matching: equal terms at an index mean equal logs up to it,
//!   - leader completeness: a committed entry is in the log of every later leader,
//!   - state machine safety: committed logs never disagree.

use crate::counting::{majorities_intersect, tally};
use crate::net::{Deliver, NodeId};
use crate::raft::{holders, merged, overlap, LogEntry, RaftState, Role, Rpc};
use vstd::prelude::*;

verus! {

// ---- Logs ----

/// The first `i` entries of the two logs exist and are equal.
pub open spec fn agree(a: Seq<LogEntry>, b: Seq<LogEntry>, i: int) -> bool {
    &&& i <= a.len()
    &&& i <= b.len()
    &&& forall|k: int| #![trigger a[k]] #![trigger b[k]] 0 <= k < i ==> a[k] == b[k]
}

/// No entry is of a later term than `t`.
pub open spec fn terms_up_to(log: Seq<LogEntry>, t: int) -> bool {
    forall|k: int| 0 <= k < log.len() ==> (#[trigger] log[k]).term <= t
}

/// The term of the last entry; 0 for the empty log.
pub open spec fn last_term(log: Seq<LogEntry>) -> u64 {
    if log.len() == 0 {
        0
    } else {
        log.last().term
    }
}

/// A candidate with log `a` is at least as current as a voter with log `b`.
pub open spec fn not_behind(a: Seq<LogEntry>, b: Seq<LogEntry>) -> bool {
    last_term(a) > last_term(b) || (last_term(a) == last_term(b) && a.len() >= b.len())
}

// ---- The history of a cluster ----

/// A won election, and what has become of the winner's log.
pub struct Reign {
    pub leader: NodeId,
    pub voters: Seq<bool>,
    pub log: Seq<LogEntry>,
}

/// A vote, with the log that the voter had.
pub struct Ballot {
    pub candidate: NodeId,
    pub log: Seq<LogEntry>,
}

/// What has happened in a cluster.
#[verifier::ext_equal]
pub struct History {
    /// By term, the election that was won in it.
    pub reigns: Map<u64, Reign>,
    /// By term and candidate, the log with which the candidate stood.
    pub runs: Map<(u64, NodeId), Seq<LogEntry>>,
    /// By term and voter, the vote.
    pub ballots: Map<(u64, NodeId), Ballot>,
    /// By term and node, how much of the log of the term's leader the node has
    /// confirmed.
    pub acks: Map<(u64, NodeId), nat>,
}

impl History {
    pub open spec fn init() -> History {
        History {
            reigns: Map::empty(),
            runs: Map::empty(),
            ballots: Map::empty(),
            acks: Map::empty(),
        }
    }

    /// Someone won the election of term `t`.
    pub open spec fn elected(self, t: u64) -> bool {
        self.reigns.contains_key(t)
    }

    pub open spec fn leader(self, t: u64) -> NodeId {
        self.reigns[t].leader
    }

    /// The log of the leader of term `t`.
    pub open spec fn log(self, t: u64) -> Seq<LogEntry> {
        self.reigns[t].log
    }

    /// The voter voted for the candidate in term `t`.
    pub open spec fn voted(self, t: u64, voter: NodeId, candidate: NodeId) -> bool {
        self.ballots.contains_key((t, voter)) && self.ballots[(t, voter)].candidate == candidate
    }

    /// The node confirmed the first `i` entries of the leader of term `t`.
    pub open spec fn acked(self, x: NodeId, t: u64, i: int) -> bool {
        self.acks.contains_key((t, x)) && i <= self.acks[(t, x)]
    }

    /// Every entry came from the leader of its term, and so did what precedes it.
    pub open spec fn genuine(self, log: Seq<LogEntry>) -> bool {
        forall|k: int|
            #![trigger log[k]]
            0 <= k < log.len() ==> self.elected(log[k].term) && agree(
                log,
                self.log(log[k].term),
                k + 1,
            )
    }

    /// Some leader after term `t`, and not after term `last`, lacks the first `i`
    /// entries of the leader of term `t`.
    pub open spec fn overtaken(self, t: u64, i: int, last: int) -> bool {
        exists|u: u64|
            t < u <= last && #[trigger] self.elected(u) && !agree(self.log(u), self.log(t), i)
    }

    /// The log has the first `i` entries of the leader of term `t`, or had to give
    /// them up to a later leader.
    pub open spec fn kept(self, log: Seq<LogEntry>, t: u64, i: int, last: int) -> bool {
        agree(log, self.log(t), i) || self.overtaken(t, i, last)
    }

    /// All members of `q` confirmed the first `i` entries of the leader of term
    /// `t`, and `q` is a majority of `n` nodes.
    pub open spec fn quorum(self, n: nat, t: u64, i: int, q: Seq<bool>) -> bool {
        &&& q.len() == n
        &&& tally(q) >= n / 2 + 1
        &&& forall|v: NodeId| v < n && #[trigger] q[v as int] ==> self.acked(v, t, i)
    }

    /// The leader of term `t` could commit its entry at index `i`.
    pub open spec fn committed(self, n: nat, t: u64, i: int) -> bool {
        &&& self.elected(t)
        &&& 0 < i <= self.log(t).len()
        &&& self.log(t)[i - 1].term == t
        &&& exists|q: Seq<bool>| #[trigger] self.quorum(n, t, i, q)
    }

    /// What the leader of term `t` could commit at index `i` accounts for the
    /// first `c` entries of the log.
    pub open spec fn backing(self, n: nat, log: Seq<LogEntry>, c: int, t: u64, i: int) -> bool {
        c <= i && self.committed(n, t, i) && agree(log, self.log(t), c)
    }

    /// The first `c` entries of the log are committed, in a term up to `last`.
    pub open spec fn backed(self, n: nat, log: Seq<LogEntry>, c: int, last: int) -> bool {
        c == 0 || exists|t: u64, i: int| t <= last && #[trigger] self.backing(n, log, c, t, i)
    }

    // ---- What every history of `n` nodes satisfies ----

    pub open spec fn run_ok(self, n: nat, t: u64, c: NodeId) -> bool {
        let log = self.runs[(t, c)];
        &&& c < n
        &&& log.len() < usize::MAX
        &&& self.genuine(log)
        &&& terms_up_to(log, t - 1)
    }

    pub open spec fn ballot_ok(self, n: nat, t: u64, v: NodeId) -> bool {
        let b = self.ballots[(t, v)];
        &&& v < n
        &&& self.runs.contains_key((t, b.candidate))
        &&& self.genuine(b.log)
        &&& not_behind(self.runs[(t, b.candidate)], b.log)
    }

    pub open spec fn reign_ok(self, n: nat, t: u64) -> bool {
        let r = self.reigns[t];
        let start = self.runs[(t, r.leader)];
        &&& r.leader < n
        &&& r.log.len() < usize::MAX
        &&& r.voters.len() == n
        &&& tally(r.voters) >= n / 2 + 1
        &&& forall|v: NodeId| v < n && #[trigger] r.voters[v as int] ==> self.voted(t, v, r.leader)
        &&& self.runs.contains_key((t, r.leader))
        &&& agree(r.log, start, start.len() as int)
        &&& forall|k: int| start.len() <= k < r.log.len() ==> (#[trigger] r.log[k]).term == t
        &&& self.genuine(r.log)
    }

    pub open spec fn sound(self, n: nat) -> bool {
        &&& forall|t: u64, c: NodeId| #[trigger]
            self.runs.contains_key((t, c)) ==> self.run_ok(n, t, c)
        &&& forall|t: u64, v: NodeId| #[trigger]
            self.ballots.contains_key((t, v)) ==> self.ballot_ok(n, t, v)
        &&& forall|t: u64| #[trigger] self.elected(t) ==> self.reign_ok(n, t)
    }

    // ---- What holds of a node ----

    /// A node votes once per term, and does not go back to a term in which it
    /// stood, voted or led.
    pub open spec fn votes_ok(self, x: NodeId, node: RaftState) -> bool {
        &&& node.voted_for is Some ==> self.voted(node.current_term, x, node.voted_for->0)
        &&& forall|t: u64| #[trigger]
            self.ballots.contains_key((t, x)) ==> {
                &&& t <= node.current_term
                &&& t == node.current_term ==> node.voted_for == Some(
                    self.ballots[(t, x)].candidate,
                )
            }
        &&& forall|t: u64| #[trigger] self.runs.contains_key((t, x)) ==> t <= node.current_term
        &&& forall|t: u64| #[trigger]
            self.elected(t) && self.leader(t) == x ==> {
                &&& t <= node.current_term
                &&& t == node.current_term ==> node.role != Role::Candidate && node.log
                    == self.log(t)
            }
    }

    /// A candidate stands with its log, and counts the votes it got.
    pub open spec fn candidate_ok(self, n: nat, x: NodeId, node: RaftState) -> bool {
        node.role == Role::Candidate ==> {
            &&& self.runs.contains_key((node.current_term, x))
            &&& self.runs[(node.current_term, x)] == node.log
            &&& forall|v: NodeId|
                v < n && #[trigger] node.votes_received[v as int] ==> self.voted(
                    node.current_term,
                    v,
                    x,
                )
        }
    }

    /// A leader won its term, and what it believes of its peers is true.
    pub open spec fn leader_ok(self, n: nat, x: NodeId, node: RaftState) -> bool {
        node.role == Role::Leader ==> {
            &&& self.elected(node.current_term)
            &&& self.leader(node.current_term) == x
            &&& forall|p: NodeId|
                p < n ==> #[trigger] node.next_index[p as int] <= node.log.len() + 1
            &&& forall|p: NodeId|
                p < n && #[trigger] node.match_index[p as int] > 0 ==> self.acked(
                    p,
                    node.current_term,
                    node.match_index[p as int] as int,
                )
        }
    }

    /// What node `x` once confirmed to the leader of term `t` is still in its log,
    /// and was in its log when it voted later, unless a later leader lacks it.
    pub open spec fn ack_ok(self, x: NodeId, node: RaftState, t: u64, i: int) -> bool {
        &&& t <= node.current_term
        &&& self.elected(t)
        &&& i <= self.log(t).len()
        &&& self.kept(node.log, t, i, node.current_term as int)
        &&& forall|u: u64| #[trigger]
            self.ballots.contains_key((u, x)) && t < u ==> self.kept(
                self.ballots[(u, x)].log,
                t,
                i,
                u as int,
            )
        &&& forall|u: u64| #[trigger]
            self.elected(u) && t < u && self.reigns[u].voters[x as int] ==> self.kept(
                self.ballots[(u, x)].log,
                t,
                i,
                u - 1,
            )
    }

    #[verifier::opaque]
    pub open spec fn acks_ok(self, x: NodeId, node: RaftState) -> bool {
        forall|t: u64, i: int| #[trigger] self.acked(x, t, i) ==> self.ack_ok(x, node, t, i)
    }

    pub open spec fn node_ok(self, n: nat, x: NodeId, node: RaftState) -> bool {
        &&& node.id == x
        &&& node.n_nodes == n
        &&& node.wf()
        &&& !node.inject_match_index_bug
        &&& self.genuine(node.log)
        &&& terms_up_to(node.log, node.current_term as int)
        &&& self.votes_ok(x, node)
        &&& self.candidate_ok(n, x, node)
        &&& self.leader_ok(n, x, node)
        &&& self.acks_ok(x, node)
        &&& self.backed(n, node.log, node.commit_index as int, node.current_term as int)
    }

    /// What holds of a message in flight.
    pub open spec fn packet_ok(self, n: nat, d: Deliver<Rpc>) -> bool {
        &&& d.from < n
        &&& match d.msg {
            Rpc::RequestVote { term, candidate, last_log_index, last_log_term } => {
                &&& d.from == candidate
                &&& self.runs.contains_key((term, candidate))
                &&& last_log_index == self.runs[(term, candidate)].len()
                &&& last_log_term == last_term(self.runs[(term, candidate)])
            },
            Rpc::RequestVoteReply { term, granted } => granted ==> self.voted(term, d.from, d.to),
            Rpc::AppendEntries {
                term,
                leader,
                prev_log_index,
                prev_log_term,
                entries,
                leader_commit,
            } => {
                &&& self.elected(term)
                &&& prev_log_index + entries.len() <= self.log(term).len()
                &&& forall|k: int|
                    0 <= k < entries.len() ==> #[trigger] entries[k] == self.log(
                        term,
                    )[prev_log_index + k]
                &&& prev_log_index > 0 ==> prev_log_term == self.log(term)[prev_log_index
                    - 1].term
                &&& self.backed(n, self.log(term), leader_commit as int, term as int)
            },
            Rpc::AppendEntriesReply { term, success, match_index } => success ==> self.acked(
                d.from,
                term,
                match_index as int,
            ),
        }
    }
}

/// The invariant of a cluster and its history.
pub open spec fn holds(h: History, nodes: Seq<RaftState>) -> bool {
    &&& nodes.len() <= usize::MAX
    &&& h.sound(nodes.len())
    &&& forall|x: NodeId|
        x < nodes.len() ==> h.node_ok(nodes.len(), x, #[trigger] nodes[x as int])
}

// ---- How a history grows ----

/// `b` continues `a` by a step of node `y`.
pub open spec fn grows(a: History, b: History, y: NodeId) -> bool {
    &&& forall|t: u64, c: NodeId| #[trigger]
        a.runs.contains_key((t, c)) ==> b.runs.contains_key((t, c)) && b.runs[(t, c)]
            == a.runs[(t, c)]
    &&& forall|t: u64, c: NodeId| #[trigger]
        b.runs.contains_key((t, c)) && c != y ==> a.runs.contains_key((t, c))
    &&& forall|t: u64, v: NodeId| #[trigger]
        a.ballots.contains_key((t, v)) ==> b.ballots.contains_key((t, v)) && b.ballots[(t, v)]
            == a.ballots[(t, v)]
    &&& forall|t: u64, v: NodeId| #[trigger]
        b.ballots.contains_key((t, v)) && v != y ==> a.ballots.contains_key((t, v))
    &&& forall|t: u64| #[trigger]
        a.elected(t) ==> {
            &&& b.elected(t)
            &&& b.leader(t) == a.leader(t)
            &&& b.reigns[t].voters == a.reigns[t].voters
            &&& agree(a.log(t), b.log(t), a.log(t).len() as int)
            &&& forall|k: int|
                a.log(t).len() <= k < b.log(t).len() ==> (#[trigger] b.log(t)[k]).term == t
            &&& a.leader(t) != y ==> b.log(t) == a.log(t)
        }
    &&& forall|t: u64| #[trigger] b.elected(t) && b.leader(t) != y ==> a.elected(t)
    &&& forall|t: u64, x: NodeId| #[trigger]
        a.acks.contains_key((t, x)) ==> b.acks.contains_key((t, x)) && a.acks[(t, x)]
            <= b.acks[(t, x)]
    &&& forall|t: u64, x: NodeId| #[trigger]
        b.acks.contains_key((t, x)) && x != y ==> a.acks.contains_key((t, x)) && a.acks[(t, x)]
            == b.acks[(t, x)]
}

/// `b` continues `a`, by any number of steps: no won election, no log entry of a
/// leader and no confirmation is taken back.
pub open spec fn extends(a: History, b: History) -> bool {
    &&& forall|t: u64| #[trigger]
        a.elected(t) ==> b.elected(t) && agree(a.log(t), b.log(t), a.log(t).len() as int)
    &&& forall|t: u64, x: NodeId| #[trigger]
        a.acks.contains_key((t, x)) ==> b.acks.contains_key((t, x)) && a.acks[(t, x)]
            <= b.acks[(t, x)]
}

/// A step continues a history.
pub proof fn grows_extends(a: History, b: History, y: NodeId)
    requires
        grows(a, b, y),
    ensures
        extends(a, b),
{
}

/// Continuing a history is transitive, and doing nothing continues it.
pub proof fn extends_is_transitive(a: History, b: History, c: History)
    requires
        extends(a, b),
        extends(b, c),
    ensures
        extends(a, c),
        extends(a, a),
{
    assert forall|t: u64| #[trigger] a.elected(t) implies c.elected(t) && agree(
        a.log(t),
        c.log(t),
        a.log(t).len() as int,
    ) by {
        assert(b.elected(t));
        assert forall|k: int| #![trigger a.log(t)[k]] 0 <= k < a.log(t).len() implies a.log(t)[k]
            == c.log(t)[k] by {
            assert(a.log(t)[k] == b.log(t)[k] && b.log(t)[k] == c.log(t)[k]);
        }
    }
    assert forall|t: u64, x: NodeId| #[trigger] a.acks.contains_key((t, x)) implies c.acks.contains_key(
    (t, x)) && a.acks[(t, x)] <= c.acks[(t, x)] by {
        assert(b.acks.contains_key((t, x)));
    }
}

proof fn genuine_grows(a: History, b: History, y: NodeId, log: Seq<LogEntry>)
    requires
        grows(a, b, y),
        a.genuine(log),
    ensures
        b.genuine(log),
{
    assert forall|k: int| #![trigger log[k]] 0 <= k < log.len() implies b.elected(log[k].term)
        && agree(log, b.log(log[k].term), k + 1) by {
        let t = log[k].term;
        assert(a.elected(t));
        let la = a.log(t);
        let lb = b.log(t);
        assert(agree(la, lb, la.len() as int));
        assert forall|j: int| #![trigger log[j]] 0 <= j < k + 1 implies log[j] == lb[j] by {
            assert(la[j] == lb[j]);
        }
    }
}

/// The entries of a leader's log are not later than its term.
proof fn reign_terms(h: History, n: nat, t: u64)
    requires
        h.sound(n),
        h.elected(t),
    ensures
        terms_up_to(h.log(t), t as int),
{
    let r = h.reigns[t];
    assert(h.reign_ok(n, t));
    let start = h.runs[(t, r.leader)];
    assert(h.run_ok(n, t, r.leader));
    assert forall|k: int| 0 <= k < r.log.len() implies (#[trigger] r.log[k]).term <= t by {
        if k < start.len() {
            assert(r.log[k] == start[k]);
        }
    }
}

/// Where a later leader lacks something, no appended entry makes up for it.
proof fn overtaken_grows(a: History, b: History, y: NodeId, n: nat, t: u64, i: int, last: int)
    requires
        grows(a, b, y),
        a.sound(n),
        a.elected(t),
        i <= a.log(t).len(),
        a.overtaken(t, i, last),
    ensures
        b.overtaken(t, i, last),
{
    let u = choose|u: u64|
        t < u <= last && #[trigger] a.elected(u) && !agree(a.log(u), a.log(t), i);
    reign_terms(a, n, t);
    assert(b.elected(u));
    if agree(b.log(u), b.log(t), i) {
        let lu = a.log(u);
        let lt = a.log(t);
        if i <= lu.len() {
            assert forall|k: int| #![trigger lu[k]] 0 <= k < i implies lu[k] == lt[k] by {
                assert(b.log(u)[k] == b.log(t)[k]);
            }
            assert(agree(lu, lt, i));
        } else {
            let k = lu.len() as int;
            assert(b.log(u)[k].term == u);
            assert(b.log(t)[k] == lt[k]);
        }
        assert(false);
    }
}

proof fn kept_grows(
    a: History,
    b: History,
    y: NodeId,
    n: nat,
    log: Seq<LogEntry>,
    t: u64,
    i: int,
    last: int,
)
    requires
        grows(a, b, y),
        a.sound(n),
        a.elected(t),
        i <= a.log(t).len(),
        a.kept(log, t, i, last),
    ensures
        b.kept(log, t, i, last),
{
    if a.overtaken(t, i, last) {
        overtaken_grows(a, b, y, n, t, i, last);
    } else {
        let la = a.log(t);
        let lb = b.log(t);
        assert forall|k: int| #![trigger log[k]] 0 <= k < i implies log[k] == lb[k] by {
            assert(la[k] == lb[k]);
        }
        assert(agree(log, lb, i));
    }
}

proof fn committed_grows(a: History, b: History, n: nat, t: u64, i: int)
    requires
        extends(a, b),
        a.committed(n, t, i),
    ensures
        b.committed(n, t, i),
{
    let q = choose|q: Seq<bool>| #[trigger] a.quorum(n, t, i, q);
    assert(a.elected(t));
    assert(a.log(t)[i - 1] == b.log(t)[i - 1]);
    assert forall|v: NodeId| v < n && #[trigger] q[v as int] implies b.acked(v, t, i) by {
        assert(a.acked(v, t, i));
    }
    assert(b.quorum(n, t, i, q));
}

proof fn backed_grows(
    a: History,
    b: History,
    y: NodeId,
    n: nat,
    log: Seq<LogEntry>,
    c: int,
    last: int,
)
    requires
        grows(a, b, y),
        a.backed(n, log, c, last),
    ensures
        b.backed(n, log, c, last),
{
    if c != 0 {
        let (t, i) = choose|t: u64, i: int| t <= last && #[trigger] a.backing(n, log, c, t, i);
        grows_extends(a, b, y);
        committed_grows(a, b, n, t, i);
        let la = a.log(t);
        let lb = b.log(t);
        assert forall|k: int| #![trigger log[k]] 0 <= k < c implies log[k] == lb[k] by {
            assert(la[k] == lb[k]);
        }
        assert(b.backing(n, log, c, t, i));
    }
}


/// What holds of a message keeps holding.
pub proof fn packet_grows(a: History, b: History, y: NodeId, n: nat, d: Deliver<Rpc>)
    requires
        grows(a, b, y),
        a.packet_ok(n, d),
    ensures
        b.packet_ok(n, d),
{
    match d.msg {
        Rpc::RequestVote { term, candidate, .. } => {
            assert(a.runs.contains_key((term, candidate)));
        },
        Rpc::RequestVoteReply { term, granted } => {
            if granted {
                assert(a.ballots.contains_key((term, d.from)));
            }
        },
        Rpc::AppendEntries { term, prev_log_index, entries, leader_commit, .. } => {
            assert(a.elected(term));
            backed_grows(a, b, y, n, a.log(term), leader_commit as int, term as int);
            assert forall|k: int| 0 <= k < entries.len() implies #[trigger] entries[k] == b.log(
                term,
            )[prev_log_index + k] by {
                assert(a.log(term)[prev_log_index + k] == b.log(term)[prev_log_index + k]);
            }
            if prev_log_index > 0 {
                assert(a.log(term)[prev_log_index - 1] == b.log(term)[prev_log_index - 1]);
            }
            backed_by_longer(
                b,
                n,
                a.log(term),
                b.log(term),
                leader_commit as int,
                term as int,
            );
        },
        Rpc::AppendEntriesReply { term, success, match_index } => {
            if success {
                assert(a.acks.contains_key((term, d.from)));
            }
        },
    }
}

/// A log that continues another has what the other has.
proof fn backed_by_longer(
    h: History,
    n: nat,
    a: Seq<LogEntry>,
    b: Seq<LogEntry>,
    c: int,
    last: int,
)
    requires
        h.backed(n, a, c, last),
        agree(a, b, a.len() as int),
    ensures
        h.backed(n, b, c, last),
{
    if c != 0 {
        let (t, i) = choose|t: u64, i: int| t <= last && #[trigger] h.backing(n, a, c, t, i);
        assert forall|k: int| #![trigger b[k]] 0 <= k < c implies b[k] == h.log(t)[k] by {
            assert(a[k] == b[k]);
        }
        assert(h.backing(n, b, c, t, i));
    }
}

/// What a history has recorded stays in order, but for what the step adds.
proof fn sound_grows(a: History, b: History, y: NodeId, n: nat)
    requires
        a.sound(n),
        grows(a, b, y),
    ensures
        forall|t: u64, c: NodeId| #[trigger]
            b.runs.contains_key((t, c)) && a.runs.contains_key((t, c)) ==> b.run_ok(n, t, c),
        forall|t: u64, v: NodeId| #[trigger]
            b.ballots.contains_key((t, v)) && a.ballots.contains_key((t, v)) ==> b.ballot_ok(
                n,
                t,
                v,
            ),
        forall|t: u64| #[trigger]
            b.elected(t) && a.elected(t) && b.log(t) == a.log(t) ==> b.reign_ok(n, t),
{
    assert forall|t: u64, c: NodeId| #[trigger]
        b.runs.contains_key((t, c)) && a.runs.contains_key((t, c)) implies b.run_ok(n, t, c) by {
        assert(a.run_ok(n, t, c));
        genuine_grows(a, b, y, a.runs[(t, c)]);
    }
    assert forall|t: u64, v: NodeId| #[trigger]
        b.ballots.contains_key((t, v)) && a.ballots.contains_key((t, v)) implies b.ballot_ok(
        n,
        t,
        v,
    ) by {
        assert(a.ballot_ok(n, t, v));
        assert(a.runs.contains_key((t, a.ballots[(t, v)].candidate)));
        genuine_grows(a, b, y, a.ballots[(t, v)].log);
    }
    assert forall|t: u64| #[trigger]
        b.elected(t) && a.elected(t) && b.log(t) == a.log(t) implies b.reign_ok(n, t) by {
        assert(a.reign_ok(n, t));
        let r = a.reigns[t];
        assert(a.runs.contains_key((t, r.leader)));
        genuine_grows(a, b, y, r.log);
        assert forall|v: NodeId| v < n && #[trigger] r.voters[v as int] implies b.voted(
            t,
            v,
            r.leader,
        ) by {
            assert(a.voted(t, v, r.leader));
            assert(a.ballots.contains_key((t, v)));
        }
    }
}

/// What a node's role rests on is never taken back.
proof fn standing_grows(a: History, b: History, y: NodeId, n: nat, x: NodeId, node: RaftState)
    requires
        grows(a, b, y),
        a.node_ok(n, x, node),
    ensures
        b.genuine(node.log),
        b.candidate_ok(n, x, node),
        b.leader_ok(n, x, node),
        b.backed(n, node.log, node.commit_index as int, node.current_term as int),
{
    genuine_grows(a, b, y, node.log);
    backed_grows(a, b, y, n, node.log, node.commit_index as int, node.current_term as int);
    let t = node.current_term;
    assert(b.candidate_ok(n, x, node)) by {
        if node.role == Role::Candidate {
            assert(a.runs.contains_key((t, x)));
            assert forall|v: NodeId|
                v < n && #[trigger] node.votes_received[v as int] implies b.voted(t, v, x) by {
                assert(a.ballots.contains_key((t, v)));
            }
        }
    }
    assert(b.leader_ok(n, x, node)) by {
        if node.role == Role::Leader {
            assert(a.elected(t));
            assert forall|p: NodeId|
                p < n && #[trigger] node.match_index[p as int] > 0 implies b.acked(
                p,
                t,
                node.match_index[p as int] as int,
            ) by {
                assert(a.acks.contains_key((t, p)));
            }
        }
    }
}

/// What a node has confirmed stays accounted for, also when it votes or when a
/// term is won.
proof fn ack_grows(
    a: History,
    b: History,
    y: NodeId,
    n: nat,
    x: NodeId,
    node: RaftState,
    t: u64,
    i: int,
)
    requires
        a.sound(n),
        b.sound(n),
        grows(a, b, y),
        x < n,
        a.ack_ok(x, node, t, i),
        a.ballots == b.ballots || a.reigns == b.reigns,
        forall|u: u64| #[trigger]
            b.ballots.contains_key((u, x)) && !a.ballots.contains_key((u, x)) ==> u
                >= node.current_term && b.ballots[(u, x)].log == node.log,
    ensures
        b.ack_ok(x, node, t, i),
{
    kept_grows(a, b, y, n, node.log, t, i, node.current_term as int);
    assert forall|u: u64| #[trigger] b.ballots.contains_key((u, x)) && t < u implies b.kept(
        b.ballots[(u, x)].log,
        t,
        i,
        u as int,
    ) by {
        if a.ballots.contains_key((u, x)) {
            kept_grows(a, b, y, n, a.ballots[(u, x)].log, t, i, u as int);
        } else {
            kept_later(b, node.log, t, i, node.current_term as int, u as int);
        }
    }
    assert forall|u: u64| #[trigger]
        b.elected(u) && t < u && b.reigns[u].voters[x as int] implies b.kept(
        b.ballots[(u, x)].log,
        t,
        i,
        u - 1,
    ) by {
        assert(b.reign_ok(n, u));
        assert(b.voted(u, x, b.leader(u)));
        if a.elected(u) {
            assert(a.reign_ok(n, u));
            assert(a.voted(u, x, a.leader(u)));
            assert(a.ballots.contains_key((u, x)));
        } else {
            // What had overtaken the voter when it voted was elected before.
            assert(a.ballots.contains_key((u, x)));
            let log = a.ballots[(u, x)].log;
            assert(a.kept(log, t, i, u as int));
            if a.overtaken(t, i, u as int) {
                let w = choose|w: u64|
                    t < w <= u && #[trigger] a.elected(w) && !agree(a.log(w), a.log(t), i);
                assert(w != u);
                assert(a.overtaken(t, i, u - 1));
            }
        }
        kept_grows(a, b, y, n, a.ballots[(u, x)].log, t, i, u - 1);
    }
}

/// What was kept up to some term is kept up to a later one.
proof fn kept_later(h: History, log: Seq<LogEntry>, t: u64, i: int, last: int, later: int)
    requires
        h.kept(log, t, i, last),
        last <= later,
    ensures
        h.kept(log, t, i, later),
{
    if h.overtaken(t, i, last) {
        let w = choose|w: u64|
            t < w <= last && #[trigger] h.elected(w) && !agree(h.log(w), h.log(t), i);
        assert(h.overtaken(t, i, later));
    }
}

/// A step of node `y` does not touch what holds of the others.
proof fn others_keep(a: History, b: History, y: NodeId, n: nat, x: NodeId, node: RaftState)
    requires
        a.sound(n),
        b.sound(n),
        grows(a, b, y),
        a.ballots == b.ballots || a.reigns == b.reigns,
        x < n,
        x != y,
        a.node_ok(n, x, node),
    ensures
        b.node_ok(n, x, node),
{
    standing_grows(a, b, y, n, x, node);
    assert(b.votes_ok(x, node)) by {
        if node.voted_for is Some {
            assert(a.ballots.contains_key((node.current_term, x)));
        }
        assert forall|t: u64| #[trigger] b.elected(t) && b.leader(t) == x implies {
            &&& t <= node.current_term
            &&& t == node.current_term ==> node.role != Role::Candidate && node.log == b.log(t)
        } by {
            assert(a.elected(t));
        }
        assert forall|t: u64| #[trigger] b.ballots.contains_key((t, x)) implies {
            &&& t <= node.current_term
            &&& t == node.current_term ==> node.voted_for == Some(b.ballots[(t, x)].candidate)
        } by {
            assert(a.ballots.contains_key((t, x)));
        }
        assert forall|t: u64| #[trigger] b.runs.contains_key((t, x)) implies t
            <= node.current_term by {
            assert(a.runs.contains_key((t, x)));
        }
    }
    assert(b.acks_ok(x, node)) by {
        reveal(History::acks_ok);
        assert forall|t: u64, i: int| #[trigger] b.acked(x, t, i) implies b.ack_ok(
            x,
            node,
            t,
            i,
        ) by {
            assert(b.acks.contains_key((t, x)));
            assert(a.acked(x, t, i));
            ack_grows(a, b, y, n, x, node, t, i);
        }
    }
}

/// The invariant after a step of node `y`.
proof fn step_holds(a: History, b: History, nodes: Seq<RaftState>, y: NodeId, node: RaftState)
    requires
        holds(a, nodes),
        y < nodes.len(),
        grows(a, b, y),
        a.ballots == b.ballots || a.reigns == b.reigns,
        b.sound(nodes.len()),
        b.node_ok(nodes.len(), y, node),
    ensures
        holds(b, nodes.update(y as int, node)),
{
    let n = nodes.len();
    let after = nodes.update(y as int, node);
    assert forall|x: NodeId| x < n implies b.node_ok(n, x, #[trigger] after[x as int]) by {
        if x != y {
            assert(a.node_ok(n, x, nodes[x as int]));
            others_keep(a, b, y, n, x, nodes[x as int]);
        }
    }
}

// ---- Leader completeness ----

/// Terms do not decrease along a log.
proof fn terms_ascend(h: History, n: nat, log: Seq<LogEntry>, i: int, j: int)
    requires
        h.sound(n),
        h.genuine(log),
        0 <= i <= j < log.len(),
    ensures
        log[i].term <= log[j].term,
{
    let t = log[j].term;
    assert(agree(log, h.log(t), j + 1));
    reign_terms(h, n, t);
    assert(log[i] == h.log(t)[i]);
}

/// Two logs with the same term at the same index agree up to it.
proof fn logs_match(h: History, a: Seq<LogEntry>, b: Seq<LogEntry>, i: int)
    requires
        h.genuine(a),
        h.genuine(b),
        0 <= i < a.len(),
        i < b.len(),
        a[i].term == b[i].term,
    ensures
        agree(a, b, i + 1),
{
    let l = h.log(a[i].term);
    assert(agree(a, l, i + 1));
    assert(agree(b, l, i + 1));
    assert forall|k: int| #![trigger a[k]] 0 <= k < i + 1 implies a[k] == b[k] by {
        assert(a[k] == l[k]);
        assert(b[k] == l[k]);
    }
}

/// A candidate that is at least as current as a voter has what the voter has of
/// an earlier leader, if every leader in between has it.
proof fn winner_has(
    h: History,
    n: nat,
    s: Seq<LogEntry>,
    b: Seq<LogEntry>,
    t: u64,
    i: int,
    last: u64,
)
    requires
        h.sound(n),
        h.genuine(s),
        h.genuine(b),
        not_behind(s, b),
        h.elected(t),
        0 < i <= h.log(t).len(),
        h.log(t)[i - 1].term == t,
        agree(b, h.log(t), i),
        terms_up_to(s, last - 1),
        forall|u: u64| t < u < last && #[trigger] h.elected(u) ==> agree(h.log(u), h.log(t), i),
    ensures
        agree(s, h.log(t), i),
{
    let p = h.log(t);
    assert(b[i - 1] == p[i - 1]);
    terms_ascend(h, n, b, i - 1, b.len() - 1);
    let st = last_term(s);
    let bt = last_term(b);
    assert(bt >= t);
    let l = h.log(st);
    assert(s.len() > 0);
    assert(s.last() == s[s.len() - 1]);
    assert(h.elected(st) && agree(s, l, s.len() as int));
    if st == bt {
        assert(b.last() == b[b.len() - 1]);
        assert(agree(b, l, b.len() as int));
        assert forall|k: int| #![trigger s[k]] 0 <= k < i implies s[k] == p[k] by {
            assert(s[k] == l[k] && b[k] == l[k] && b[k] == p[k]);
        }
    } else {
        assert(agree(l, p, i));
        if s.len() < i {
            reign_terms(h, n, t);
            let k = s.len() - 1;
            assert(s[k] == l[k] && l[k] == p[k]);
            assert(false);
        }
        assert forall|k: int| #![trigger s[k]] 0 <= k < i implies s[k] == p[k] by {
            assert(s[k] == l[k] && l[k] == p[k]);
        }
    }
}

/// Leader completeness: the log of every later leader has what was committed.
pub proof fn leaders_are_complete(
    h: History,
    nodes: Seq<RaftState>,
    t: u64,
    i: int,
    u: u64,
)
    requires
        holds(h, nodes),
        h.committed(nodes.len(), t, i),
        t < u,
        h.elected(u),
    ensures
        agree(h.log(u), h.log(t), i),
    decreases u,
{
    let n = nodes.len();
    assert forall|w: u64| t < w < u && #[trigger] h.elected(w) implies agree(
        h.log(w),
        h.log(t),
        i,
    ) by {
        leaders_are_complete(h, nodes, t, i, w);
    }
    let q = choose|q: Seq<bool>| #[trigger] h.quorum(n, t, i, q);
    let r = h.reigns[u];
    assert(h.reign_ok(n, u));
    let v = majorities_intersect(q, r.voters) as usize;
    assert(q[v as int] && r.voters[v as int]);
    assert(h.acked(v, t, i));
    assert(h.voted(u, v, r.leader));
    assert(h.ballot_ok(n, u, v));
    assert(h.run_ok(n, u, r.leader));
    let b = h.ballots[(u, v)].log;
    let s = h.runs[(u, r.leader)];
    assert(h.node_ok(n, v, nodes[v as int]));
    assert(h.ack_ok(v, nodes[v as int], t, i)) by {
        reveal(History::acks_ok);
    }
    assert(h.kept(b, t, i, u - 1));
    assert(agree(b, h.log(t), i));
    winner_has(h, n, s, b, t, i, u);
    assert forall|k: int| #![trigger r.log[k]] 0 <= k < i implies r.log[k] == h.log(t)[k] by {
        assert(r.log[k] == s[k]);
    }
}

/// State machine safety: what two nodes both consider committed is the same.
pub proof fn committed_prefixes_agree(
    h: History,
    nodes: Seq<RaftState>,
    x: NodeId,
    y: NodeId,
    k: int,
)
    requires
        holds(h, nodes),
        x < nodes.len(),
        y < nodes.len(),
        0 <= k < nodes[x as int].commit_index,
        k < nodes[y as int].commit_index,
    ensures
        nodes[x as int].commit_index <= nodes[x as int].log.len(),
        nodes[y as int].commit_index <= nodes[y as int].log.len(),
        nodes[x as int].log[k] == nodes[y as int].log[k],
{
    let n = nodes.len();
    let a = nodes[x as int];
    let b = nodes[y as int];
    assert(h.node_ok(n, x, a));
    assert(h.node_ok(n, y, b));
    let (t, i) = choose|t: u64, i: int|
        t <= a.current_term && #[trigger] h.backing(n, a.log, a.commit_index as int, t, i);
    let (u, j) = choose|u: u64, j: int|
        u <= b.current_term && #[trigger] h.backing(n, b.log, b.commit_index as int, u, j);
    assert(a.log[k] == h.log(t)[k]);
    assert(b.log[k] == h.log(u)[k]);
    if t < u {
        leaders_are_complete(h, nodes, t, i, u);
        assert(h.log(u)[k] == h.log(t)[k]);
    } else if u < t {
        leaders_are_complete(h, nodes, u, j, t);
        assert(h.log(t)[k] == h.log(u)[k]);
    }
}

/// What a node considers committed at some time, it holds for good: as long as its
/// commit index has not gone back, the same entries are committed at a later time.
pub proof fn commits_survive(
    a: History,
    before: Seq<RaftState>,
    b: History,
    after: Seq<RaftState>,
    x: NodeId,
)
    requires
        holds(a, before),
        holds(b, after),
        extends(a, b),
        before.len() == after.len(),
        x < before.len(),
        before[x as int].commit_index <= after[x as int].commit_index,
    ensures
        before[x as int].committed().is_prefix_of(after[x as int].committed()),
{
    let n = before.len();
    let p = before[x as int];
    let q = after[x as int];
    assert(a.node_ok(n, x, p));
    assert(b.node_ok(n, x, q));
    let c = p.commit_index as int;
    if c > 0 {
        let (t, i) = choose|t: u64, i: int|
            t <= p.current_term && #[trigger] a.backing(n, p.log, c, t, i);
        let (u, j) = choose|u: u64, j: int|
            u <= q.current_term && #[trigger] b.backing(n, q.log, q.commit_index as int, u, j);
        committed_grows(a, b, n, t, i);
        if t < u {
            leaders_are_complete(b, after, t, i, u);
        } else if u < t {
            leaders_are_complete(b, after, u, j, t);
        }
        assert forall|k: int| 0 <= k < c implies #[trigger] p.committed()[k]
            == q.committed()[k] by {
            assert(p.log[k] == a.log(t)[k]);
            assert(a.log(t)[k] == b.log(t)[k]);
            assert(b.log(t)[k] == b.log(u)[k]);
            assert(q.log[k] == b.log(u)[k]);
        }
        assert(p.committed() =~= q.committed().subrange(0, c));
    } else {
        assert(p.committed() =~= q.committed().subrange(0, 0));
    }
}

// ---- Taking over a leader's entries ----

/// How far the entries overlap with the log, they have the same terms.
proof fn overlap_terms(log: Seq<LogEntry>, prev: int, entries: Seq<LogEntry>, k: int)
    requires
        0 <= prev <= log.len(),
        0 <= k <= entries.len(),
        prev + k <= log.len(),
    ensures
        ({
            let o = overlap(log, prev, entries, k);
            &&& k <= o <= entries.len()
            &&& prev + o <= log.len()
            &&& k < o ==> log[prev + o - 1].term == entries[o - 1].term
            &&& o < entries.len() && prev + o < log.len() ==> log[prev + o].term
                != entries[o].term
        }),
    decreases entries.len() - k,
{
    if k < entries.len() && prev + k < log.len() && log[prev + k].term == entries[k].term {
        overlap_terms(log, prev, entries, k + 1);
    }
}

/// A node that takes over entries of the leader of term `t` has the leader's log
/// up to the last of them, and loses nothing that the leader has.
proof fn merge_follows(
    h: History,
    n: nat,
    log: Seq<LogEntry>,
    t: u64,
    prev: int,
    entries: Seq<LogEntry>,
)
    requires
        h.sound(n),
        h.genuine(log),
        h.elected(t),
        0 <= prev <= log.len(),
        prev + entries.len() <= h.log(t).len(),
        forall|k: int| 0 <= k < entries.len() ==> #[trigger] entries[k] == h.log(t)[prev + k],
        prev > 0 ==> log[prev - 1].term == h.log(t)[prev - 1].term,
    ensures
        agree(merged(log, prev, entries), h.log(t), prev + entries.len()),
        h.genuine(merged(log, prev, entries)),
        forall|l: Seq<LogEntry>, i: int| #[trigger]
            agree(log, l, i) && agree(h.log(t), l, i) ==> agree(merged(log, prev, entries), l, i),
        merged(log, prev, entries) == log || agree(
            merged(log, prev, entries),
            h.log(t),
            merged(log, prev, entries).len() as int,
        ),
        log == h.log(t) ==> merged(log, prev, entries) == log,
{
    let p = h.log(t);
    let m = merged(log, prev, entries);
    let o = overlap(log, prev, entries, 0);
    assert(h.reign_ok(n, t));
    overlap_terms(log, prev, entries, 0);
    // The log and the leader's log agree as far as they overlap.
    if o > 0 {
        assert(entries[o - 1] == p[prev + o - 1]);
        logs_match(h, log, p, prev + o - 1);
    } else if prev > 0 {
        logs_match(h, log, p, prev - 1);
    }
    assert(agree(log, p, prev + o));
    if o < entries.len() {
        assert(entries[o] == p[prev + o]);
        assert(m == log.take(prev + o) + entries.skip(o));
        assert forall|k: int| #![trigger m[k]] 0 <= k < m.len() implies m[k] == p[k] by {
            if k < prev + o {
                assert(m[k] == log[k]);
            } else {
                assert(m[k] == entries[k - prev]);
            }
        }
        assert(agree(m, p, m.len() as int));
        assert forall|k: int| #![trigger m[k]] 0 <= k < m.len() implies h.elected(m[k].term)
            && agree(m, h.log(m[k].term), k + 1) by {
            let w = h.log(p[k].term);
            assert(m[k] == p[k]);
            assert(agree(p, w, k + 1));
            assert forall|j: int| #![trigger m[j]] 0 <= j < k + 1 implies m[j] == w[j] by {
                assert(p[j] == w[j]);
            }
        }
        assert forall|l: Seq<LogEntry>, i: int| #[trigger] agree(log, l, i) && agree(
            p,
            l,
            i,
        ) implies agree(m, l, i) by {
            let k = prev + o;
            if i > k {
                assert(log[k] == l[k] && p[k] == l[k]);
                assert(false);
            }
            assert forall|j: int| #![trigger m[j]] 0 <= j < i implies m[j] == l[j] by {
                assert(m[j] == log[j]);
            }
        }
    }
}

// ---- The steps of a node ----

proof fn grows_not(h: History, y: NodeId)
    ensures
        grows(h, h, y),
{
}

/// A log is never longer than the log of the leader of its last entry.
pub proof fn log_is_short(h: History, n: nat, log: Seq<LogEntry>)
    requires
        h.sound(n),
        h.genuine(log),
    ensures
        log.len() < usize::MAX,
{
    if log.len() > 0 {
        let t = log[log.len() - 1].term;
        assert(h.reign_ok(n, t));
        assert(agree(log, h.log(t), log.len() as int));
    }
}

/// What a node confirmed stays accounted for when the node enters a later term
/// with the same log.
proof fn acks_ok_later(h: History, x: NodeId, node: RaftState, after: RaftState)
    requires
        h.acks_ok(x, node),
        after.log == node.log,
        after.current_term >= node.current_term,
    ensures
        h.acks_ok(x, after),
{
    reveal(History::acks_ok);
    assert forall|t: u64, i: int| #[trigger] h.acked(x, t, i) implies h.ack_ok(
        x,
        after,
        t,
        i,
    ) by {
        assert(h.ack_ok(x, node, t, i));
        kept_later(
            h,
            node.log,
            t,
            i,
            node.current_term as int,
            after.current_term as int,
        );
    }
}

/// Seeing a term changes nothing that was promised before.
proof fn observing_holds(h: History, nodes: Seq<RaftState>, y: NodeId, term: u64)
    requires
        holds(h, nodes),
        y < nodes.len(),
    ensures
        holds(h, nodes.update(y as int, nodes[y as int].observed(term))),
{
    let n = nodes.len();
    let node = nodes[y as int];
    let after = node.observed(term);
    assert(h.node_ok(n, y, node));
    acks_ok_later(h, y, node, after);
    if node.commit_index != 0 {
        let (t, i) = choose|t: u64, i: int|
            t <= node.current_term && #[trigger] h.backing(
                n,
                node.log,
                node.commit_index as int,
                t,
                i,
            );
        assert(h.backing(n, after.log, after.commit_index as int, t, i));
    }
    grows_not(h, y);
    step_holds(h, h, nodes, y, after);
}

/// Nothing changes but the timer, whether the node is up, whom it follows, and
/// perhaps that it steps down.
spec fn same_promises(node: RaftState, after: RaftState) -> bool {
    &&& after.id == node.id
    &&& after.n_nodes == node.n_nodes
    &&& after.current_term == node.current_term
    &&& after.voted_for == node.voted_for
    &&& after.log == node.log
    &&& after.commit_index == node.commit_index
    &&& after.inject_match_index_bug == node.inject_match_index_bug
    &&& after.votes_received == node.votes_received
    &&& after.next_index == node.next_index
    &&& after.match_index == node.match_index
    &&& after.role == node.role || after.role == Role::Follower
}

proof fn idle_holds(h: History, nodes: Seq<RaftState>, y: NodeId, after: RaftState)
    requires
        holds(h, nodes),
        y < nodes.len(),
        same_promises(nodes[y as int], after),
    ensures
        holds(h, nodes.update(y as int, after)),
{
    let n = nodes.len();
    let node = nodes[y as int];
    assert(h.node_ok(n, y, node));
    acks_ok_later(h, y, node, after);
    grows_not(h, y);
    step_holds(h, h, nodes, y, after);
}

/// The history after node `y` with log `log` stood in term `t`.
spec fn stood(h: History, y: NodeId, t: u64, log: Seq<LogEntry>) -> History {
    History {
        runs: h.runs.insert((t, y), log),
        ballots: h.ballots.insert((t, y), Ballot { candidate: y, log }),
        ..h
    }
}

/// A node stands for election.
proof fn campaign_holds(h: History, nodes: Seq<RaftState>, y: NodeId) -> (g: History)
    requires
        holds(h, nodes),
        y < nodes.len(),
        nodes[y as int].current_term < u64::MAX,
        nodes[y as int].may_campaign(),
    ensures
        grows(h, g, y),
        holds(g, nodes.update(y as int, nodes[y as int].campaigning())),
        forall|to: NodeId| #[trigger]
            g.packet_ok(
                nodes.len(),
                Deliver { from: y, to, msg: nodes[y as int].campaigning().vote_request() },
            ),
{
    let n = nodes.len();
    let node = nodes[y as int];
    let after = node.campaigning();
    let t = after.current_term;
    let g = stood(h, y, t, node.log);
    assert(h.node_ok(n, y, node));
    log_is_short(h, n, node.log);
    assert(!h.runs.contains_key((t, y)));
    assert(!h.ballots.contains_key((t, y)));
    assert(grows(h, g, y));
    sound_grows(h, g, y, n);
    standing_grows(h, g, y, n, y, node);
    assert(g.run_ok(n, t, y));
    assert(g.ballot_ok(n, t, y));
    assert(g.sound(n)) by {
        assert forall|u: u64, c: NodeId| #[trigger] g.runs.contains_key((u, c)) implies g.run_ok(
            n,
            u,
            c,
        ) by {
            assert(h.runs.contains_key((u, c)) || (u, c) == (t, y));
        }
        assert forall|u: u64, v: NodeId| #[trigger]
            g.ballots.contains_key((u, v)) implies g.ballot_ok(n, u, v) by {
            assert(h.ballots.contains_key((u, v)) || (u, v) == (t, y));
        }
        assert forall|u: u64| #[trigger] g.elected(u) implies g.reign_ok(n, u) by {
            assert(h.elected(u));
        }
    }
    assert(g.votes_ok(y, after)) by {
        assert forall|u: u64| #[trigger] g.ballots.contains_key((u, y)) implies {
            &&& u <= after.current_term
            &&& u == after.current_term ==> after.voted_for == Some(g.ballots[(u, y)].candidate)
        } by {
            assert(h.ballots.contains_key((u, y)) || u == t);
        }
        assert forall|u: u64| #[trigger] g.runs.contains_key((u, y)) implies u
            <= after.current_term by {
            assert(h.runs.contains_key((u, y)) || u == t);
        }
        assert forall|u: u64| #[trigger] g.elected(u) && g.leader(u) == y implies u < t by {
            assert(h.elected(u));
        }
    }
    assert(g.candidate_ok(n, y, after)) by {
        assert forall|v: NodeId|
            v < n && #[trigger] after.votes_received[v as int] implies g.voted(t, v, y) by {
            assert(v == y);
        }
    }
    assert(g.acks_ok(y, node)) by {
        reveal(History::acks_ok);
        assert forall|u: u64, i: int| #[trigger] g.acked(y, u, i) implies g.ack_ok(
            y,
            node,
            u,
            i,
        ) by {
            assert(h.acked(y, u, i));
            ack_grows(h, g, y, n, y, node, u, i);
        }
    }
    acks_ok_later(g, y, node, after);
    if node.commit_index != 0 {
        let (u, i) = choose|u: u64, i: int|
            u <= node.current_term && #[trigger] g.backing(
                n,
                node.log,
                node.commit_index as int,
                u,
                i,
            );
        assert(g.backing(n, after.log, after.commit_index as int, u, i));
    }
    step_holds(h, g, nodes, y, after);
    g
}

/// The history after node `y` with log `log` voted in term `t`.
spec fn voting(h: History, y: NodeId, t: u64, candidate: NodeId, log: Seq<LogEntry>) -> History {
    History { ballots: h.ballots.insert((t, y), Ballot { candidate, log }), ..h }
}

/// A node that is in the candidate's term grants its vote.
proof fn grant_holds(
    h: History,
    nodes: Seq<RaftState>,
    y: NodeId,
    candidate: NodeId,
    last_log_index: usize,
    last_log_term: u64,
) -> (g: History)
    requires
        holds(h, nodes),
        y < nodes.len(),
        nodes[y as int].grants(
            nodes[y as int].current_term,
            candidate,
            last_log_index,
            last_log_term,
        ),
        h.runs.contains_key((nodes[y as int].current_term, candidate)),
        last_log_index == h.runs[(nodes[y as int].current_term, candidate)].len(),
        last_log_term == last_term(h.runs[(nodes[y as int].current_term, candidate)]),
    ensures
        grows(h, g, y),
        g.voted(nodes[y as int].current_term, y, candidate),
        holds(
            g,
            nodes.update(
                y as int,
                RaftState {
                    voted_for: Some(candidate),
                    election_timer: nodes[y as int].base_timeout,
                    ..nodes[y as int]
                },
            ),
        ),
{
    let n = nodes.len();
    let node = nodes[y as int];
    let after = RaftState {
        voted_for: Some(candidate),
        election_timer: node.base_timeout,
        ..node
    };
    let t = node.current_term;
    assert(h.node_ok(n, y, node));
    if node.voted_for is Some {
        grows_not(h, y);
        idle_holds(h, nodes, y, after);
        h
    } else {
        let g = voting(h, y, t, candidate, node.log);
        assert(!h.ballots.contains_key((t, y)));
        assert(grows(h, g, y));
        sound_grows(h, g, y, n);
        standing_grows(h, g, y, n, y, node);
        assert(g.ballot_ok(n, t, y));
        assert(g.sound(n)) by {
            assert forall|u: u64, c: NodeId| #[trigger]
                g.runs.contains_key((u, c)) implies g.run_ok(n, u, c) by {
                assert(h.runs.contains_key((u, c)));
            }
            assert forall|u: u64, v: NodeId| #[trigger]
                g.ballots.contains_key((u, v)) implies g.ballot_ok(n, u, v) by {
                assert(h.ballots.contains_key((u, v)) || (u, v) == (t, y));
            }
            assert forall|u: u64| #[trigger] g.elected(u) implies g.reign_ok(n, u) by {
                assert(h.elected(u));
            }
        }
        assert(g.votes_ok(y, after)) by {
            assert forall|u: u64| #[trigger] g.ballots.contains_key((u, y)) implies {
                &&& u <= t
                &&& u == t ==> after.voted_for == Some(g.ballots[(u, y)].candidate)
            } by {
                assert(h.ballots.contains_key((u, y)) || u == t);
            }
            assert forall|u: u64| #[trigger] g.runs.contains_key((u, y)) implies u <= t by {
                assert(h.runs.contains_key((u, y)));
            }
            assert forall|u: u64| #[trigger] g.elected(u) && g.leader(u) == y implies {
                &&& u <= t
                &&& u == t ==> after.role != Role::Candidate && after.log == g.log(u)
            } by {
                assert(h.elected(u));
            }
        }
        assert(g.acks_ok(y, after)) by {
            reveal(History::acks_ok);
            assert forall|u: u64, i: int| #[trigger] g.acked(y, u, i) implies g.ack_ok(
                y,
                after,
                u,
                i,
            ) by {
                assert(h.acked(y, u, i));
                ack_grows(h, g, y, n, y, node, u, i);
            }
        }
        assert(g.candidate_ok(n, y, after));
        assert(g.leader_ok(n, y, after));
        step_holds(h, g, nodes, y, after);
        g
    }
}

/// A node confirmed nothing to later leaders than that of its own term, and cast
/// no later vote.
proof fn no_later_votes(h: History, n: nat, x: NodeId, node: RaftState, u: u64)
    requires
        h.sound(n),
        x < n,
        h.votes_ok(x, node),
        u > node.current_term,
    ensures
        !h.ballots.contains_key((u, x)),
        h.elected(u) ==> !h.reigns[u].voters[x as int],
{
    if h.elected(u) && h.reigns[u].voters[x as int] {
        assert(h.reign_ok(n, u));
        assert(h.voted(u, x, h.leader(u)));
        assert(h.ballots.contains_key((u, x)));
    }
}

/// Nobody else won the term in which the candidate has a majority.
proof fn election_is_open(h: History, nodes: Seq<RaftState>, y: NodeId)
    requires
        holds(h, nodes),
        y < nodes.len(),
        nodes[y as int].role == Role::Candidate,
        tally(nodes[y as int].votes_received) >= nodes[y as int].majority(),
    ensures
        !h.elected(nodes[y as int].current_term),
{
    let n = nodes.len();
    let node = nodes[y as int];
    let t = node.current_term;
    assert(h.node_ok(n, y, node));
    if h.elected(t) {
        assert(h.reign_ok(n, t));
        let r = h.reigns[t];
        let v = majorities_intersect(node.votes_received, r.voters) as usize;
        assert(node.votes_received[v as int] && r.voters[v as int]);
        assert(h.voted(t, v, y));
        assert(h.voted(t, v, r.leader));
        assert(false);
    }
}

/// The history after node `y` won term `t`.
spec fn crowned(h: History, y: NodeId, t: u64, voters: Seq<bool>, log: Seq<LogEntry>) -> History {
    History {
        reigns: h.reigns.insert(t, Reign { leader: y, voters, log }),
        acks: h.acks.insert((t, y), log.len()),
        ..h
    }
}

/// A candidate with a majority becomes leader.
proof fn election_holds(h: History, nodes: Seq<RaftState>, y: NodeId) -> (g: History)
    requires
        holds(h, nodes),
        y < nodes.len(),
        nodes[y as int].role == Role::Candidate,
        tally(nodes[y as int].votes_received) >= nodes[y as int].majority(),
    ensures
        grows(h, g, y),
        holds(g, nodes.update(y as int, nodes[y as int].leading())),
{
    let n = nodes.len();
    let node = nodes[y as int];
    let after = node.leading();
    let t = node.current_term;
    let g = crowned(h, y, t, node.votes_received, node.log);
    assert(h.node_ok(n, y, node));
    election_is_open(h, nodes, y);
    log_is_short(h, n, node.log);
    assert(!h.acks.contains_key((t, y))) by {
        reveal(History::acks_ok);
        if h.acks.contains_key((t, y)) {
            assert(h.acked(y, t, 0));
            assert(h.ack_ok(y, node, t, 0));
        }
    }
    assert(grows(h, g, y));
    sound_grows(h, g, y, n);
    standing_grows(h, g, y, n, y, node);
    assert(g.reign_ok(n, t)) by {
        assert(h.runs.contains_key((t, y)));
    }
    assert(g.sound(n)) by {
        assert forall|u: u64, c: NodeId| #[trigger] g.runs.contains_key((u, c)) implies g.run_ok(
            n,
            u,
            c,
        ) by {
            assert(h.runs.contains_key((u, c)));
        }
        assert forall|u: u64, v: NodeId| #[trigger]
            g.ballots.contains_key((u, v)) implies g.ballot_ok(n, u, v) by {
            assert(h.ballots.contains_key((u, v)));
        }
        assert forall|u: u64| #[trigger] g.elected(u) implies g.reign_ok(n, u) by {
            assert(h.elected(u) || u == t);
        }
    }
    assert(g.votes_ok(y, after)) by {
        if node.voted_for is Some {
            assert(h.ballots.contains_key((t, y)));
        }
        assert forall|u: u64| #[trigger] g.elected(u) && g.leader(u) == y implies {
            &&& u <= t
            &&& u == t ==> after.role != Role::Candidate && after.log == g.log(u)
        } by {
            assert(h.elected(u) || u == t);
        }
        assert forall|u: u64| #[trigger] g.ballots.contains_key((u, y)) implies {
            &&& u <= t
            &&& u == t ==> after.voted_for == Some(g.ballots[(u, y)].candidate)
        } by {
            assert(h.ballots.contains_key((u, y)));
        }
        assert forall|u: u64| #[trigger] g.runs.contains_key((u, y)) implies u <= t by {
            assert(h.runs.contains_key((u, y)));
        }
    }
    assert(g.leader_ok(n, y, after)) by {
        assert forall|p: NodeId| p < n && #[trigger] after.match_index[p as int]
            > 0 implies g.acked(p, t, after.match_index[p as int] as int) by {
            assert(p == y);
        }
    }
    assert(g.acks_ok(y, after)) by {
        reveal(History::acks_ok);
        assert forall|u: u64, i: int| #[trigger] g.acked(y, u, i) implies g.ack_ok(
            y,
            after,
            u,
            i,
        ) by {
            if u == t {
                assert forall|w: u64| #[trigger]
                    g.ballots.contains_key((w, y)) && t < w implies false by {
                    no_later_votes(g, n, y, after, w);
                }
                assert forall|w: u64| #[trigger]
                    g.elected(w) && t < w && g.reigns[w].voters[y as int] implies false by {
                    no_later_votes(g, n, y, after, w);
                }
                assert(agree(after.log, g.log(t), i));
            } else {
                assert(h.acked(y, u, i));
                ack_grows(h, g, y, n, y, node, u, i);
            }
        }
    }
    step_holds(h, g, nodes, y, after);
    g
}

/// A candidate counts a vote that it got.
proof fn vote_holds(h: History, nodes: Seq<RaftState>, y: NodeId, from: NodeId) -> (g: History)
    requires
        holds(h, nodes),
        y < nodes.len(),
        from < nodes.len(),
        nodes[y as int].role == Role::Candidate,
        h.voted(nodes[y as int].current_term, from, y),
    ensures
        grows(h, g, y),
        ({
            let node = nodes[y as int].with_vote(from);
            holds(
                g,
                nodes.update(
                    y as int,
                    if tally(node.votes_received) >= node.majority() {
                        node.leading()
                    } else {
                        node
                    },
                ),
            )
        }),
{
    let n = nodes.len();
    let node = nodes[y as int];
    let after = node.with_vote(from);
    let mid = nodes.update(y as int, after);
    assert(h.node_ok(n, y, node));
    assert(h.candidate_ok(n, y, after)) by {
        assert forall|v: NodeId|
            v < n && #[trigger] after.votes_received[v as int] implies h.voted(
            node.current_term,
            v,
            y,
        ) by {
            assert(v == from || node.votes_received[v as int]);
        }
    }
    acks_ok_later(h, y, node, after);
    grows_not(h, y);
    step_holds(h, h, nodes, y, after);
    if tally(after.votes_received) >= after.majority() {
        let g = election_holds(h, mid, y);
        assert(mid.update(y as int, after.leading()) =~= nodes.update(y as int, after.leading()));
        g
    } else {
        h
    }
}

/// The history after node `y` confirmed the first `i` entries of the leader of
/// term `t`.
spec fn confirmed(h: History, y: NodeId, t: u64, i: nat) -> History {
    let most = if h.acks.contains_key((t, y)) && h.acks[(t, y)] > i {
        h.acks[(t, y)]
    } else {
        i
    };
    History { acks: h.acks.insert((t, y), most), ..h }
}

/// A confirmation adds nothing to a history but itself.
proof fn confirming_grows(h: History, n: nat, y: NodeId, t: u64, i: nat)
    requires
        h.sound(n),
    ensures
        grows(h, confirmed(h, y, t, i), y),
        confirmed(h, y, t, i).sound(n),
        confirmed(h, y, t, i).acked(y, t, i as int),
{
    let g = confirmed(h, y, t, i);
    assert(grows(h, g, y));
    sound_grows(h, g, y, n);
    assert forall|u: u64, c: NodeId| #[trigger] g.runs.contains_key((u, c)) implies g.run_ok(
        n,
        u,
        c,
    ) by {
        assert(h.runs.contains_key((u, c)));
    }
    assert forall|u: u64, v: NodeId| #[trigger]
        g.ballots.contains_key((u, v)) implies g.ballot_ok(n, u, v) by {
        assert(h.ballots.contains_key((u, v)));
    }
    assert forall|u: u64| #[trigger] g.elected(u) implies g.reign_ok(n, u) by {
        assert(h.elected(u));
    }
}

/// What a node has confirmed after it confirmed more to the leader of its term.
proof fn confirming_acks(
    h: History,
    n: nat,
    y: NodeId,
    node: RaftState,
    after: RaftState,
    i: nat,
)
    requires
        h.sound(n),
        y < n,
        h.node_ok(n, y, node),
        after.current_term == node.current_term,
        h.elected(node.current_term),
        agree(after.log, h.log(node.current_term), i as int),
        forall|t: u64, j: int| #[trigger]
            h.acked(y, t, j) ==> h.kept(after.log, t, j, node.current_term as int),
    ensures
        confirmed(h, y, node.current_term, i).acks_ok(y, after),
{
    let t = node.current_term;
    let g = confirmed(h, y, t, i);
    confirming_grows(h, n, y, t, i);
    reveal(History::acks_ok);
    assert forall|u: u64, j: int| #[trigger] g.acked(y, u, j) implies g.ack_ok(
        y,
        after,
        u,
        j,
    ) by {
        if h.acked(y, u, j) {
            assert(h.ack_ok(y, node, u, j));
            ack_grows(h, g, y, n, y, node, u, j);
            kept_grows(h, g, y, n, after.log, u, j, t as int);
        } else {
            assert(u == t && j <= i);
            assert forall|w: u64| #[trigger]
                g.ballots.contains_key((w, y)) && t < w implies false by {
                no_later_votes(h, n, y, node, w);
            }
            assert forall|w: u64| #[trigger]
                g.elected(w) && t < w && g.reigns[w].voters[y as int] implies false by {
                assert(h.elected(w));
                no_later_votes(h, n, y, node, w);
            }
            assert(agree(after.log, g.log(t), j));
        }
    }
}

/// The log that a node has after it took over the leader's entries still has all
/// that the node ever confirmed, or a later leader lacks it.
proof fn merge_keeps_acks(
    h: History,
    n: nat,
    y: NodeId,
    node: RaftState,
    prev: int,
    entries: Seq<LogEntry>,
    u: u64,
    j: int,
)
    requires
        h.sound(n),
        h.node_ok(n, y, node),
        h.elected(node.current_term),
        0 <= prev <= node.log.len(),
        prev + entries.len() <= h.log(node.current_term).len(),
        forall|k: int|
            0 <= k < entries.len() ==> #[trigger] entries[k] == h.log(node.current_term)[prev + k],
        prev > 0 ==> node.log[prev - 1].term == h.log(node.current_term)[prev - 1].term,
        h.acked(y, u, j),
    ensures
        h.kept(merged(node.log, prev, entries), u, j, node.current_term as int),
{
    let t = node.current_term;
    merge_follows(h, n, node.log, t, prev, entries);
    assert(h.ack_ok(y, node, u, j)) by {
        reveal(History::acks_ok);
    }
    if !h.overtaken(u, j, t as int) {
        assert(agree(node.log, h.log(u), j));
        if u < t {
            assert(agree(h.log(t), h.log(u), j));
        }
    }
}

/// The commit index that a node has after it took over the leader's entries is
/// accounted for.
proof fn append_is_backed(
    h: History,
    nodes: Seq<RaftState>,
    y: NodeId,
    prev: int,
    entries: Seq<LogEntry>,
    leader_commit: int,
    commit: int,
)
    requires
        holds(h, nodes),
        y < nodes.len(),
        ({
            let node = nodes[y as int];
            let t = node.current_term;
            &&& h.elected(t)
            &&& 0 <= prev <= node.log.len()
            &&& prev + entries.len() <= h.log(t).len()
            &&& forall|k: int|
                0 <= k < entries.len() ==> #[trigger] entries[k] == h.log(t)[prev + k]
            &&& prev > 0 ==> node.log[prev - 1].term == h.log(t)[prev - 1].term
            &&& h.backed(nodes.len(), h.log(t), leader_commit, t as int)
            &&& commit == node.commit_index || (0 <= commit <= leader_commit && commit <= prev
                + entries.len())
        }),
    ensures
        h.backed(
            nodes.len(),
            merged(nodes[y as int].log, prev, entries),
            commit,
            nodes[y as int].current_term as int,
        ),
{
    let n = nodes.len();
    let node = nodes[y as int];
    let t = node.current_term;
    let m = merged(node.log, prev, entries);
    assert(h.node_ok(n, y, node));
    merge_follows(h, n, node.log, t, prev, entries);
    if commit != 0 {
        if commit == node.commit_index {
            let (u, i) = choose|u: u64, i: int|
                u <= t && #[trigger] h.backing(n, node.log, commit, u, i);
            if u < t {
                leaders_are_complete(h, nodes, u, i, t);
            }
            assert(agree(h.log(t), h.log(u), commit));
            assert(agree(m, h.log(u), commit));
            assert(h.backing(n, m, commit, u, i));
        } else {
            let (u, i) = choose|u: u64, i: int|
                u <= t && #[trigger] h.backing(n, h.log(t), leader_commit, u, i);
            assert forall|k: int| #![trigger m[k]] 0 <= k < commit implies m[k] == h.log(
                u,
            )[k] by {
                assert(m[k] == h.log(t)[k]);
            }
            assert(h.backing(n, m, commit, u, i));
        }
    }
}

/// A node takes over entries of the leader of its term, and confirms them.
proof fn append_holds(
    h: History,
    nodes: Seq<RaftState>,
    y: NodeId,
    leader: NodeId,
    prev: int,
    entries: Seq<LogEntry>,
    leader_commit: int,
    commit: usize,
) -> (g: History)
    requires
        holds(h, nodes),
        y < nodes.len(),
        ({
            let node = nodes[y as int];
            let t = node.current_term;
            &&& h.elected(t)
            &&& 0 <= prev <= node.log.len()
            &&& prev + entries.len() <= h.log(t).len()
            &&& forall|k: int|
                0 <= k < entries.len() ==> #[trigger] entries[k] == h.log(t)[prev + k]
            &&& prev > 0 ==> node.log[prev - 1].term == h.log(t)[prev - 1].term
            &&& h.backed(nodes.len(), h.log(t), leader_commit, t as int)
            &&& commit == node.commit_index || (0 <= commit <= leader_commit && commit <= prev
                + entries.len())
        }),
    ensures
        grows(h, g, y),
        g.acked(y, nodes[y as int].current_term, prev + entries.len()),
        holds(
            g,
            nodes.update(
                y as int,
                RaftState {
                    log: merged(nodes[y as int].log, prev, entries),
                    commit_index: commit,
                    ..nodes[y as int].following(leader)
                },
            ),
        ),
{
    let n = nodes.len();
    let node = nodes[y as int];
    let t = node.current_term;
    let m = merged(node.log, prev, entries);
    let after = RaftState { log: m, commit_index: commit, ..node.following(leader) };
    let i = (prev + entries.len()) as nat;
    let g = confirmed(h, y, t, i);
    assert(h.node_ok(n, y, node));
    merge_follows(h, n, node.log, t, prev, entries);
    append_is_backed(h, nodes, y, prev, entries, leader_commit, commit as int);
    confirming_grows(h, n, y, t, i);
    assert forall|u: u64, j: int| #[trigger] h.acked(y, u, j) implies h.kept(
        m,
        u,
        j,
        t as int,
    ) by {
        merge_keeps_acks(h, n, y, node, prev, entries, u, j);
    }
    confirming_acks(h, n, y, node, after, i);
    genuine_grows(h, g, y, m);
    backed_grows(h, g, y, n, m, commit as int, t as int);
    assert(terms_up_to(m, t as int)) by {
        reign_terms(h, n, t);
        assert forall|k: int| 0 <= k < m.len() implies (#[trigger] m[k]).term <= t by {
            if m != node.log {
                assert(m[k] == h.log(t)[k]);
            }
        }
    }
    assert(g.votes_ok(y, after)) by {
        assert forall|u: u64| #[trigger] g.elected(u) && g.leader(u) == y implies {
            &&& u <= t
            &&& u == t ==> after.role != Role::Candidate && after.log == g.log(u)
        } by {
            assert(h.elected(u));
        }
        assert forall|u: u64| #[trigger] g.ballots.contains_key((u, y)) implies {
            &&& u <= t
            &&& u == t ==> after.voted_for == Some(g.ballots[(u, y)].candidate)
        } by {
            assert(h.ballots.contains_key((u, y)));
        }
        assert forall|u: u64| #[trigger] g.runs.contains_key((u, y)) implies u <= t by {
            assert(h.runs.contains_key((u, y)));
        }
    }
    step_holds(h, g, nodes, y, after);
    g
}

/// The commit index of a leader only moves to an index that it can commit.
proof fn highest_commit_is(node: RaftState, hi: int)
    ensures
        ({
            let c = node.highest_commit(hi);
            c == node.commit_index || (node.commit_index < c <= hi && node.can_commit(c))
        }),
    decreases hi - node.commit_index,
{
    if hi > node.commit_index && !node.can_commit(hi) {
        highest_commit_is(node, hi - 1);
    }
}

/// A leader learns that a node confirmed its log up to `i`, and commits what it
/// can.
proof fn progress_holds(
    h: History,
    nodes: Seq<RaftState>,
    y: NodeId,
    from: NodeId,
    i: usize,
) -> (g: History)
    requires
        holds(h, nodes),
        y < nodes.len(),
        from < nodes.len(),
        nodes[y as int].role == Role::Leader,
        h.acked(from, nodes[y as int].current_term, i as int),
    ensures
        grows(h, g, y),
        holds(
            g,
            nodes.update(
                y as int,
                RaftState {
                    match_index: nodes[y as int].match_index.update(from as int, i),
                    next_index: nodes[y as int].next_index.update(from as int, (i + 1) as usize),
                    ..nodes[y as int]
                }.commit_advanced(),
            ),
        ),
{
    let n = nodes.len();
    let node = nodes[y as int];
    let t = node.current_term;
    let len = node.log.len();
    let told = RaftState {
        match_index: node.match_index.update(from as int, i),
        next_index: node.next_index.update(from as int, (i + 1) as usize),
        ..node
    };
    let counted = RaftState {
        match_index: told.match_index.update(y as int, len as usize),
        ..told
    };
    let after = told.commit_advanced();
    let g = confirmed(h, y, t, len);
    assert(h.node_ok(n, y, node));
    assert(h.elected(t) && node.log == h.log(t));
    log_is_short(h, n, node.log);
    assert(i <= len) by {
        assert(h.node_ok(n, from, nodes[from as int]));
        reveal(History::acks_ok);
        assert(h.ack_ok(from, nodes[from as int], t, i as int));
    }
    confirming_grows(h, n, y, t, len);
    standing_grows(h, g, y, n, y, node);
    assert forall|u: u64, j: int| #[trigger] h.acked(y, u, j) implies h.kept(
        after.log,
        u,
        j,
        t as int,
    ) by {
        reveal(History::acks_ok);
        assert(h.ack_ok(y, node, u, j));
    }
    confirming_acks(h, n, y, node, after, len);
    assert forall|p: NodeId| p < n && #[trigger] counted.match_index[p as int] > 0 implies g.acked(
        p,
        t,
        counted.match_index[p as int] as int,
    ) by {
        if p != y {
            if p == from {
                assert(h.acks.contains_key((t, p)));
            } else {
                assert(counted.match_index[p as int] == node.match_index[p as int]);
            }
        }
    }
    assert(after.wf()) by {
        assert forall|p: int| 0 <= p < n implies #[trigger] after.next_index[p] >= 1 by {
            assert(p == from || after.next_index[p] == node.next_index[p]);
        }
    }
    assert(g.leader_ok(n, y, after)) by {
        assert forall|p: NodeId| p < n implies #[trigger] after.next_index[p as int] <= len + 1 by {
            assert(p == from || after.next_index[p as int] == node.next_index[p as int]);
        }
    }
    highest_commit_is(counted, len as int);
    let c = counted.highest_commit(len as int);
    assert(after.commit_index == c);
    assert(g.backed(n, after.log, c, t as int)) by {
        if c != node.commit_index {
            let q = holders(counted.match_index, c);
            assert forall|v: NodeId| v < n && #[trigger] q[v as int] implies g.acked(
                v,
                t,
                c,
            ) by {
                assert(counted.match_index[v as int] >= c);
            }
            assert(g.quorum(n, t, c, q));
            assert(g.committed(n, t, c));
            assert(g.backing(n, after.log, c, t, c));
        }
    }
    assert(g.votes_ok(y, after)) by {
        assert forall|u: u64| #[trigger] g.elected(u) && g.leader(u) == y implies {
            &&& u <= t
            &&& u == t ==> after.role != Role::Candidate && after.log == g.log(u)
        } by {
            assert(h.elected(u));
        }
        assert forall|u: u64| #[trigger] g.ballots.contains_key((u, y)) implies {
            &&& u <= t
            &&& u == t ==> after.voted_for == Some(g.ballots[(u, y)].candidate)
        } by {
            assert(h.ballots.contains_key((u, y)));
        }
        assert forall|u: u64| #[trigger] g.runs.contains_key((u, y)) implies u <= t by {
            assert(h.runs.contains_key((u, y)));
        }
    }
    step_holds(h, g, nodes, y, after);
    g
}

/// A leader backs up after a node refused its request.
proof fn backing_up_holds(h: History, nodes: Seq<RaftState>, y: NodeId, from: NodeId)
    requires
        holds(h, nodes),
        y < nodes.len(),
        from < nodes.len(),
        nodes[y as int].role == Role::Leader,
        nodes[y as int].next_index[from as int] > 1,
    ensures
        holds(
            h,
            nodes.update(
                y as int,
                RaftState {
                    next_index: nodes[y as int].next_index.update(
                        from as int,
                        (nodes[y as int].next_index[from as int] - 1) as usize,
                    ),
                    ..nodes[y as int]
                },
            ),
        ),
{
    let n = nodes.len();
    let node = nodes[y as int];
    let after = RaftState {
        next_index: node.next_index.update(
            from as int,
            (node.next_index[from as int] - 1) as usize,
        ),
        ..node
    };
    assert(h.node_ok(n, y, node));
    assert(after.wf()) by {
        assert forall|p: int| 0 <= p < n implies #[trigger] after.next_index[p] >= 1 by {
            assert(p == from || after.next_index[p] == node.next_index[p]);
        }
    }
    assert(h.leader_ok(n, y, after)) by {
        assert forall|p: NodeId| p < n implies #[trigger] after.next_index[p as int]
            <= node.log.len() + 1 by {
            assert(node.next_index[p as int] <= node.log.len() + 1);
            assert(p == from || after.next_index[p as int] == node.next_index[p as int]);
        }
    }
    acks_ok_later(h, y, node, after);
    grows_not(h, y);
    step_holds(h, h, nodes, y, after);
}

/// What a leader sends is true.
pub proof fn heartbeat_holds(h: History, nodes: Seq<RaftState>, y: NodeId, p: NodeId)
    requires
        holds(h, nodes),
        y < nodes.len(),
        p < nodes.len(),
        nodes[y as int].role == Role::Leader,
    ensures
        h.packet_ok(nodes.len(), Deliver { from: y, to: p, msg: nodes[y as int].append_for(p) }),
{
    let n = nodes.len();
    let node = nodes[y as int];
    assert(h.node_ok(n, y, node));
    assert(h.elected(node.current_term) && node.log == h.log(node.current_term));
    assert(1 <= node.next_index[p as int] <= node.log.len() + 1);
}

/// The history after the leader of term `t` appended an entry.
spec fn extended(h: History, t: u64, e: LogEntry) -> History {
    let r = h.reigns[t];
    History { reigns: h.reigns.insert(t, Reign { log: r.log.push(e), ..r }), ..h }
}

/// A leader appends a command.
pub proof fn command_holds(h: History, nodes: Seq<RaftState>, y: NodeId, command: u64) -> (g:
    History)
    requires
        holds(h, nodes),
        y < nodes.len(),
        nodes[y as int].leads(),
        nodes[y as int].log.len() + 1 < usize::MAX,
    ensures
        grows(h, g, y),
        holds(g, nodes.update(y as int, nodes[y as int].commanded(command))),
{
    let n = nodes.len();
    let node = nodes[y as int];
    let t = node.current_term;
    let e = LogEntry { term: t, command };
    let after = node.commanded(command);
    let g = extended(h, t, e);
    assert(h.node_ok(n, y, node));
    assert(h.elected(t) && node.log == h.log(t));
    assert(h.reign_ok(n, t));
    assert(grows(h, g, y));
    sound_grows(h, g, y, n);
    standing_grows(h, g, y, n, y, node);
    assert(g.genuine(after.log)) by {
        assert forall|k: int| #![trigger after.log[k]] 0 <= k < after.log.len() implies g.elected(
            after.log[k].term,
        ) && agree(after.log, g.log(after.log[k].term), k + 1) by {
            if k < node.log.len() {
                let l = g.log(node.log[k].term);
                assert(after.log[k] == node.log[k]);
                assert(agree(node.log, l, k + 1));
                assert forall|j: int| #![trigger after.log[j]] 0 <= j < k
                    + 1 implies after.log[j] == l[j] by {
                    assert(node.log[j] == l[j]);
                }
            } else {
                assert(g.log(t) == after.log);
            }
        }
    }
    assert(g.reign_ok(n, t)) by {
        let r = g.reigns[t];
        let start = g.runs[(t, r.leader)];
        assert(h.runs.contains_key((t, r.leader)));
        assert(agree(r.log, start, start.len() as int)) by {
            assert forall|k: int| #![trigger r.log[k]] 0 <= k < start.len() implies r.log[k]
                == start[k] by {
                assert(h.log(t)[k] == start[k]);
            }
        }
        assert forall|k: int| start.len() <= k < r.log.len() implies (#[trigger] r.log[k]).term
            == t by {
            if k < h.log(t).len() {
                assert(h.log(t)[k].term == t);
            }
        }
    }
    assert(g.sound(n)) by {
        assert forall|u: u64, c: NodeId| #[trigger] g.runs.contains_key((u, c)) implies g.run_ok(
            n,
            u,
            c,
        ) by {
            assert(h.runs.contains_key((u, c)));
        }
        assert forall|u: u64, v: NodeId| #[trigger]
            g.ballots.contains_key((u, v)) implies g.ballot_ok(n, u, v) by {
            assert(h.ballots.contains_key((u, v)));
        }
        assert forall|u: u64| #[trigger] g.elected(u) implies g.reign_ok(n, u) by {
            assert(h.elected(u));
        }
    }
    assert(g.votes_ok(y, after)) by {
        assert forall|u: u64| #[trigger] g.elected(u) && g.leader(u) == y implies {
            &&& u <= t
            &&& u == t ==> after.role != Role::Candidate && after.log == g.log(u)
        } by {
            assert(h.elected(u));
        }
        assert forall|u: u64| #[trigger] g.ballots.contains_key((u, y)) implies {
            &&& u <= t
            &&& u == t ==> after.voted_for == Some(g.ballots[(u, y)].candidate)
        } by {
            assert(h.ballots.contains_key((u, y)));
        }
        assert forall|u: u64| #[trigger] g.runs.contains_key((u, y)) implies u <= t by {
            assert(h.runs.contains_key((u, y)));
        }
    }
    assert(g.leader_ok(n, y, after)) by {
        assert forall|p: NodeId| p < n implies #[trigger] after.next_index[p as int]
            <= after.log.len() + 1 by {
            assert(node.next_index[p as int] <= node.log.len() + 1);
        }
        assert forall|p: NodeId| p < n && #[trigger] after.match_index[p as int]
            > 0 implies g.acked(p, t, after.match_index[p as int] as int) by {
            assert(node.match_index[p as int] > 0);
        }
    }
    assert(g.acks_ok(y, after)) by {
        reveal(History::acks_ok);
        assert forall|u: u64, i: int| #[trigger] g.acked(y, u, i) implies g.ack_ok(
            y,
            after,
            u,
            i,
        ) by {
            assert(h.acked(y, u, i));
            ack_grows(h, g, y, n, y, node, u, i);
            if agree(node.log, g.log(u), i) {
                assert forall|k: int| #![trigger after.log[k]] 0 <= k < i implies after.log[k]
                    == g.log(u)[k] by {
                    assert(node.log[k] == g.log(u)[k]);
                }
                assert(agree(after.log, g.log(u), i));
            }
        }
    }
    backed_by_longer(
        g,
        n,
        node.log,
        after.log,
        node.commit_index as int,
        t as int,
    );
    step_holds(h, g, nodes, y, after);
    g
}

/// The replies to a message, as packets from node `y`, are in order.
spec fn replies_ok(h: History, n: nat, y: NodeId, replies: Seq<(NodeId, Rpc)>) -> bool {
    forall|k: int|
        0 <= k < replies.len() ==> h.packet_ok(
            n,
            Deliver { from: y, to: (#[trigger] replies[k]).0, msg: replies[k].1 },
        )
}

proof fn request_vote_holds(
    h: History,
    nodes: Seq<RaftState>,
    y: NodeId,
    from: NodeId,
    term: u64,
    candidate: NodeId,
    last_log_index: usize,
    last_log_term: u64,
) -> (g: History)
    requires
        holds(h, nodes),
        y < nodes.len(),
        h.packet_ok(
            nodes.len(),
            Deliver {
                from,
                to: y,
                msg: Rpc::RequestVote { term, candidate, last_log_index, last_log_term },
            },
        ),
    ensures
        grows(h, g, y),
        ({
            let (node, replies) = nodes[y as int].on_request_vote(
                from,
                term,
                candidate,
                last_log_index,
                last_log_term,
            );
            &&& holds(g, nodes.update(y as int, node))
            &&& replies_ok(g, nodes.len(), y, replies)
        }),
{
    let n = nodes.len();
    let s = nodes[y as int].observed(term);
    let mid = nodes.update(y as int, s);
    observing_holds(h, nodes, y, term);
    grows_not(h, y);
    let (node, replies) = nodes[y as int].on_request_vote(
        from,
        term,
        candidate,
        last_log_index,
        last_log_term,
    );
    assert(mid.update(y as int, node) =~= nodes.update(y as int, node));
    if s.grants(term, candidate, last_log_index, last_log_term) {
        let g = grant_holds(h, mid, y, candidate, last_log_index, last_log_term);
        assert(replies_ok(g, n, y, replies));
        g
    } else {
        assert(replies_ok(h, n, y, replies));
        h
    }
}

proof fn vote_reply_holds(
    h: History,
    nodes: Seq<RaftState>,
    y: NodeId,
    from: NodeId,
    term: u64,
    granted: bool,
) -> (g: History)
    requires
        holds(h, nodes),
        y < nodes.len(),
        h.packet_ok(
            nodes.len(),
            Deliver { from, to: y, msg: Rpc::RequestVoteReply { term, granted } },
        ),
    ensures
        grows(h, g, y),
        holds(g, nodes.update(y as int, nodes[y as int].on_vote_reply(from, term, granted).0)),
{
    let s = nodes[y as int].observed(term);
    let mid = nodes.update(y as int, s);
    observing_holds(h, nodes, y, term);
    grows_not(h, y);
    let node = nodes[y as int].on_vote_reply(from, term, granted).0;
    assert(mid.update(y as int, node) =~= nodes.update(y as int, node));
    if s.counts_vote(term, granted) {
        vote_holds(h, mid, y, from)
    } else {
        h
    }
}

proof fn append_request_holds(
    h: History,
    nodes: Seq<RaftState>,
    y: NodeId,
    from: NodeId,
    term: u64,
    leader: NodeId,
    prev_log_index: usize,
    prev_log_term: u64,
    entries: Seq<LogEntry>,
    leader_commit: usize,
) -> (g: History)
    requires
        holds(h, nodes),
        y < nodes.len(),
        h.packet_ok(
            nodes.len(),
            Deliver {
                from,
                to: y,
                msg: Rpc::AppendEntries {
                    term,
                    leader,
                    prev_log_index,
                    prev_log_term,
                    entries,
                    leader_commit,
                },
            },
        ),
    ensures
        grows(h, g, y),
        ({
            let (node, replies) = nodes[y as int].on_append(
                from,
                term,
                leader,
                prev_log_index,
                prev_log_term,
                entries,
                leader_commit,
            );
            &&& holds(g, nodes.update(y as int, node))
            &&& replies_ok(g, nodes.len(), y, replies)
        }),
{
    let n = nodes.len();
    let s = nodes[y as int].observed(term);
    let mid = nodes.update(y as int, s);
    observing_holds(h, nodes, y, term);
    grows_not(h, y);
    let (node, replies) = nodes[y as int].on_append(
        from,
        term,
        leader,
        prev_log_index,
        prev_log_term,
        entries,
        leader_commit,
    );
    assert(mid.update(y as int, node) =~= nodes.update(y as int, node));
    if term < s.current_term {
        assert(replies_ok(h, n, y, replies));
        h
    } else {
        let f = s.following(leader);
        if !f.matches_at(prev_log_index, prev_log_term) {
            idle_holds(h, mid, y, f);
            assert(replies_ok(h, n, y, replies));
            h
        } else {
            assert(h.reign_ok(n, term));
            assert(h.node_ok(n, y, mid[y as int]));
            let g = append_holds(
                h,
                mid,
                y,
                leader,
                prev_log_index as int,
                entries,
                leader_commit as int,
                node.commit_index,
            );
            assert(replies_ok(g, n, y, replies));
            g
        }
    }
}

proof fn append_reply_holds(
    h: History,
    nodes: Seq<RaftState>,
    y: NodeId,
    from: NodeId,
    term: u64,
    success: bool,
    match_index: usize,
) -> (g: History)
    requires
        holds(h, nodes),
        y < nodes.len(),
        h.packet_ok(
            nodes.len(),
            Deliver { from, to: y, msg: Rpc::AppendEntriesReply { term, success, match_index } },
        ),
    ensures
        grows(h, g, y),
        holds(
            g,
            nodes.update(
                y as int,
                nodes[y as int].on_append_reply(from, term, success, match_index).0,
            ),
        ),
{
    let s = nodes[y as int].observed(term);
    let mid = nodes.update(y as int, s);
    observing_holds(h, nodes, y, term);
    grows_not(h, y);
    let node = nodes[y as int].on_append_reply(from, term, success, match_index).0;
    assert(mid.update(y as int, node) =~= nodes.update(y as int, node));
    assert(h.node_ok(nodes.len(), y, mid[y as int]));
    if s.role != Role::Leader || term != s.current_term {
        h
    } else if success {
        progress_holds(h, mid, y, from, match_index)
    } else {
        if s.next_index[from as int] > 1 {
            backing_up_holds(h, mid, y, from);
        }
        h
    }
}

/// Handling a message keeps the invariant, and what is replied is true.
pub proof fn handling_holds(
    h: History,
    nodes: Seq<RaftState>,
    y: NodeId,
    from: NodeId,
    msg: Rpc,
) -> (g: History)
    requires
        holds(h, nodes),
        y < nodes.len(),
        h.packet_ok(nodes.len(), Deliver { from, to: y, msg }),
    ensures
        grows(h, g, y),
        holds(g, nodes.update(y as int, nodes[y as int].handled(from, msg).0)),
        forall|k: int|
            0 <= k < nodes[y as int].handled(from, msg).1.len() ==> g.packet_ok(
                nodes.len(),
                Deliver {
                    from: y,
                    to: (#[trigger] nodes[y as int].handled(from, msg).1[k]).0,
                    msg: nodes[y as int].handled(from, msg).1[k].1,
                },
            ),
{
    let node = nodes[y as int];
    grows_not(h, y);
    if node.crashed {
        assert(nodes.update(y as int, node) =~= nodes);
        h
    } else {
        match msg {
            Rpc::RequestVote { term, candidate, last_log_index, last_log_term } => {
                request_vote_holds(
                    h,
                    nodes,
                    y,
                    from,
                    term,
                    candidate,
                    last_log_index,
                    last_log_term,
                )
            },
            Rpc::RequestVoteReply { term, granted } => vote_reply_holds(
                h,
                nodes,
                y,
                from,
                term,
                granted,
            ),
            Rpc::AppendEntries {
                term,
                leader,
                prev_log_index,
                prev_log_term,
                entries,
                leader_commit,
            } => append_request_holds(
                h,
                nodes,
                y,
                from,
                term,
                leader,
                prev_log_index,
                prev_log_term,
                entries,
                leader_commit,
            ),
            Rpc::AppendEntriesReply { term, success, match_index } => append_reply_holds(
                h,
                nodes,
                y,
                from,
                term,
                success,
                match_index,
            ),
        }
    }
}

/// The election timer of a node keeps the invariant, and what a candidate sends is
/// true.
pub proof fn timer_holds(h: History, nodes: Seq<RaftState>, y: NodeId) -> (g: History)
    requires
        holds(h, nodes),
        y < nodes.len(),
        nodes[y as int].current_term < u64::MAX,
    ensures
        grows(h, g, y),
        ({
            let node = nodes[y as int].ticked();
            if nodes[y as int].times_out() {
                &&& holds(g, nodes.update(y as int, node.campaigning()))
                &&& forall|to: NodeId| #[trigger]
                    g.packet_ok(
                        nodes.len(),
                        Deliver { from: y, to, msg: node.campaigning().vote_request() },
                    )
            } else {
                holds(g, nodes.update(y as int, node))
            }
        }),
{
    let node = nodes[y as int].ticked();
    let mid = nodes.update(y as int, node);
    idle_holds(h, nodes, y, node);
    grows_not(h, y);
    if nodes[y as int].times_out() {
        assert(mid.update(y as int, node.campaigning()) =~= nodes.update(
            y as int,
            node.campaigning(),
        ));
        campaign_holds(h, mid, y)
    } else {
        h
    }
}

/// A crash keeps the invariant.
pub proof fn crash_holds(h: History, nodes: Seq<RaftState>, y: NodeId)
    requires
        holds(h, nodes),
        y < nodes.len(),
    ensures
        holds(h, nodes.update(y as int, nodes[y as int].crash_set())),
{
    idle_holds(h, nodes, y, nodes[y as int].crash_set());
}

/// A restart keeps the invariant.
pub proof fn restart_holds(h: History, nodes: Seq<RaftState>, y: NodeId)
    requires
        holds(h, nodes),
        y < nodes.len(),
    ensures
        holds(h, nodes.update(y as int, nodes[y as int].restarted())),
{
    idle_holds(h, nodes, y, nodes[y as int].restarted());
}

/// A cluster of new nodes satisfies the invariant, whatever their timeouts are.
pub proof fn start_holds(nodes: Seq<RaftState>)
    requires
        nodes.len() <= usize::MAX,
        forall|x: NodeId|
            x < nodes.len() ==> (#[trigger] nodes[x as int]) == (RaftState {
                base_timeout: nodes[x as int].base_timeout,
                election_timer: nodes[x as int].election_timer,
                ..RaftState::init(x, nodes.len() as usize)
            }),
    ensures
        holds(History::init(), nodes),
{
    let h = History::init();
    let n = nodes.len();
    assert forall|x: NodeId| x < n implies h.node_ok(n, x, #[trigger] nodes[x as int]) by {
        reveal(History::acks_ok);
    }
}

/// Election safety: two leaders of one term are the same node.
pub proof fn one_leader_per_term(h: History, nodes: Seq<RaftState>, x: NodeId, y: NodeId)
    requires
        holds(h, nodes),
        x < nodes.len(),
        y < nodes.len(),
        nodes[x as int].role == Role::Leader,
        nodes[y as int].role == Role::Leader,
        nodes[x as int].current_term == nodes[y as int].current_term,
    ensures
        x == y,
{
    assert(h.node_ok(nodes.len(), x, nodes[x as int]));
    assert(h.node_ok(nodes.len(), y, nodes[y as int]));
}

/// Log matching: two nodes with the same term at an index have the same log up to
/// it.
pub proof fn matching_terms_mean_matching_logs(
    h: History,
    nodes: Seq<RaftState>,
    x: NodeId,
    y: NodeId,
    i: int,
)
    requires
        holds(h, nodes),
        x < nodes.len(),
        y < nodes.len(),
        0 <= i < nodes[x as int].log.len(),
        i < nodes[y as int].log.len(),
        nodes[x as int].log[i].term == nodes[y as int].log[i].term,
    ensures
        nodes[x as int].log.take(i + 1) == nodes[y as int].log.take(i + 1),
{
    assert(h.node_ok(nodes.len(), x, nodes[x as int]));
    assert(h.node_ok(nodes.len(), y, nodes[y as int]));
    let a = nodes[x as int].log;
    let b = nodes[y as int].log;
    logs_match(h, a, b, i);
    assert forall|k: int| 0 <= k < i + 1 implies #[trigger] a.take(i + 1)[k] == b.take(
        i + 1,
    )[k] by {
        assert(a[k] == b[k]);
    }
    assert(a.take(i + 1) =~= b.take(i + 1));
}

} // verus!
