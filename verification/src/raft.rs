//! A from-scratch Raft consensus implementation -- the harder system under test.
//!
//! Raft keeps a replicated log consistent across nodes despite crashes,
//! partitions, and message loss, by electing a leader per term and replicating
//! log entries through it.
//!
//! This implements the core of the Raft paper (Ongaro & Ousterhout):
//!   - leader election with randomized election timeouts and terms,
//!   - RequestVote with the up-to-date-log restriction,
//!   - AppendEntries with the log-matching consistency check,
//!   - commit-index advance once an entry is on a majority.
//!
//! It is driven entirely by the simulator's logical clock and seeded RNG: a node
//! never reads a real clock, it's ticked by scheduled timer events.
//!
//! The model of a node is a `RaftState`, and every transition is a function on
//! it. What the transitions of a whole cluster keep is in `raft_cluster`.

use crate::counting::tally;
use crate::net::{map_outbox, NodeId};
use vstd::prelude::*;
use vstd::slice::{slice_subrange, slice_to_vec};

verus! {

/// A single replicated log entry: a client command tagged with the term in
/// which the leader created it. The term is what makes the log-matching and
/// election-safety proofs work.
#[derive(Debug, Clone, Copy, PartialEq, Eq, Structural)]
pub struct LogEntry {
    pub term: u64,
    pub command: u64,
}

#[derive(Debug, Clone, Copy, PartialEq, Eq, Structural)]
pub enum Role {
    Follower,
    Candidate,
    Leader,
}

/// Raft RPCs (and their replies), exchanged over the simulated network.
#[derive(Debug, Clone)]
pub enum RaftMsg {
    RequestVote { term: u64, candidate: NodeId, last_log_index: usize, last_log_term: u64 },
    RequestVoteReply { term: u64, granted: bool },
    AppendEntries {
        term: u64,
        leader: NodeId,
        prev_log_index: usize,
        prev_log_term: u64,
        entries: Vec<LogEntry>,
        leader_commit: usize,
    },
    /// On success, `match_index` is the last index that the request confirmed, so
    /// the leader can advance matchIndex without re-deriving it.
    AppendEntriesReply { term: u64, success: bool, match_index: usize },
}

/// The model of a message: the entries are a sequence.
pub enum Rpc {
    RequestVote { term: u64, candidate: NodeId, last_log_index: usize, last_log_term: u64 },
    RequestVoteReply { term: u64, granted: bool },
    AppendEntries {
        term: u64,
        leader: NodeId,
        prev_log_index: usize,
        prev_log_term: u64,
        entries: Seq<LogEntry>,
        leader_commit: usize,
    },
    AppendEntriesReply { term: u64, success: bool, match_index: usize },
}

impl View for RaftMsg {
    type V = Rpc;

    open spec fn view(&self) -> Rpc {
        match *self {
            RaftMsg::RequestVote { term, candidate, last_log_index, last_log_term } => {
                Rpc::RequestVote { term, candidate, last_log_index, last_log_term }
            },
            RaftMsg::RequestVoteReply { term, granted } => Rpc::RequestVoteReply { term, granted },
            RaftMsg::AppendEntries {
                term,
                leader,
                prev_log_index,
                prev_log_term,
                entries,
                leader_commit,
            } => Rpc::AppendEntries {
                term,
                leader,
                prev_log_index,
                prev_log_term,
                entries: entries@,
                leader_commit,
            },
            RaftMsg::AppendEntriesReply { term, success, match_index } => Rpc::AppendEntriesReply {
                term,
                success,
                match_index,
            },
        }
    }
}

impl Rpc {
    /// The term that the sender was in.
    pub open spec fn term(self) -> u64 {
        match self {
            Rpc::RequestVote { term, .. } => term,
            Rpc::RequestVoteReply { term, .. } => term,
            Rpc::AppendEntries { term, .. } => term,
            Rpc::AppendEntriesReply { term, .. } => term,
        }
    }
}

/// The function that takes a message to its model.
pub open spec fn msg_view() -> spec_fn(RaftMsg) -> Rpc {
    |m: RaftMsg| m@
}

/// The model of an outbox.
pub open spec fn outbox_view(outbox: Seq<(NodeId, RaftMsg)>) -> Seq<(NodeId, Rpc)> {
    map_outbox(outbox, msg_view())
}

/// Which nodes are known to hold the log up to `idx`.
pub open spec fn holders(match_index: Seq<usize>, idx: int) -> Seq<bool> {
    match_index.map_values(|m: usize| m >= idx)
}

/// The nodes below `n` other than `id`, in order.
pub open spec fn peers(n: nat, id: NodeId) -> Seq<NodeId>
    decreases n,
{
    if n == 0 {
        Seq::empty()
    } else if n - 1 == id {
        peers((n - 1) as nat, id)
    } else {
        peers((n - 1) as nat, id).push((n - 1) as usize)
    }
}

/// How many entries, from the `k`-th on, agree in term with what the log holds
/// after `prev`; counted from the start.
pub open spec fn overlap(log: Seq<LogEntry>, prev: int, entries: Seq<LogEntry>, k: int) -> int
    decreases entries.len() - k,
{
    if 0 <= k < entries.len() && prev + k < log.len() && log[prev + k].term == entries[k].term {
        overlap(log, prev, entries, k + 1)
    } else {
        k
    }
}

/// The log after a leader's entries were placed behind index `prev`: where they
/// agree with the log nothing changes, and from the first entry that conflicts
/// or is new, they replace what the log held.
pub open spec fn merged(log: Seq<LogEntry>, prev: int, entries: Seq<LogEntry>) -> Seq<LogEntry> {
    let k = overlap(log, prev, entries, 0);
    if k >= entries.len() {
        log
    } else {
        log.take(prev + k) + entries.skip(k)
    }
}

/// The model of a node.
#[verifier::ext_equal]
pub struct RaftState {
    pub id: NodeId,
    pub n_nodes: usize,
    pub current_term: u64,
    pub voted_for: Option<NodeId>,
    pub log: Seq<LogEntry>,
    pub role: Role,
    pub commit_index: usize,
    pub leader_id: Option<NodeId>,
    pub crashed: bool,
    pub election_timer: u64,
    pub base_timeout: u64,
    pub inject_match_index_bug: bool,
    pub votes_received: Seq<bool>,
    pub next_index: Seq<usize>,
    pub match_index: Seq<usize>,
}

impl RaftState {
    pub open spec fn init(id: NodeId, n_nodes: usize) -> RaftState {
        RaftState {
            id,
            n_nodes,
            current_term: 0,
            voted_for: None,
            log: Seq::empty(),
            role: Role::Follower,
            commit_index: 0,
            leader_id: None,
            crashed: false,
            election_timer: 0,
            base_timeout: 10,
            inject_match_index_bug: false,
            votes_received: Seq::new(n_nodes as nat, |i: int| false),
            next_index: Seq::new(n_nodes as nat, |i: int| 1usize),
            match_index: Seq::new(n_nodes as nat, |i: int| 0usize),
        }
    }

    /// The bookkeeping about peers covers every node, and log indices start at 1.
    pub open spec fn wf(self) -> bool {
        &&& self.votes_received.len() == self.n_nodes
        &&& self.next_index.len() == self.n_nodes
        &&& self.match_index.len() == self.n_nodes
        &&& forall|p: int| 0 <= p < self.n_nodes ==> #[trigger] self.next_index[p] >= 1
    }

    pub open spec fn majority(self) -> int {
        self.n_nodes / 2 + 1
    }

    /// The term of the last entry; 0 for the empty log.
    pub open spec fn last_term(self) -> u64 {
        if self.log.len() == 0 {
            0
        } else {
            self.log.last().term
        }
    }

    /// The term of the entry at a 1-based index; 0 where there is none.
    pub open spec fn term_at(self, index: int) -> u64 {
        if index <= 0 || index > self.log.len() {
            0
        } else {
            self.log[index - 1].term
        }
    }

    /// A log that ends at `last_index` in `last_term` is at least as current.
    pub open spec fn defers_to(self, last_index: usize, last_term: u64) -> bool {
        last_term > self.last_term() || (last_term == self.last_term() && last_index
            >= self.log.len())
    }

    /// The entry before a request's entries is where the leader says it is.
    pub open spec fn matches_at(self, prev_log_index: usize, prev_log_term: u64) -> bool {
        prev_log_index == 0 || (prev_log_index <= self.log.len() && self.term_at(
            prev_log_index as int,
        ) == prev_log_term)
    }

    /// The node after it saw `term`: a newer term makes it a follower.
    pub open spec fn observed(self, term: u64) -> RaftState {
        if term > self.current_term {
            RaftState {
                current_term: term,
                role: Role::Follower,
                voted_for: None,
                leader_id: None,
                ..self
            }
        } else {
            self
        }
    }

    pub open spec fn timeout_set(self, ticks: u64) -> RaftState {
        let base: u64 = if ticks >= 1 {
            ticks
        } else {
            1
        };
        RaftState { base_timeout: base, election_timer: base, ..self }
    }

    /// The node after one tick of its election timer.
    pub open spec fn ticked(self) -> RaftState {
        if self.role == Role::Leader || self.crashed || self.election_timer == 0 {
            self
        } else {
            RaftState { election_timer: (self.election_timer - 1) as u64, ..self }
        }
    }

    /// Whether one tick of the election timer makes it expire.
    pub open spec fn times_out(self) -> bool {
        self.role != Role::Leader && !self.crashed && self.election_timer <= 1
    }

    /// Whether an election timeout makes the node a candidate.
    pub open spec fn may_campaign(self) -> bool {
        !self.crashed && self.role != Role::Leader
    }

    /// The node after it became a candidate for a new term.
    pub open spec fn campaigning(self) -> RaftState {
        if !self.may_campaign() {
            self
        } else {
            RaftState {
                current_term: (self.current_term + 1) as u64,
                role: Role::Candidate,
                voted_for: Some(self.id),
                leader_id: None,
                votes_received: Seq::new(
                    self.n_nodes as nat,
                    |p: int| p == self.id,
                ),
                election_timer: self.base_timeout,
                ..self
            }
        }
    }

    /// The request that a candidate sends.
    pub open spec fn vote_request(self) -> Rpc {
        Rpc::RequestVote {
            term: self.current_term,
            candidate: self.id,
            last_log_index: self.log.len() as usize,
            last_log_term: self.last_term(),
        }
    }

    /// What a node sends when its election timeout fires: one request per peer.
    pub open spec fn campaign_outbox(self) -> Seq<(NodeId, Rpc)> {
        if !self.may_campaign() {
            Seq::empty()
        } else {
            let request = self.campaigning().vote_request();
            peers(self.n_nodes as nat, self.id).map_values(|p: NodeId| (p, request))
        }
    }

    /// Whether the node acts as a leader.
    pub open spec fn leads(self) -> bool {
        !self.crashed && self.role == Role::Leader
    }

    /// The request that brings `peer` up to date, as far as the leader knows.
    pub open spec fn append_for(self, peer: NodeId) -> Rpc {
        let next = self.next_index[peer as int];
        Rpc::AppendEntries {
            term: self.current_term,
            leader: self.id,
            prev_log_index: (next - 1) as usize,
            prev_log_term: self.term_at(next - 1),
            entries: if next <= self.log.len() {
                self.log.skip(next - 1)
            } else {
                Seq::empty()
            },
            leader_commit: self.commit_index,
        }
    }

    /// What a node sends when its heartbeat fires: one request per follower.
    pub open spec fn heartbeat_outbox(self) -> Seq<(NodeId, Rpc)> {
        if !self.leads() {
            Seq::empty()
        } else {
            peers(self.n_nodes as nat, self.id).map_values(|p: NodeId| (p, self.append_for(p)))
        }
    }

    /// The node after a client submitted a command.
    pub open spec fn commanded(self, command: u64) -> RaftState {
        if !self.leads() {
            self
        } else {
            RaftState {
                log: self.log.push(LogEntry { term: self.current_term, command }),
                ..self
            }
        }
    }

    /// Whether an up-to-date candidate gets this node's vote in its term.
    pub open spec fn grants(
        self,
        term: u64,
        candidate: NodeId,
        last_log_index: usize,
        last_log_term: u64,
    ) -> bool {
        &&& term == self.current_term
        &&& (self.voted_for is None || self.voted_for == Some(candidate))
        &&& self.defers_to(last_log_index, last_log_term)
    }

    pub open spec fn on_request_vote(
        self,
        from: NodeId,
        term: u64,
        candidate: NodeId,
        last_log_index: usize,
        last_log_term: u64,
    ) -> (RaftState, Seq<(NodeId, Rpc)>) {
        let s = self.observed(term);
        let granted = s.grants(term, candidate, last_log_index, last_log_term);
        let after = if granted {
            RaftState { voted_for: Some(candidate), election_timer: s.base_timeout, ..s }
        } else {
            s
        };
        (after, seq![(from, Rpc::RequestVoteReply { term: s.current_term, granted })])
    }

    /// Whether a vote counts for this candidate.
    pub open spec fn counts_vote(self, term: u64, granted: bool) -> bool {
        self.role == Role::Candidate && term == self.current_term && granted
    }

    /// The candidate after it got a vote.
    pub open spec fn with_vote(self, from: NodeId) -> RaftState {
        RaftState { votes_received: self.votes_received.update(from as int, true), ..self }
    }

    /// The node after it won the election.
    pub open spec fn leading(self) -> RaftState {
        RaftState {
            role: Role::Leader,
            leader_id: Some(self.id),
            next_index: Seq::new(self.n_nodes as nat, |p: int| (self.log.len() + 1) as usize),
            match_index: Seq::new(
                self.n_nodes as nat,
                |p: int|
                    if p == self.id {
                        self.log.len() as usize
                    } else {
                        0usize
                    },
            ),
            ..self
        }
    }

    pub open spec fn on_vote_reply(
        self,
        from: NodeId,
        term: u64,
        granted: bool,
    ) -> (RaftState, Seq<(NodeId, Rpc)>) {
        let s = self.observed(term);
        let after = if s.counts_vote(term, granted) {
            let t = s.with_vote(from);
            if tally(t.votes_received) >= t.majority() {
                t.leading()
            } else {
                t
            }
        } else {
            s
        };
        (after, Seq::empty())
    }

    /// A reply that rejects a leader's request.
    pub open spec fn rejection(self) -> Rpc {
        Rpc::AppendEntriesReply { term: self.current_term, success: false, match_index: 0 }
    }

    /// The node after it heard from the leader of its own term.
    pub open spec fn following(self, leader: NodeId) -> RaftState {
        RaftState {
            role: Role::Follower,
            leader_id: Some(leader),
            election_timer: self.base_timeout,
            ..self
        }
    }

    pub open spec fn on_append(
        self,
        from: NodeId,
        term: u64,
        leader: NodeId,
        prev_log_index: usize,
        prev_log_term: u64,
        entries: Seq<LogEntry>,
        leader_commit: usize,
    ) -> (RaftState, Seq<(NodeId, Rpc)>) {
        let s = self.observed(term);
        if term < s.current_term {
            (s, seq![(from, s.rejection())])
        } else {
            let f = s.following(leader);
            if !f.matches_at(prev_log_index, prev_log_term) {
                (f, seq![(from, f.rejection())])
            } else {
                let confirmed = prev_log_index + entries.len();
                let log = merged(f.log, prev_log_index as int, entries);
                let commit = if leader_commit <= f.commit_index || confirmed <= f.commit_index {
                    f.commit_index
                } else if leader_commit <= confirmed {
                    leader_commit
                } else {
                    confirmed as usize
                };
                let match_index = if f.inject_match_index_bug {
                    log.len() as usize
                } else {
                    confirmed as usize
                };
                (
                    RaftState { log, commit_index: commit, ..f },
                    seq![
                        (
                            from,
                            Rpc::AppendEntriesReply {
                                term: f.current_term,
                                success: true,
                                match_index,
                            },
                        ),
                    ],
                )
            }
        }
    }

    /// Whether the entry at `idx` is committed: it is from the current term and a
    /// majority holds the log up to it.
    pub open spec fn can_commit(self, idx: int) -> bool {
        self.term_at(idx) == self.current_term && tally(holders(self.match_index, idx))
            >= self.majority()
    }

    /// The highest index up to `hi` that can be committed, or the commit index if
    /// none above it can.
    pub open spec fn highest_commit(self, hi: int) -> int
        decreases hi - self.commit_index,
    {
        if hi <= self.commit_index {
            self.commit_index as int
        } else if self.can_commit(hi) {
            hi
        } else {
            self.highest_commit(hi - 1)
        }
    }

    /// The leader after it counted which entries a majority holds.
    pub open spec fn commit_advanced(self) -> RaftState {
        let s = RaftState {
            match_index: self.match_index.update(self.id as int, self.log.len() as usize),
            ..self
        };
        RaftState { commit_index: s.highest_commit(s.log.len() as int) as usize, ..s }
    }

    pub open spec fn on_append_reply(
        self,
        from: NodeId,
        term: u64,
        success: bool,
        match_index: usize,
    ) -> (RaftState, Seq<(NodeId, Rpc)>) {
        let s = self.observed(term);
        let after = if s.role != Role::Leader || term != s.current_term {
            s
        } else if success {
            RaftState {
                match_index: s.match_index.update(from as int, match_index),
                next_index: s.next_index.update(from as int, (match_index + 1) as usize),
                ..s
            }.commit_advanced()
        } else if s.next_index[from as int] > 1 {
            RaftState {
                next_index: s.next_index.update(
                    from as int,
                    (s.next_index[from as int] - 1) as usize,
                ),
                ..s
            }
        } else {
            s
        };
        (after, Seq::empty())
    }

    /// The node after it handled a message, and the replies.
    pub open spec fn handled(self, from: NodeId, msg: Rpc) -> (RaftState, Seq<(NodeId, Rpc)>) {
        if self.crashed {
            (self, Seq::empty())
        } else {
            match msg {
                Rpc::RequestVote { term, candidate, last_log_index, last_log_term } => {
                    self.on_request_vote(from, term, candidate, last_log_index, last_log_term)
                },
                Rpc::RequestVoteReply { term, granted } => self.on_vote_reply(from, term, granted),
                Rpc::AppendEntries {
                    term,
                    leader,
                    prev_log_index,
                    prev_log_term,
                    entries,
                    leader_commit,
                } => self.on_append(
                    from,
                    term,
                    leader,
                    prev_log_index,
                    prev_log_term,
                    entries,
                    leader_commit,
                ),
                Rpc::AppendEntriesReply { term, success, match_index } => self.on_append_reply(
                    from,
                    term,
                    success,
                    match_index,
                ),
            }
        }
    }

    /// The message can be handled: a reply that counts comes from a node of the
    /// cluster, and the indices that it makes the node compute fit a `usize`.
    pub open spec fn can_handle(self, from: NodeId, msg: Rpc) -> bool {
        self.crashed || match msg {
            Rpc::RequestVote { .. } => true,
            Rpc::RequestVoteReply { term, granted } => {
                self.observed(term).counts_vote(term, granted) ==> from < self.n_nodes && self.id
                    < self.n_nodes && self.log.len() < usize::MAX
            },
            Rpc::AppendEntries { term, prev_log_index, prev_log_term, entries, .. } => {
                term >= self.current_term && self.matches_at(prev_log_index, prev_log_term)
                    ==> prev_log_index + entries.len() <= usize::MAX
            },
            Rpc::AppendEntriesReply { term, success, match_index } => {
                self.observed(term).role == Role::Leader && term == self.current_term ==> {
                    &&& from < self.n_nodes
                    &&& success ==> self.id < self.n_nodes && match_index < usize::MAX
                }
            },
        }
    }

    pub open spec fn crash_set(self) -> RaftState {
        RaftState { crashed: true, ..self }
    }

    /// The node after a warm restart: a follower that keeps its persistent state.
    pub open spec fn restarted(self) -> RaftState {
        RaftState { crashed: false, role: Role::Follower, leader_id: None, ..self }
    }

    /// How many entries the node considers committed.
    pub open spec fn committed_len(self) -> int {
        if self.commit_index <= self.log.len() {
            self.commit_index as int
        } else {
            self.log.len() as int
        }
    }

    /// The committed prefix of the log.
    pub open spec fn committed(self) -> Seq<LogEntry> {
        self.log.take(self.committed_len())
    }
}

/// Placing one more entry behind those already placed.
proof fn merged_push(log: Seq<LogEntry>, prev: int, entries: Seq<LogEntry>, k: int)
    requires
        0 <= prev <= log.len(),
        0 <= k < entries.len(),
    ensures
        ({
            let before = merged(log, prev, entries.take(k));
            let after = merged(log, prev, entries.take(k + 1));
            &&& before.len() >= prev + k
            &&& prev + k < before.len() ==> after == if before[prev + k].term != entries[k].term {
                before.take(prev + k).push(entries[k])
            } else {
                before
            }
            &&& prev + k == before.len() ==> after == before.push(entries[k])
        }),
{
    let a = entries.take(k);
    let b = entries.take(k + 1);
    overlap_of_prefix(log, prev, a, b, 0);
    let j = overlap(log, prev, a, 0);
    overlap_bounds(log, prev, a, 0);
    let before = merged(log, prev, a);
    let after = merged(log, prev, b);
    if j < k {
        assert(before == log.take(prev + j) + a.skip(j));
        assert(after =~= before.push(entries[k]));
    } else {
        assert(before == log);
        if prev + k < log.len() {
            if log[prev + k].term != entries[k].term {
                assert(overlap(log, prev, b, k) == k);
                assert(after =~= log.take(prev + k).push(entries[k]));
            } else {
                assert(overlap(log, prev, b, k + 1) == k + 1);
                assert(after == log);
            }
        } else {
            assert(overlap(log, prev, b, k) == k);
            assert(after =~= log.push(entries[k]));
        }
    }
}

proof fn overlap_bounds(log: Seq<LogEntry>, prev: int, entries: Seq<LogEntry>, k: int)
    requires
        0 <= prev <= log.len(),
        0 <= k <= entries.len(),
        prev + k <= log.len(),
    ensures
        k <= overlap(log, prev, entries, k) <= entries.len(),
        prev + overlap(log, prev, entries, k) <= log.len(),
    decreases entries.len() - k,
{
    if k < entries.len() && prev + k < log.len() && log[prev + k].term == entries[k].term {
        overlap_bounds(log, prev, entries, k + 1);
    }
}

/// A merge makes the log no longer than what the leader has confirmed, unless it
/// was longer before.
pub proof fn merged_len(log: Seq<LogEntry>, prev: int, entries: Seq<LogEntry>)
    requires
        0 <= prev <= log.len(),
    ensures
        prev + entries.len() <= merged(log, prev, entries).len(),
        merged(log, prev, entries).len() <= log.len() || merged(log, prev, entries).len() == prev
            + entries.len(),
{
    overlap_bounds(log, prev, entries, 0);
}

/// There are fewer peers than nodes.
pub proof fn peers_len(n: nat, id: NodeId)
    ensures
        peers(n, id).len() <= n,
        forall|k: int| 0 <= k < peers(n, id).len() ==> #[trigger] peers(n, id)[k] < n,
    decreases n,
{
    if n > 0 {
        peers_len((n - 1) as nat, id);
    }
}

/// What `overlap` says of a sequence of entries that is one longer.
proof fn overlap_of_prefix(
    log: Seq<LogEntry>,
    prev: int,
    a: Seq<LogEntry>,
    b: Seq<LogEntry>,
    k: int,
)
    requires
        b.len() == a.len() + 1,
        a =~= b.take(a.len() as int),
        0 <= k <= a.len(),
    ensures
        overlap(log, prev, a, k) < a.len() ==> overlap(log, prev, b, k) == overlap(
            log,
            prev,
            a,
            k,
        ),
        overlap(log, prev, a, k) >= a.len() ==> overlap(log, prev, b, k) == overlap(
            log,
            prev,
            b,
            a.len() as int,
        ),
    decreases a.len() - k,
{
    if k < a.len() {
        assert(a[k] == b[k]);
        if prev + k < log.len() && log[prev + k].term == a[k].term {
            overlap_of_prefix(log, prev, a, b, k + 1);
        }
    }
}

/// A Raft node.
pub struct RaftNode {
    pub id: NodeId,
    pub n_nodes: usize,
    // --- Persistent state: never wiped on a warm restart ---
    pub current_term: u64,
    pub voted_for: Option<NodeId>,
    /// Log indices are 1-based as in the paper: entry `i` is `log[i - 1]`, and
    /// index 0 means "empty".
    pub log: Vec<LogEntry>,
    // --- Volatile state ---
    pub role: Role,
    pub commit_index: usize,
    pub leader_id: Option<NodeId>,
    pub crashed: bool,
    /// Randomized election-timeout countdown (in ticks). Decrements each tick;
    /// when it hits 0 a follower/candidate starts an election. Reset to
    /// `base_timeout` whenever the node hears from a current leader or grants a
    /// vote. Randomization (per-node `base_timeout`) is what breaks election
    /// livelock -- if every node used the same timeout they'd all time out
    /// together, split the vote, and repeat.
    pub election_timer: u64,
    /// This node's randomized election timeout, set once by the runner from the
    /// seeded RNG. The timer resets to this on contact from a leader.
    pub base_timeout: u64,
    /// Deliberately introduce a match-index safety bug, for demonstrating that
    /// the simulator catches it. When true, a follower reports its raw log length
    /// instead of the index this RPC confirmed -- which lets a leader commit on a
    /// false majority. Off in normal operation; a "mutation test" of the checker.
    pub inject_match_index_bug: bool,
    // --- Candidate state ---
    pub votes_received: Vec<bool>,
    // --- Leader state (per follower) ---
    pub next_index: Vec<usize>,
    pub match_index: Vec<usize>,
}

impl View for RaftNode {
    type V = RaftState;

    open spec fn view(&self) -> RaftState {
        RaftState {
            id: self.id,
            n_nodes: self.n_nodes,
            current_term: self.current_term,
            voted_for: self.voted_for,
            log: self.log@,
            role: self.role,
            commit_index: self.commit_index,
            leader_id: self.leader_id,
            crashed: self.crashed,
            election_timer: self.election_timer,
            base_timeout: self.base_timeout,
            inject_match_index_bug: self.inject_match_index_bug,
            votes_received: self.votes_received@,
            next_index: self.next_index@,
            match_index: self.match_index@,
        }
    }
}

impl RaftNode {
    pub fn new(id: NodeId, n_nodes: usize) -> (node: Self)
        ensures
            node@ == RaftState::init(id, n_nodes),
            node@.wf(),
    {
        let node = RaftNode {
            id,
            n_nodes,
            current_term: 0,
            voted_for: None,
            log: Vec::new(),
            role: Role::Follower,
            commit_index: 0,
            leader_id: None,
            crashed: false,
            election_timer: 0,
            base_timeout: 10,
            inject_match_index_bug: false,
            votes_received: vec![false; n_nodes],
            next_index: vec![1; n_nodes],
            match_index: vec![0; n_nodes],
        };
        assert(node@ =~= RaftState::init(id, n_nodes));
        node
    }

    fn majority(&self) -> (m: usize)
        ensures
            m == self@.majority(),
    {
        self.n_nodes / 2 + 1
    }

    /// Set this node's randomized election timeout (from the runner's seeded
    /// RNG) and arm the countdown. Called once at setup per node.
    pub fn set_base_timeout(&mut self, ticks: u64)
        ensures
            final(self)@ == old(self)@.timeout_set(ticks),
    {
        self.base_timeout = if ticks >= 1 {
            ticks
        } else {
            1
        };
        self.election_timer = self.base_timeout;
    }

    /// Decrement the election timer; returns true if it just expired (the runner
    /// should then call `start_election`). Leaders don't run an election timer.
    pub fn tick_election_timer(&mut self) -> (expired: bool)
        ensures
            final(self)@ == old(self)@.ticked(),
            expired == old(self)@.times_out(),
    {
        if self.role == Role::Leader || self.crashed {
            return false;
        }
        if self.election_timer > 0 {
            self.election_timer = self.election_timer - 1;
        }
        self.election_timer == 0
    }

    /// Last log index (0 = empty log) and its term.
    fn last_log(&self) -> (r: (usize, u64))
        ensures
            r.0 == self@.log.len(),
            r.1 == self@.last_term(),
    {
        let n = self.log.len();
        if n == 0 {
            (0, 0)
        } else {
            (n, self.log[n - 1].term)
        }
    }

    fn log_term_at(&self, index: usize) -> (t: u64)
        ensures
            t == self@.term_at(index as int),
    {
        if index == 0 || index > self.log.len() {
            0
        } else {
            self.log[index - 1].term
        }
    }

    /// If we see a term newer than ours, step down to follower and adopt it.
    /// Returns true if we stepped down. This rule is pervasive in Raft.
    fn observe_term(&mut self, term: u64) -> (stepped_down: bool)
        ensures
            final(self)@ == old(self)@.observed(term),
            stepped_down == (term > old(self)@.current_term),
    {
        if term > self.current_term {
            self.current_term = term;
            self.role = Role::Follower;
            self.voted_for = None;
            self.leader_id = None;
            true
        } else {
            false
        }
    }

    // ---- Timer-driven transitions (called by the runner on scheduled ticks) ----

    /// Election timeout fired: become a candidate for a new term and return the
    /// RequestVote messages to broadcast (empty if crashed or already leader).
    pub fn start_election(&mut self) -> (outbox: Vec<(NodeId, RaftMsg)>)
        requires
            old(self)@.wf(),
            old(self)@.may_campaign() ==> old(self)@.current_term < u64::MAX && old(self)@.id
                < old(self)@.n_nodes,
        ensures
            final(self)@ == old(self)@.campaigning(),
            final(self)@.wf(),
            outbox_view(outbox@) == old(self)@.campaign_outbox(),
    {
        let mut outbox: Vec<(NodeId, RaftMsg)> = Vec::new();
        if self.crashed || self.role == Role::Leader {
            assert(outbox_view(outbox@) =~= Seq::empty());
            return outbox;
        }
        self.current_term = self.current_term + 1;
        self.role = Role::Candidate;
        self.voted_for = Some(self.id);
        self.leader_id = None;
        self.votes_received = vec![false; self.n_nodes];
        let me = self.id;
        self.votes_received[me] = true;  // vote for self
        self.election_timer = self.base_timeout;  // re-arm; retry if this election stalls
        assert(self@ =~= old(self)@.campaigning());

        let (last_log_index, last_log_term) = self.last_log();
        let ghost request = self@.vote_request();
        let ghost send = |p: NodeId| (p, request);
        let mut peer: usize = 0;
        assert(outbox_view(outbox@) =~= peers(0, me).map_values(send));
        while peer < self.n_nodes
            invariant
                self@ == old(self)@.campaigning(),
                me == self.id,
                peer <= self.n_nodes,
                request == self@.vote_request(),
                send == |p: NodeId| (p, request),
                last_log_index == self@.log.len(),
                last_log_term == self@.last_term(),
                outbox_view(outbox@) == peers(peer as nat, me).map_values(send),
            decreases self.n_nodes - peer,
        {
            if peer != me {
                let msg = RaftMsg::RequestVote {
                    term: self.current_term,
                    candidate: self.id,
                    last_log_index,
                    last_log_term,
                };
                assert(msg@ == request);
                let ghost before = outbox@;
                outbox.push((peer, msg));
                assert(outbox_view(outbox@) =~= outbox_view(before).push((peer, request)));
            }
            assert(outbox_view(outbox@) =~= peers((peer + 1) as nat, me).map_values(send));
            peer = peer + 1;
        }
        outbox
    }

    /// Heartbeat timer fired on the leader: send AppendEntries (possibly with new
    /// entries) to every follower. Empty if not leader / crashed.
    pub fn heartbeat(&mut self) -> (outbox: Vec<(NodeId, RaftMsg)>)
        requires
            old(self)@.wf(),
        ensures
            final(self)@ == old(self)@,
            outbox_view(outbox@) == old(self)@.heartbeat_outbox(),
    {
        let mut outbox: Vec<(NodeId, RaftMsg)> = Vec::new();
        if self.crashed || self.role != Role::Leader {
            assert(outbox_view(outbox@) =~= Seq::empty());
            return outbox;
        }
        let me = self.id;
        let ghost send = |p: NodeId| (p, self@.append_for(p));
        let mut peer: usize = 0;
        assert(outbox_view(outbox@) =~= peers(0, me).map_values(send));
        while peer < self.n_nodes
            invariant
                self@ == old(self)@,
                self@.wf(),
                me == self.id,
                peer <= self.n_nodes,
                send == |p: NodeId| (p, self@.append_for(p)),
                outbox_view(outbox@) == peers(peer as nat, me).map_values(send),
            decreases self.n_nodes - peer,
        {
            if peer != me {
                let msg = self.build_append_for(peer);
                let ghost request = msg@;
                let ghost before = outbox@;
                outbox.push((peer, msg));
                assert(outbox_view(outbox@) =~= outbox_view(before).push((peer, request)));
            }
            assert(outbox_view(outbox@) =~= peers((peer + 1) as nat, me).map_values(send));
            peer = peer + 1;
        }
        outbox
    }

    fn build_append_for(&self, peer: NodeId) -> (msg: RaftMsg)
        requires
            self@.wf(),
            peer < self@.n_nodes,
        ensures
            msg@ == self@.append_for(peer),
    {
        let next = self.next_index[peer];
        let prev_log_index = next - 1;
        let prev_log_term = self.log_term_at(prev_log_index);
        let entries = if next <= self.log.len() {
            slice_to_vec(slice_subrange(self.log.as_slice(), next - 1, self.log.len()))
        } else {
            Vec::new()
        };
        assert(next <= self.log@.len() ==> entries@ =~= self.log@.skip(next - 1));
        assert(next > self.log@.len() ==> entries@ =~= Seq::empty());
        RaftMsg::AppendEntries {
            term: self.current_term,
            leader: self.id,
            prev_log_index,
            prev_log_term,
            entries,
            leader_commit: self.commit_index,
        }
    }

    /// Client submits a command. Only the leader accepts it; it appends to its
    /// own log and lets the next heartbeat replicate. Returns true if accepted.
    pub fn client_command(&mut self, command: u64) -> (accepted: bool)
        ensures
            final(self)@ == old(self)@.commanded(command),
            accepted == old(self)@.leads(),
    {
        if self.crashed || self.role != Role::Leader {
            return false;
        }
        self.log.push(LogEntry { term: self.current_term, command });
        true
    }

    // ---- Message handling ----

    /// Handle an incoming RPC; return replies/outgoing messages to send.
    pub fn handle(&mut self, from: NodeId, msg: RaftMsg) -> (outbox: Vec<(NodeId, RaftMsg)>)
        requires
            old(self)@.wf(),
            old(self)@.can_handle(from, msg@),
        ensures
            final(self)@ == old(self)@.handled(from, msg@).0,
            final(self)@.wf(),
            outbox_view(outbox@) == old(self)@.handled(from, msg@).1,
    {
        let mut outbox: Vec<(NodeId, RaftMsg)> = Vec::new();
        if self.crashed {
            assert(outbox_view(outbox@) =~= Seq::empty());
            return outbox;
        }
        match msg {
            RaftMsg::RequestVote { term, candidate, last_log_index, last_log_term } => {
                let reply = self.handle_request_vote(
                    from,
                    term,
                    candidate,
                    last_log_index,
                    last_log_term,
                );
                outbox.push(reply);
                assert(outbox_view(outbox@) =~= seq![(reply.0, reply.1@)]);
            },
            RaftMsg::RequestVoteReply { term, granted } => {
                self.handle_vote_reply(from, term, granted);
                assert(outbox_view(outbox@) =~= Seq::empty());
            },
            RaftMsg::AppendEntries {
                term,
                leader,
                prev_log_index,
                prev_log_term,
                entries,
                leader_commit,
            } => {
                let reply = self.handle_append(
                    from,
                    term,
                    leader,
                    prev_log_index,
                    prev_log_term,
                    entries,
                    leader_commit,
                );
                outbox.push(reply);
                assert(outbox_view(outbox@) =~= seq![(reply.0, reply.1@)]);
            },
            RaftMsg::AppendEntriesReply { term, success, match_index } => {
                self.handle_append_reply(from, term, success, match_index);
                assert(outbox_view(outbox@) =~= Seq::empty());
            },
        }
        outbox
    }

    fn handle_request_vote(
        &mut self,
        from: NodeId,
        term: u64,
        candidate: NodeId,
        last_log_index: usize,
        last_log_term: u64,
    ) -> (reply: (NodeId, RaftMsg))
        requires
            old(self)@.wf(),
        ensures
            (final(self)@, seq![(reply.0, reply.1@)]) == old(self)@.on_request_vote(
                from,
                term,
                candidate,
                last_log_index,
                last_log_term,
            ),
            final(self)@.wf(),
    {
        self.observe_term(term);
        let mut granted: bool = false;
        if term == self.current_term {
            let can_vote = match self.voted_for {
                None => true,
                Some(c) => c == candidate,
            };
            // Up-to-date restriction: candidate's log must be at least as
            // current as ours, or we must not grant the vote.
            let (my_idx, my_term) = self.last_log();
            let up_to_date = last_log_term > my_term || (last_log_term == my_term && last_log_index
                >= my_idx);
            if can_vote && up_to_date {
                granted = true;
                self.voted_for = Some(candidate);
                // Granting a vote resets our timer: we've endorsed a
                // candidate, so don't immediately start a rival election.
                self.election_timer = self.base_timeout;
            }
        }
        (from, RaftMsg::RequestVoteReply { term: self.current_term, granted })
    }

    fn handle_vote_reply(&mut self, from: NodeId, term: u64, granted: bool)
        requires
            old(self)@.wf(),
            old(self)@.observed(term).counts_vote(term, granted) ==> from < old(self)@.n_nodes
                && old(self)@.id < old(self)@.n_nodes && old(self)@.log.len() < usize::MAX,
        ensures
            final(self)@ == old(self)@.on_vote_reply(from, term, granted).0,
            final(self)@.wf(),
    {
        self.observe_term(term);
        if self.role == Role::Candidate && term == self.current_term && granted {
            self.votes_received[from] = true;
            let count = Self::count_votes(&self.votes_received);
            if count >= self.majority() {
                self.become_leader();
            }
        }
    }

    fn count_votes(votes: &Vec<bool>) -> (count: usize)
        ensures
            count == tally(votes@),
    {
        let mut count: usize = 0;
        let mut i: usize = 0;
        while i < votes.len()
            invariant
                i <= votes@.len(),
                count <= i,
                count == tally(votes@.take(i as int)),
            decreases votes@.len() - i,
        {
            assert(votes@.take(i + 1).drop_last() =~= votes@.take(i as int));
            if votes[i] {
                count = count + 1;
            }
            i = i + 1;
        }
        assert(votes@.take(i as int) =~= votes@);
        count
    }

    fn handle_append(
        &mut self,
        from: NodeId,
        term: u64,
        leader: NodeId,
        prev_log_index: usize,
        prev_log_term: u64,
        entries: Vec<LogEntry>,
        leader_commit: usize,
    ) -> (reply: (NodeId, RaftMsg))
        requires
            old(self)@.wf(),
            term >= old(self)@.current_term && old(self)@.matches_at(prev_log_index, prev_log_term)
                ==> prev_log_index + entries@.len() <= usize::MAX,
        ensures
            (final(self)@, seq![(reply.0, reply.1@)]) == old(self)@.on_append(
                from,
                term,
                leader,
                prev_log_index,
                prev_log_term,
                entries@,
                leader_commit,
            ),
            final(self)@.wf(),
    {
        self.observe_term(term);
        if term < self.current_term {
            // Stale leader; reject.
            return (
                from,
                RaftMsg::AppendEntriesReply {
                    term: self.current_term,
                    success: false,
                    match_index: 0,
                },
            );
        }
        // Valid leader for our term: become/stay follower, note the
        // leader, and reset the election timer -- hearing from a live
        // leader is exactly what should suppress a follower's election.

        self.role = Role::Follower;
        self.leader_id = Some(leader);
        self.election_timer = self.base_timeout;

        // Log-matching check: our log must contain prev_log_index with
        // prev_log_term, or we reject so the leader backs up.
        let consistent = prev_log_index == 0 || (prev_log_index <= self.log.len()
            && self.log_term_at(prev_log_index) == prev_log_term);
        if !consistent {
            return (
                from,
                RaftMsg::AppendEntriesReply {
                    term: self.current_term,
                    success: false,
                    match_index: 0,
                },
            );
        }
        let last_new_index = self.merge_entries(prev_log_index, &entries);

        // Advance commit index -- but cap it by the last entry THIS RPC
        // confirmed, not our whole log length. A heartbeat (no entries) carrying
        // a high leader_commit would otherwise commit stale entries still in our
        // log from a previous leader, which a later AppendEntries then truncates.
        // This is the `min(leaderCommit, index of last new entry)` rule. A delayed
        // request that confirms less than is committed already takes nothing back.
        if leader_commit > self.commit_index && last_new_index > self.commit_index {
            self.commit_index = if leader_commit <= last_new_index {
                leader_commit
            } else {
                last_new_index
            };
        }
        // Report the match index relative to what THIS RPC confirmed
        // (prev_log_index + entries.len()), NOT our raw log length: a follower
        // with a longer, *divergent* log from an old term would otherwise tell
        // the leader it had replicated entries it never received.
        let match_index = if self.inject_match_index_bug {
            self.log.len()
        } else {
            last_new_index
        };
        (
            from,
            RaftMsg::AppendEntriesReply { term: self.current_term, success: true, match_index },
        )
    }

    /// Append/overwrite entries after `prev_log_index`. On any term conflict,
    /// truncate our log from that point (Raft's rule). Returns the index of the
    /// last entry that is now known to match the leader.
    fn merge_entries(&mut self, prev_log_index: usize, entries: &Vec<LogEntry>) -> (last: usize)
        requires
            prev_log_index <= old(self)@.log.len(),
            prev_log_index + entries@.len() <= usize::MAX,
        ensures
            final(self)@ == (RaftState {
                log: merged(old(self)@.log, prev_log_index as int, entries@),
                ..old(self)@
            }),
            last == prev_log_index + entries@.len(),
    {
        let ghost prev = prev_log_index as int;
        let ghost log0 = self.log@;
        let mut idx: usize = prev_log_index;
        let mut k: usize = 0;
        assert(entries@.take(0) =~= Seq::empty());
        while k < entries.len()
            invariant
                k <= entries@.len(),
                idx == prev + k,
                prev == prev_log_index,
                log0 == old(self)@.log,
                prev <= log0.len(),
                prev_log_index + entries@.len() <= usize::MAX,
                self@ == (RaftState {
                    log: merged(log0, prev, entries@.take(k as int)),
                    ..old(self)@
                }),
            decreases entries@.len() - k,
        {
            proof {
                merged_push(log0, prev, entries@, k as int);
            }
            let entry = entries[k];
            idx = idx + 1;
            if idx <= self.log.len() {
                if self.log[idx - 1].term != entry.term {
                    self.log.truncate(idx - 1);  // drop conflicting suffix
                    self.log.push(entry);
                }
                // else: already have a matching entry; skip.

            } else {
                self.log.push(entry);
            }
            k = k + 1;
        }
        assert(entries@.take(k as int) =~= entries@);
        idx
    }

    fn handle_append_reply(&mut self, from: NodeId, term: u64, success: bool, match_index: usize)
        requires
            old(self)@.wf(),
            old(self)@.observed(term).role == Role::Leader && term == old(self)@.current_term ==> {
                &&& from < old(self)@.n_nodes
                &&& success ==> old(self)@.id < old(self)@.n_nodes && match_index < usize::MAX
            },
        ensures
            final(self)@ == old(self)@.on_append_reply(from, term, success, match_index).0,
            final(self)@.wf(),
    {
        self.observe_term(term);
        if self.role != Role::Leader || term != self.current_term {
            return ;
        }
        if success {
            self.match_index[from] = match_index;
            self.next_index[from] = match_index + 1;
            self.advance_commit();
        } else {
            // Follower rejected: back up nextIndex and retry next beat.
            let next = self.next_index[from];
            if next > 1 {
                self.next_index[from] = next - 1;
            }
        }
    }

    fn become_leader(&mut self)
        requires
            old(self)@.wf(),
            old(self)@.id < old(self)@.n_nodes,
            old(self)@.log.len() < usize::MAX,
        ensures
            final(self)@ == old(self)@.leading(),
            final(self)@.wf(),
    {
        self.role = Role::Leader;
        self.leader_id = Some(self.id);
        let last = self.log.len();
        let mut p: usize = 0;
        while p < self.n_nodes
            invariant
                p <= self.n_nodes,
                last == self.log@.len(),
                last < usize::MAX,
                self.next_index@.len() == self.n_nodes,
                self.match_index@.len() == self.n_nodes,
                self@ == (RaftState {
                    next_index: self.next_index@,
                    match_index: self.match_index@,
                    ..old(self)@.leading()
                }),
                forall|q: int| #![trigger self.next_index@[q]] 0 <= q < p ==> self.next_index@[q] == last + 1,
                forall|q: int| #![trigger self.match_index@[q]] 0 <= q < p ==> self.match_index@[q] == 0,
            decreases self.n_nodes - p,
        {
            self.next_index[p] = last + 1;
            self.match_index[p] = 0;
            p = p + 1;
        }
        let me = self.id;
        self.match_index[me] = last;
        assert(self@ =~= old(self)@.leading());
    }

    /// Leader commit rule: an entry is committed once it's on a majority AND is
    /// from the current term. Advance commit_index to the highest such index.
    fn advance_commit(&mut self)
        requires
            old(self)@.wf(),
            old(self)@.id < old(self)@.n_nodes,
        ensures
            final(self)@ == old(self)@.commit_advanced(),
            final(self)@.wf(),
    {
        // Keep the leader's own matchIndex equal to its log length, so the
        // majority count is correct.
        let me = self.id;
        self.match_index[me] = self.log.len();
        let ghost s = self@;
        let need = self.majority();
        let mut idx: usize = self.log.len();
        while idx > self.commit_index
            invariant
                self@ == s,
                s.wf(),
                need == s.majority(),
                idx <= s.log.len(),
                s == (RaftState {
                    match_index: old(self)@.match_index.update(
                        old(self)@.id as int,
                        old(self)@.log.len() as usize,
                    ),
                    ..old(self)@
                }),
                s.highest_commit(s.log.len() as int) == s.highest_commit(idx as int),
            decreases idx,
        {
            // Only commit entries from the current term (the Raft safety rule
            // that prevents committing a stale entry via count alone).
            if self.log_term_at(idx) == self.current_term {
                let count = self.count_holders(idx);
                if count >= need {
                    self.commit_index = idx;
                    return ;
                }
            }
            idx = idx - 1;
        }
    }

    /// Count every node (including self) whose matchIndex reaches `idx`.
    fn count_holders(&self, idx: usize) -> (count: usize)
        requires
            self@.wf(),
        ensures
            count == tally(holders(self@.match_index, idx as int)),
    {
        let ghost flags = holders(self@.match_index, idx as int);
        let mut count: usize = 0;
        let mut p: usize = 0;
        while p < self.n_nodes
            invariant
                p <= self.n_nodes,
                self@.wf(),
                flags == holders(self@.match_index, idx as int),
                count <= p,
                count == tally(flags.take(p as int)),
            decreases self.n_nodes - p,
        {
            assert(flags.take(p + 1).drop_last() =~= flags.take(p as int));
            if self.match_index[p] >= idx {
                count = count + 1;
            }
            p = p + 1;
        }
        assert(flags.take(p as int) =~= flags);
        count
    }

    pub fn crash(&mut self)
        ensures
            final(self)@ == old(self)@.crash_set(),
    {
        self.crashed = true;
    }

    /// Warm restart: comes back as a follower but KEEPS its persistent state
    /// (term, votedFor, log) -- as real Raft requires for safety.
    pub fn restart(&mut self)
        ensures
            final(self)@ == old(self)@.restarted(),
    {
        self.crashed = false;
        self.role = Role::Follower;
        self.leader_id = None;
    }

    /// The committed prefix of the log (what a client is guaranteed).
    pub fn committed_log(&self) -> (entries: &[LogEntry])
        ensures
            entries@ == self@.committed(),
    {
        let n = if self.commit_index <= self.log.len() {
            self.commit_index
        } else {
            self.log.len()
        };
        slice_subrange(self.log.as_slice(), 0, n)
    }
}

/// The commit index that a leader counts is not below the one it had.
proof fn highest_commit_bounds(node: RaftState, hi: int)
    ensures
        node.commit_index <= node.highest_commit(hi),
        node.highest_commit(hi) <= hi || node.highest_commit(hi) == node.commit_index,
    decreases hi - node.commit_index,
{
    if hi > node.commit_index && !node.can_commit(hi) {
        highest_commit_bounds(node, hi - 1);
    }
}

/// Terms never go back, within a term a vote is never withdrawn or changed, and
/// the commit index never goes back.
pub proof fn promises_are_kept(node: RaftState, from: NodeId, msg: Rpc)
    requires
        node.log.len() <= usize::MAX,
    ensures
        ({
            let after = node.handled(from, msg).0;
            &&& after.current_term >= node.current_term
            &&& after.current_term == node.current_term && node.voted_for is Some
                ==> after.voted_for == node.voted_for
            &&& after.commit_index >= node.commit_index
        }),
{
    if let Rpc::AppendEntriesReply { term, success: true, match_index } = msg {
        let s = node.observed(term);
        let told = RaftState {
            match_index: s.match_index.update(from as int, match_index),
            next_index: s.next_index.update(from as int, (match_index + 1) as usize),
            ..s
        };
        let counted = RaftState {
            match_index: told.match_index.update(told.id as int, told.log.len() as usize),
            ..told
        };
        highest_commit_bounds(counted, counted.log.len() as int);
    }
}

/// A leader never overwrites or deletes entries: it appends a client's command, and
/// no message changes its log while it leads.
pub proof fn leaders_only_append(node: RaftState, from: NodeId, msg: Rpc, command: u64)
    requires
        node.role == Role::Leader,
    ensures
        node.handled(from, msg).0.role == Role::Leader ==> node.handled(from, msg).0.log
            == node.log,
        node.leads() ==> node.commanded(command).log == node.log.push(
            LogEntry { term: node.current_term, command },
        ),
{
}

/// A higher term makes any node step down.
pub proof fn higher_terms_prevail(node: RaftState, from: NodeId, msg: Rpc)
    requires
        !node.crashed,
        msg.term() > node.current_term,
    ensures
        node.handled(from, msg).0.current_term == msg.term(),
        node.handled(from, msg).0.role == Role::Follower,
{
}

/// A crash and a restart lose neither the term, nor the vote, nor the log.
pub proof fn persistent_state_survives(node: RaftState)
    ensures
        ({
            let after = node.crash_set().restarted();
            &&& after.current_term == node.current_term
            &&& after.voted_for == node.voted_for
            &&& after.log == node.log
            &&& after.commit_index == node.commit_index
            &&& after.role == Role::Follower
            &&& !after.crashed
        }),
{
}

/// A crashed node does nothing.
pub proof fn crashed_nodes_are_silent(node: RaftState, from: NodeId, msg: Rpc, command: u64)
    requires
        node.crashed,
    ensures
        node.handled(from, msg) == (node, Seq::<(NodeId, Rpc)>::empty()),
        node.campaigning() == node,
        node.campaign_outbox().len() == 0,
        node.heartbeat_outbox().len() == 0,
        node.commanded(command) == node,
        !node.times_out(),
{
}

} // verus!
