//! The system under test: a primary-backup replicated key-value store.
//!
//! This is a deliberately realistic design -- the kind a team might ship -- with
//! a subtle correctness flaw that appears only under specific fault
//! interleavings. That's the point: the deterministic simulator hunts for the
//! interleaving that breaks it and hands back a seed that reproduces it.
//!
//! Protocol (primary-backup / primary-copy replication):
//!   - One node is the primary; the rest are backups.
//!   - A client `Write` goes to the primary. The primary applies it locally,
//!     bumps a version, and asynchronously replicates to backups.
//!   - A client `Read` can be served by any node from its local copy (this is
//!     the performance-motivated choice that introduces the bug: backups can
//!     serve *stale* reads, and under a partition a client can even read from a
//!     node that missed writes -- a linearizability violation).
//!
//! Messages carry a monotonic `version` so backups apply updates in order and
//! ignore stale ones. The known weakness: nothing prevents a client from
//! reading a value that is older than a write already acknowledged elsewhere.

use crate::net::{map_outbox, NodeId};
use vstd::hash_map::StringHashMap;
use vstd::prelude::*;
use vstd::string::*;

verus! {

/// Application-level messages exchanged between nodes.
#[derive(Debug, Clone)]
pub enum Msg {
    /// Primary -> backup: replicate this key/value at this version.
    Replicate { key: String, value: u64, version: u64 },
    /// Backup -> primary: acknowledge replication up to this version.
    Ack { version: u64 },
}

/// The model of a message: the key is a sequence of characters.
pub enum KvMsg {
    Replicate { key: Seq<char>, value: u64, version: u64 },
    Ack { version: u64 },
}

impl View for Msg {
    type V = KvMsg;

    open spec fn view(&self) -> KvMsg {
        match *self {
            Msg::Replicate { key, value, version } => KvMsg::Replicate {
                key: key@,
                value,
                version,
            },
            Msg::Ack { version } => KvMsg::Ack { version },
        }
    }
}

/// The function that takes a message to its model.
pub open spec fn msg_view() -> spec_fn(Msg) -> KvMsg {
    |m: Msg| m@
}

/// The model of an outbox.
pub open spec fn outbox_view(outbox: Seq<(NodeId, Msg)>) -> Seq<(NodeId, KvMsg)> {
    map_outbox(outbox, msg_view())
}

/// The model of a node.
#[verifier::ext_equal]
pub struct NodeState {
    pub id: NodeId,
    pub is_primary: bool,
    pub data: Map<Seq<char>, u64>,
    pub versions: Map<Seq<char>, u64>,
    pub next_version: u64,
    pub crashed: bool,
}

impl NodeState {
    pub open spec fn init(id: NodeId, is_primary: bool) -> NodeState {
        NodeState {
            id,
            is_primary,
            data: Map::empty(),
            versions: Map::empty(),
            next_version: 1,
            crashed: false,
        }
    }

    /// The value a local read returns.
    pub open spec fn value_of(self, key: Seq<char>) -> Option<u64> {
        if self.data.contains_key(key) {
            Some(self.data[key])
        } else {
            None
        }
    }

    /// The version this node has applied for `key`; 0 if none.
    pub open spec fn version_of(self, key: Seq<char>) -> u64 {
        if self.versions.contains_key(key) {
            self.versions[key]
        } else {
            0
        }
    }

    /// Whether a client write is accepted here.
    pub open spec fn accepts_writes(self) -> bool {
        !self.crashed && self.is_primary
    }

    /// The node after a client write.
    pub open spec fn written(self, key: Seq<char>, value: u64) -> NodeState {
        if !self.accepts_writes() {
            self
        } else {
            NodeState {
                next_version: (self.next_version + 1) as u64,
                data: self.data.insert(key, value),
                versions: self.versions.insert(key, self.next_version),
                ..self
            }
        }
    }

    /// What a client write sends: one message per backup.
    pub open spec fn write_outbox(
        self,
        key: Seq<char>,
        value: u64,
        backups: Seq<NodeId>,
    ) -> Seq<(NodeId, KvMsg)> {
        if !self.accepts_writes() {
            Seq::empty()
        } else {
            let msg = KvMsg::Replicate { key, value, version: self.next_version };
            backups.map_values(|b: NodeId| (b, msg))
        }
    }

    /// The node after it was told of a version of a key: it applies only what is
    /// newer than what it has.
    pub open spec fn replicated(self, key: Seq<char>, value: u64, version: u64) -> NodeState {
        if version > self.version_of(key) {
            NodeState {
                data: self.data.insert(key, value),
                versions: self.versions.insert(key, version),
                ..self
            }
        } else {
            self
        }
    }

    /// The node after it handled a message, and the replies.
    pub open spec fn handled(self, from: NodeId, msg: KvMsg) -> (NodeState, Seq<(NodeId, KvMsg)>) {
        if self.crashed {
            (self, Seq::empty())
        } else {
            match msg {
                KvMsg::Replicate { key, value, version } => (
                    self.replicated(key, value, version),
                    seq![(from, KvMsg::Ack { version })],
                ),
                KvMsg::Ack { .. } => (self, Seq::empty()),
            }
        }
    }

    pub open spec fn crash_set(self) -> NodeState {
        NodeState { crashed: true, ..self }
    }

    /// The node after a warm restart: it keeps what it had.
    pub open spec fn restarted(self) -> NodeState {
        NodeState { crashed: false, ..self }
    }
}

/// A single node's state.
pub struct Node {
    pub id: NodeId,
    pub is_primary: bool,
    /// Local key-value store.
    pub data: StringHashMap<u64>,
    /// Per-key version this node has applied.
    pub versions: StringHashMap<u64>,
    /// Primary's global version counter (only meaningful on the primary).
    pub next_version: u64,
    /// Whether the node is currently crashed (ignores all input).
    pub crashed: bool,
}

impl View for Node {
    type V = NodeState;

    open spec fn view(&self) -> NodeState {
        NodeState {
            id: self.id,
            is_primary: self.is_primary,
            data: self.data@,
            versions: self.versions@,
            next_version: self.next_version,
            crashed: self.crashed,
        }
    }
}

impl Node {
    pub fn new(id: NodeId, is_primary: bool) -> (node: Self)
        ensures
            node@ == NodeState::init(id, is_primary),
    {
        Node {
            id,
            is_primary,
            data: StringHashMap::new(),
            versions: StringHashMap::new(),
            next_version: 1,
            crashed: false,
        }
    }

    /// Local read (may be stale on a backup).
    pub fn read(&self, key: &str) -> (value: Option<u64>)
        ensures
            value == self@.value_of(key@),
    {
        match self.data.get(key) {
            Some(v) => Some(*v),
            None => None,
        }
    }

    /// Apply a client write on the primary. Returns the replication messages to
    /// send to backups (the caller hands them to the network). No-op (returns
    /// empty) if crashed or not primary.
    pub fn client_write(&mut self, key: &str, value: u64, backups: &[NodeId]) -> (outbox: Vec<
        (NodeId, Msg),
    >)
        requires
            old(self)@.accepts_writes() ==> old(self)@.next_version < u64::MAX,
        ensures
            final(self)@ == old(self)@.written(key@, value),
            outbox_view(outbox@) == old(self)@.write_outbox(key@, value, backups@),
    {
        let mut outbox: Vec<(NodeId, Msg)> = Vec::new();
        if self.crashed || !self.is_primary {
            assert(outbox_view(outbox@) =~= Seq::empty());
            return outbox;
        }
        let version = self.next_version;
        self.next_version = self.next_version + 1;
        self.data.insert(String::from_str(key), value);
        self.versions.insert(String::from_str(key), version);
        let ghost msg = KvMsg::Replicate { key: key@, value, version };
        let ghost send = |b: NodeId| (b, msg);
        let mut k: usize = 0;
        assert(outbox_view(outbox@) =~= backups@.take(0).map_values(send));
        while k < backups.len()
            invariant
                k <= backups@.len(),
                msg == (KvMsg::Replicate { key: key@, value, version }),
                send == |b: NodeId| (b, msg),
                outbox_view(outbox@) == backups@.take(k as int).map_values(send),
            decreases backups@.len() - k,
        {
            let b = backups[k];
            let m = Msg::Replicate { key: String::from_str(key), value, version };
            assert(m@ == msg);
            let ghost before = outbox@;
            outbox.push((b, m));
            assert(outbox_view(outbox@) =~= outbox_view(before).push((b, msg)));
            assert(backups@.take(k + 1).map_values(send) =~= backups@.take(k as int).map_values(
                send,
            ).push((b, msg)));
            k = k + 1;
        }
        assert(backups@.take(k as int) =~= backups@);
        outbox
    }

    /// Handle an incoming message. Returns any reply messages to send.
    pub fn handle(&mut self, from: NodeId, msg: Msg) -> (outbox: Vec<(NodeId, Msg)>)
        ensures
            final(self)@ == old(self)@.handled(from, msg@).0,
            outbox_view(outbox@) == old(self)@.handled(from, msg@).1,
    {
        let mut outbox: Vec<(NodeId, Msg)> = Vec::new();
        if self.crashed {
            assert(outbox_view(outbox@) =~= Seq::empty());
            return outbox;
        }
        match msg {
            Msg::Replicate { key, value, version } => {
                // Apply only if newer than what we have for this key (messages
                // can arrive out of order thanks to the network).
                let cur = match self.versions.get(key.as_str()) {
                    Some(v) => *v,
                    None => 0,
                };
                if version > cur {
                    self.data.insert(key.clone(), value);
                    self.versions.insert(key, version);
                }
                outbox.push((from, Msg::Ack { version }));
                assert(outbox_view(outbox@) =~= seq![(from, KvMsg::Ack { version })]);
            },
            Msg::Ack { .. } => {
                // The primary could track acks; not needed here.
                assert(outbox_view(outbox@) =~= Seq::empty());
            },
        }
        outbox
    }

    pub fn crash(&mut self)
        ensures
            final(self)@ == old(self)@.crash_set(),
    {
        self.crashed = true;
    }

    /// Restart: comes back up but keeps whatever state it had replicated (a
    /// warm restart). A cold restart (losing state) would be a harsher fault.
    pub fn restart(&mut self)
        ensures
            final(self)@ == old(self)@.restarted(),
    {
        self.crashed = false;
    }
}

/// Backups ignore stale updates: whatever message a node handles, the version it
/// has applied for a key never goes down, and its value changes only together
/// with a greater version.
pub proof fn versions_never_go_back(node: NodeState, from: NodeId, msg: KvMsg, key: Seq<char>)
    ensures
        node.handled(from, msg).0.version_of(key) >= node.version_of(key),
        node.handled(from, msg).0.version_of(key) == node.version_of(key) ==> node.handled(
            from,
            msg,
        ).0.value_of(key) == node.value_of(key),
{
}

/// Backups apply updates as if in order: two updates that carry different
/// versions leave the same state whichever arrives first.
pub proof fn replication_commutes(
    node: NodeState,
    k1: Seq<char>,
    v1: u64,
    n1: u64,
    k2: Seq<char>,
    v2: u64,
    n2: u64,
)
    requires
        n1 != n2,
    ensures
        node.replicated(k1, v1, n1).replicated(k2, v2, n2) == node.replicated(
            k2,
            v2,
            n2,
        ).replicated(k1, v1, n1),
{
    let a = node.replicated(k1, v1, n1).replicated(k2, v2, n2);
    let b = node.replicated(k2, v2, n2).replicated(k1, v1, n1);
    assert(a.data =~= b.data);
    assert(a.versions =~= b.versions);
}

/// A repeated update changes nothing.
pub proof fn replication_is_idempotent(node: NodeState, key: Seq<char>, value: u64, version: u64)
    ensures
        node.replicated(key, value, version).replicated(key, value, version) == node.replicated(
            key,
            value,
            version,
        ),
{
}

/// A crashed node ignores everything, and a restart brings back what it had.
pub proof fn crash_loses_nothing(
    node: NodeState,
    from: NodeId,
    msg: KvMsg,
    key: Seq<char>,
    value: u64,
    backups: Seq<NodeId>,
)
    requires
        !node.crashed,
    ensures
        node.crash_set().handled(from, msg) == (node.crash_set(), Seq::<(NodeId, KvMsg)>::empty()),
        node.crash_set().written(key, value) == node.crash_set(),
        node.crash_set().write_outbox(key, value, backups).len() == 0,
        node.crash_set().restarted() == node,
{
}

/// A read on the primary returns what was last written there.
pub proof fn primary_reads_its_writes(node: NodeState, key: Seq<char>, value: u64)
    requires
        node.accepts_writes(),
    ensures
        node.written(key, value).value_of(key) == Some(value),
{
}

/// A new node knows no key, has applied no version, and is up.
pub proof fn new_nodes_know_nothing(id: NodeId, is_primary: bool, key: Seq<char>)
    ensures
        ({
            let node = NodeState::init(id, is_primary);
            &&& node.id == id
            &&& node.is_primary == is_primary
            &&& !node.crashed
            &&& node.next_version == 1
            &&& node.value_of(key) is None
            &&& node.version_of(key) == 0
        }),
{
}

/// A client write changes no other key: neither what a local read of it returns nor
/// the version that was applied for it.
pub proof fn writes_change_one_key(
    node: NodeState,
    key: Seq<char>,
    value: u64,
    other: Seq<char>,
)
    requires
        other != key,
    ensures
        node.written(key, value).value_of(other) == node.value_of(other),
        node.written(key, value).version_of(other) == node.version_of(other),
{
}

/// A live primary applies a write under the next version, and tells every backup,
/// in the given order, the key, the value and that version.
pub proof fn writes_are_applied_and_sent(
    node: NodeState,
    key: Seq<char>,
    value: u64,
    backups: Seq<NodeId>,
    k: int,
)
    requires
        !node.crashed,
        node.is_primary,
        node.next_version < u64::MAX,
    ensures
        ({
            let after = node.written(key, value);
            let outbox = node.write_outbox(key, value, backups);
            &&& after.value_of(key) == Some(value)
            &&& after.version_of(key) == node.next_version
            &&& after.next_version == node.next_version + 1
            &&& after.id == node.id
            &&& after.is_primary
            &&& !after.crashed
            &&& outbox.len() == backups.len()
            &&& 0 <= k < backups.len() ==> outbox[k] == (
                backups[k],
                KvMsg::Replicate { key, value, version: node.next_version },
            )
        }),
{
}

/// A node that is down or not the primary refuses a write: it changes nothing and
/// sends nothing.
pub proof fn refused_writes_do_nothing(
    node: NodeState,
    key: Seq<char>,
    value: u64,
    backups: Seq<NodeId>,
)
    requires
        node.crashed || !node.is_primary,
    ensures
        node.written(key, value) == node,
        node.write_outbox(key, value, backups) == Seq::<(NodeId, KvMsg)>::empty(),
{
}

/// A live node that is told of a version of a key has, afterwards, the newer of the
/// two versions with its value; no other key changes, and the sender is told which
/// version was received.
pub proof fn replication_keeps_the_newer(
    node: NodeState,
    from: NodeId,
    key: Seq<char>,
    value: u64,
    version: u64,
    other: Seq<char>,
)
    requires
        !node.crashed,
    ensures
        ({
            let (after, replies) = node.handled(
                from,
                KvMsg::Replicate { key, value, version },
            );
            &&& version > node.version_of(key) ==> after.version_of(key) == version
                && after.value_of(key) == Some(value)
            &&& version <= node.version_of(key) ==> after.version_of(key) == node.version_of(key)
                && after.value_of(key) == node.value_of(key)
            &&& other != key ==> after.version_of(other) == node.version_of(other)
                && after.value_of(other) == node.value_of(other)
            &&& after.next_version == node.next_version
            &&& after.id == node.id
            &&& after.is_primary == node.is_primary
            &&& !after.crashed
            &&& replies =~= seq![(from, KvMsg::Ack { version })]
        }),
{
}

/// An acknowledgement changes nothing and is not answered.
pub proof fn acknowledgements_change_nothing(node: NodeState, from: NodeId, version: u64)
    ensures
        node.handled(from, KvMsg::Ack { version }) == (node, Seq::<(NodeId, KvMsg)>::empty()),
{
}

/// What the primary sends brings a live backup that is behind up to date.
pub proof fn replication_reaches_backups(
    primary: NodeState,
    backup: NodeState,
    key: Seq<char>,
    value: u64,
    backups: Seq<NodeId>,
    k: int,
)
    requires
        !primary.crashed,
        primary.is_primary,
        !backup.crashed,
        backup.version_of(key) < primary.next_version,
        0 <= k < backups.len(),
    ensures
        backup.handled(
            primary.id,
            primary.write_outbox(key, value, backups)[k].1,
        ).0.value_of(key) == primary.written(key, value).value_of(key),
{
}

/// A crash and a restart change nothing but whether the node is up.
pub proof fn crash_and_restart_set_the_flag(node: NodeState, key: Seq<char>)
    ensures
        node.crash_set().crashed,
        !node.restarted().crashed,
        node.crash_set().value_of(key) == node.value_of(key),
        node.crash_set().version_of(key) == node.version_of(key),
        node.crash_set().next_version == node.next_version,
        node.crash_set().is_primary == node.is_primary,
        node.crash_set().id == node.id,
        node.restarted().id == node.id,
        node.restarted().value_of(key) == node.value_of(key),
        node.restarted().version_of(key) == node.version_of(key),
        node.restarted().next_version == node.next_version,
        node.restarted().is_primary == node.is_primary,
{
}

} // verus!
