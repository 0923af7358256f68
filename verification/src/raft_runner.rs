//! Drives Raft inside the deterministic simulator under fault injection, and
//! checks Raft's core safety properties.
//!
//! Timers are modeled as periodic driver actions: each follower/candidate may
//! hit an election timeout (start an election), each leader periodically
//! heartbeats, and clients submit commands to whoever they think is leader.
//! Faults (partitions, crashes, restarts) are injected exactly as for the KV
//! system. After each step we check the two Raft safety invariants (election
//! safety and state-machine safety) against live state.

use crate::faults::{after_fault, draw_fault, fault_from, Fault};
use crate::net::{
    one_side, relabel, send_all_commutes_with_map, split_sides, wire, Deliver, NetConfig,
    NetState, Network, NodeId, Partition, Wire,
};
use crate::raft::{msg_view, outbox_view, RaftMsg, RaftNode, RaftState, Role, Rpc};
use crate::raft_range::{
    delivery_in_range, fault_in_range, in_range, init_in_range, limits_at, limits_delivered,
    limits_grow, limits_step, looser_limits, node_timers_in_range, send_cap,
    stabilizing_in_range, tick_delivery_in_range, tick_rest_in_range, timers_in_range,
    timers_keep_counters, Limits,
};
use crate::raft_run_laws::silent_clients_commit_nothing;
use crate::raft_safety::raft_is_safe;
use crate::sim::rng::{advance, after_below, after_index, draw_below, draw_index, happens};
use crate::sim::scheduler::{step_commutes_with_map, SchedState};
use crate::sim::{Prob, Rng, Scheduler};
use crate::text::{append_decimal, decimal};
use std::collections::HashMap;
use vstd::prelude::*;
use vstd::string::*;

verus! {

broadcast use vstd::std_specs::hash::group_hash_axioms;

/// What a Raft run is made of.
#[derive(Debug, Clone, Copy)]
pub struct RaftConfig {
    pub n_nodes: usize,
    pub ticks: u64,
    pub net: NetConfig,
    pub heartbeat_prob: Prob,
    pub client_prob: Prob,
    pub fault_prob: Prob,
    /// Ticks of a final "stabilization" phase during which NO new faults are
    /// injected, the network is healed, and all nodes are alive. Liveness is
    /// only checkable here: under continuous faults, FLP says consensus need not
    /// progress, so we require progress only once the system stabilizes. Set to
    /// 0 to disable the liveness phase.
    pub stabilize_ticks: u64,
    /// Introduce the match-index safety bug in every node, to demonstrate that
    /// the simulator catches it (a mutation test of the checker).
    pub inject_bug: bool,
}

/// Three in ten, rounded up to a multiple of 2^-53.
pub const DEFAULT_HEARTBEAT: u64 = 0x9_9999_9999_999A;

/// One in ten, rounded up to a multiple of 2^-53.
pub const DEFAULT_COMMAND: u64 = 0x3_3333_3333_3334;

/// Two in a hundred, rounded up to a multiple of 2^-53.
pub const DEFAULT_RAFT_FAULT: u64 = 0xA3D7_0A3D_70A4;

/// One in ten, rounded up to a multiple of 2^-53.
pub const CHURN_DROP: u64 = 0x3_3333_3333_3334;

/// Six in a hundred, rounded up to a multiple of 2^-53.
pub const CHURN_FAULT: u64 = 0x1_EB85_1EB8_51EC;

impl Default for RaftConfig {
    fn default() -> (c: Self)
        ensures
            c == RaftConfig::spec_default(),
            c.fits(),
    {
        let c = RaftConfig {
            n_nodes: 5,
            ticks: 3_000,
            net: NetConfig::default(),
            heartbeat_prob: Prob { threshold: DEFAULT_HEARTBEAT },
            client_prob: Prob { threshold: DEFAULT_COMMAND },
            fault_prob: Prob { threshold: DEFAULT_RAFT_FAULT },
            stabilize_ticks: 2_000,
            inject_bug: false,
        };
        proof {
            assert(5nat * 5nat == 25) by (nonlinear_arith);
            assert(c.sends_per_tick() == 51);
            assert(51nat * 5_000nat == 255_000) by (nonlinear_arith);
            assert(20nat * 5_001nat == 100_020) by (nonlinear_arith);
        }
        c
    }
}

impl RaftConfig {
    pub open spec fn spec_default() -> RaftConfig {
        RaftConfig {
            n_nodes: 5,
            ticks: 3_000,
            net: NetConfig::spec_default(),
            heartbeat_prob: Prob { threshold: DEFAULT_HEARTBEAT },
            client_prob: Prob { threshold: DEFAULT_COMMAND },
            fault_prob: Prob { threshold: DEFAULT_RAFT_FAULT },
            stabilize_ticks: 2_000,
            inject_bug: false,
        }
    }

    /// A profile with frequent elections and divergent logs, and the bug in every
    /// node.
    pub open spec fn churn_with_bug() -> RaftConfig {
        RaftConfig {
            n_nodes: 5,
            ticks: 6_000,
            net: NetConfig {
                drop_prob: Prob { threshold: CHURN_DROP },
                min_delay: 1,
                max_delay: 20,
            },
            fault_prob: Prob { threshold: CHURN_FAULT },
            stabilize_ticks: 0,
            inject_bug: true,
            ..RaftConfig::spec_default()
        }
    }

    /// The ticks of both phases.
    pub open spec fn total_ticks(self) -> nat {
        self.ticks as nat + self.stabilize_ticks as nat
    }

    /// The most messages that one tick can send: a reply, and from every node an
    /// election and a heartbeat.
    pub open spec fn sends_per_tick(self) -> nat {
        1 + 2 * (self.n_nodes as nat * self.n_nodes as nat)
    }

    /// The per-hop latency that the timeouts are derived from.
    pub open spec fn rtt(self) -> u64 {
        if self.net.max_delay >= 1 {
            self.net.max_delay
        } else {
            1
        }
    }

    /// A run never leaves the range of its counters and its clock.
    pub open spec fn fits(self) -> bool {
        &&& self.total_ticks() < usize::MAX
        &&& self.sends_per_tick() * self.total_ticks() <= u64::MAX
        &&& self.net.longest_delay() * (self.total_ticks() + 1) <= u64::MAX
        &&& 30 * self.rtt() <= u64::MAX
    }
}

/// A broken safety property.
#[derive(Debug, Clone)]
pub struct SafetyViolation {
    pub kind: String,
    pub detail: String,
    pub tick: u64,
}

/// The model of a broken safety property.
#[verifier::ext_equal]
pub struct SafetyFinding {
    pub kind: Seq<char>,
    pub detail: Seq<char>,
    pub tick: u64,
}

impl View for SafetyViolation {
    type V = SafetyFinding;

    open spec fn view(&self) -> SafetyFinding {
        SafetyFinding { kind: self.kind@, detail: self.detail@, tick: self.tick }
    }
}

/// The model of an optional violation.
pub open spec fn finding_of(v: Option<SafetyViolation>) -> Option<SafetyFinding> {
    match v {
        Some(v) => Some(v@),
        None => None,
    }
}

/// What a Raft run found.
pub struct RaftRunResult {
    pub seed: u64,
    pub violation: Option<SafetyViolation>,
    pub commands_committed: usize,
    pub leaders_elected: usize,
    /// Liveness verdict for the stabilization phase: `Some(true)` if the cluster
    /// elected a leader and advanced its commit index after faults stopped,
    /// `Some(false)` if it failed to make progress (a liveness violation),
    /// `None` if no stabilization phase was run.
    pub live: Option<bool>,
}

// ---- The safety check ----

/// The leaders seen in each term, in ascending order.
pub type Ledger = Map<u64, Seq<NodeId>>;

/// `id` put in its place among ascending ids.
pub open spec fn insert_sorted(ids: Seq<NodeId>, id: NodeId) -> Seq<NodeId>
    decreases ids.len(),
{
    if ids.len() == 0 {
        seq![id]
    } else if ids.last() < id {
        ids.push(id)
    } else if ids.last() == id {
        ids
    } else {
        insert_sorted(ids.drop_last(), id).push(ids.last())
    }
}

/// The leaders seen in `term`.
pub open spec fn leaders_of(ledger: Ledger, term: u64) -> Seq<NodeId> {
    if ledger.contains_key(term) {
        ledger[term]
    } else {
        Seq::empty()
    }
}

/// The ids strictly ascend: none occurs twice.
pub open spec fn ascends(ids: Seq<NodeId>) -> bool {
    forall|i: int, j: int| 0 <= i < j < ids.len() ==> #[trigger] ids[i] < #[trigger] ids[j]
}

/// The leaders of each term are listed in ascending order, each once.
pub open spec fn ledger_ascends(ledger: Ledger) -> bool {
    forall|term: u64| #[trigger] ledger.contains_key(term) ==> ascends(ledger[term])
}

/// The node leads `term`.
pub open spec fn leads_term(node: RaftState, term: u64) -> bool {
    node.role == Role::Leader && node.current_term == term
}

/// Node `id` was seen to lead `term`, or is one of the first `k` nodes and does now.
pub open spec fn has_led(
    nodes: Seq<RaftState>,
    ledger: Ledger,
    k: int,
    term: u64,
    id: NodeId,
) -> bool {
    leaders_of(ledger, term).contains(id) || exists|i: int|
        0 <= i < k && leads_term(#[trigger] nodes[i], term) && nodes[i].id == id
}

/// No node leads a term that another node leads or was seen to lead.
pub open spec fn elections_are_safe(nodes: Seq<RaftState>, ledger: Ledger) -> bool {
    forall|i: int, id: NodeId|
        0 <= i < nodes.len() && (#[trigger] nodes[i]).role == Role::Leader && #[trigger] has_led(
            nodes,
            ledger,
            nodes.len() as int,
            nodes[i].current_term,
            id,
        ) ==> id == nodes[i].id
}

/// The ledger after a look at one node.
pub open spec fn noted(ledger: Ledger, node: RaftState) -> Ledger {
    if node.role == Role::Leader {
        ledger.insert(
            node.current_term,
            insert_sorted(leaders_of(ledger, node.current_term), node.id),
        )
    } else {
        ledger
    }
}

/// The node leads a term that another node has led as well.
pub open spec fn is_rival(ledger: Ledger, node: RaftState) -> bool {
    node.role == Role::Leader && noted(ledger, node)[node.current_term].len() > 1
}

/// The ledger after a look at the first `k` nodes, which stops at the first rival,
/// and that rival.
pub open spec fn election_scan(nodes: Seq<RaftState>, ledger: Ledger, k: nat) -> (
    Ledger,
    Option<RaftState>,
)
    decreases k,
{
    if k == 0 {
        (ledger, None)
    } else {
        let (l, rival) = election_scan(nodes, ledger, (k - 1) as nat);
        if rival is Some {
            (l, rival)
        } else {
            let node = nodes[k - 1];
            (
                noted(l, node),
                if is_rival(l, node) {
                    Some(node)
                } else {
                    None
                },
            )
        }
    }
}

/// Ids with commas in between.
pub open spec fn listed(ids: Seq<NodeId>) -> Seq<char>
    decreases ids.len(),
{
    if ids.len() == 0 {
        Seq::empty()
    } else if ids.len() == 1 {
        decimal(ids[0] as nat)
    } else {
        listed(ids.drop_last()) + ", "@ + decimal(ids.last() as nat)
    }
}

/// The report on two leaders in one term.
pub open spec fn election_finding(term: u64, leaders: Seq<NodeId>, tick: u64) -> SafetyFinding {
    SafetyFinding {
        kind: "election_safety"@,
        detail: "term "@ + decimal(term as nat) + " had multiple leaders: {"@ + listed(leaders)
            + "} (two leaders in one term can each commit conflicting entries)"@,
        tick,
    }
}

/// Nodes `i` and `j` hold different entries at the 0-based index `x` that both
/// consider committed.
pub open spec fn disagree(nodes: Seq<RaftState>, i: int, j: int, x: int) -> bool {
    &&& 0 <= i < j < nodes.len()
    &&& 0 <= x < nodes[i].committed().len()
    &&& x < nodes[j].committed().len()
    &&& nodes[i].committed()[x] != nodes[j].committed()[x]
}

/// The order in which the disagreements are looked for.
pub open spec fn looked_at_before(i: int, j: int, x: int, p: int, q: int, y: int) -> bool {
    i < p || (i == p && j < q) || (i == p && j == q && x < y)
}

/// The first disagreement.
pub open spec fn first_disagreement(nodes: Seq<RaftState>, i: int, j: int, x: int) -> bool {
    &&& disagree(nodes, i, j, x)
    &&& forall|p: int, q: int, y: int|
        looked_at_before(p, q, y, i, j, x) ==> !#[trigger] disagree(nodes, p, q, y)
}

/// No two nodes disagree on what both consider committed.
pub open spec fn committed_logs_agree(nodes: Seq<RaftState>) -> bool {
    forall|i: int, j: int, x: int| !#[trigger] disagree(nodes, i, j, x)
}

/// The report on two committed logs that disagree.
pub open spec fn divergence_finding(
    nodes: Seq<RaftState>,
    i: int,
    j: int,
    x: int,
    tick: u64,
) -> SafetyFinding {
    let a = nodes[i].committed()[x];
    let b = nodes[j].committed()[x];
    SafetyFinding {
        kind: "state_machine_safety"@,
        detail: "nodes "@ + decimal(nodes[i].id as nat) + " and "@ + decimal(nodes[j].id as nat)
            + " disagree at committed index "@ + decimal((x + 1) as nat) + ": (term "@ + decimal(
            a.term as nat,
        ) + ", cmd "@ + decimal(a.command as nat) + ") vs (term "@ + decimal(b.term as nat)
            + ", cmd "@ + decimal(b.command as nat) + ")"@,
        tick,
    }
}

/// The verdict on the current state of the nodes, given the leaders seen so far.
pub open spec fn safety_verdict(
    nodes: Seq<RaftState>,
    ledger: Ledger,
    tick: u64,
) -> Option<SafetyFinding> {
    let (l, rival) = election_scan(nodes, ledger, nodes.len());
    match rival {
        Some(node) => Some(election_finding(node.current_term, l[node.current_term], tick)),
        None => if committed_logs_agree(nodes) {
            None
        } else {
            let (i, j, x) = choose|i: int, j: int, x: int| first_disagreement(nodes, i, j, x);
            Some(divergence_finding(nodes, i, j, x, tick))
        },
    }
}

/// The leaders seen after a check.
pub open spec fn ledger_after(nodes: Seq<RaftState>, ledger: Ledger) -> Ledger {
    election_scan(nodes, ledger, nodes.len()).0
}

// ---- The run ----

/// The model of the simulated world.
#[verifier::ext_equal]
pub struct RaftSim {
    pub wire: Wire<Rpc>,
    pub nodes: Seq<RaftState>,
    pub ledger: Ledger,
    pub commands: u64,
    pub elected: usize,
    pub violation: Option<SafetyFinding>,
}

/// The generator state after the timeouts of `k` nodes were drawn.
pub open spec fn armed_rng(seed: u64, cfg: RaftConfig, k: nat) -> u64
    decreases k,
{
    if k == 0 {
        seed
    } else {
        after_below(armed_rng(seed, cfg, (k - 1) as nat), (20 * cfg.rtt()) as u64)
    }
}

/// Node `i` with its randomized election timeout: many round trips, and spread
/// widely across nodes.
pub open spec fn armed_node(seed: u64, cfg: RaftConfig, i: nat) -> RaftState {
    let spread = draw_below(armed_rng(seed, cfg, i), (20 * cfg.rtt()) as u64);
    RaftState {
        inject_match_index_bug: cfg.inject_bug,
        ..RaftState::init(i as usize, cfg.n_nodes).timeout_set((10 * cfg.rtt() + spread) as u64)
    }
}

/// The greatest commit index of any node.
pub open spec fn max_commit(nodes: Seq<RaftState>) -> usize
    decreases nodes.len(),
{
    if nodes.len() == 0 {
        0
    } else {
        let rest = max_commit(nodes.drop_last());
        if nodes.last().commit_index > rest {
            nodes.last().commit_index
        } else {
            rest
        }
    }
}

/// Some node is a leader.
pub open spec fn has_leader(nodes: Seq<RaftState>) -> bool {
    exists|i: int| 0 <= i < nodes.len() && (#[trigger] nodes[i]).role == Role::Leader
}

impl RaftSim {
    pub open spec fn init(seed: u64, cfg: RaftConfig) -> RaftSim {
        RaftSim {
            wire: Wire {
                net: NetState::init(cfg.n_nodes, cfg.net),
                sched: SchedState::init(),
                rng: armed_rng(seed, cfg, cfg.n_nodes as nat),
            },
            nodes: Seq::new(cfg.n_nodes as nat, |i: int| armed_node(seed, cfg, i as nat)),
            ledger: Map::empty(),
            commands: 0,
            elected: 0,
            violation: None,
        }
    }

    pub open spec fn with_rng(self, rng: u64) -> RaftSim {
        RaftSim { wire: Wire { rng, ..self.wire }, ..self }
    }

    pub open spec fn with_node(self, id: int, node: RaftState) -> RaftSim {
        RaftSim { nodes: self.nodes.update(id, node), ..self }
    }

    /// The world after the messages of an outbox were sent.
    pub open spec fn sending(self, from: NodeId, outbox: Seq<(NodeId, Rpc)>) -> RaftSim {
        RaftSim { wire: self.wire.sent_all(from, outbox), ..self }
    }

    /// The earliest pending message has a node to go to.
    pub open spec fn has_delivery(self) -> bool {
        !self.wire.sched.quiet() && self.wire.sched.first_payload().to < self.nodes.len()
    }

    /// The world after its earliest pending message was taken off the queue.
    pub open spec fn popped(self) -> RaftSim {
        RaftSim { wire: Wire { sched: self.wire.sched.stepped(), ..self.wire }, ..self }
    }

    /// The world after its earliest pending message was delivered, if there is
    /// one.
    pub open spec fn delivered(self) -> RaftSim {
        if self.wire.sched.quiet() {
            self
        } else if !self.has_delivery() {
            self.popped()
        } else {
            let packet = self.wire.sched.first_payload();
            let (node, replies) = self.nodes[packet.to as int].handled(packet.from, packet.msg);
            self.popped().with_node(packet.to as int, node).sending(packet.to, replies)
        }
    }

    /// Whether that delivery makes its receiver a leader.
    pub open spec fn delivery_elects(self) -> bool {
        self.has_delivery() && {
            let packet = self.wire.sched.first_payload();
            let node = self.nodes[packet.to as int];
            node.role != Role::Leader && node.handled(packet.from, packet.msg).0.role
                == Role::Leader
        }
    }

    /// A delivery while faults are injected: elections are counted.
    pub open spec fn delivered_counting(self) -> RaftSim {
        RaftSim {
            elected: if self.delivery_elects() {
                (self.elected + 1) as usize
            } else {
                self.elected
            },
            ..self.delivered()
        }
    }

    /// The election timer of a live node.
    pub open spec fn election_timer(self, id: usize) -> RaftSim {
        let node = self.nodes[id as int];
        if node.times_out() {
            self.with_node(id as int, node.ticked().campaigning()).sending(
                id,
                node.ticked().campaign_outbox(),
            )
        } else {
            self.with_node(id as int, node.ticked())
        }
    }

    /// The heartbeat of a leader.
    pub open spec fn heartbeat_timer(self, cfg: RaftConfig, id: usize) -> RaftSim {
        let node = self.nodes[id as int];
        if node.role == Role::Leader {
            let s = self.with_rng(advance(self.wire.rng));
            if happens(self.wire.rng, cfg.heartbeat_prob) {
                s.sending(id, node.heartbeat_outbox())
            } else {
                s
            }
        } else {
            self
        }
    }

    /// The timers of one node; a crashed node has none.
    pub open spec fn node_timers(self, cfg: RaftConfig, id: usize) -> RaftSim {
        if self.nodes[id as int].crashed {
            self
        } else {
            self.election_timer(id).heartbeat_timer(cfg, id)
        }
    }

    /// The timers of the first `k` nodes.
    pub open spec fn timers(self, cfg: RaftConfig, k: nat) -> RaftSim
        decreases k,
    {
        if k == 0 {
            self
        } else {
            self.timers(cfg, (k - 1) as nat).node_timers(cfg, (k - 1) as usize)
        }
    }

    /// Maybe a client command to some node, which takes it if it leads.
    pub open spec fn client_phase(self, cfg: RaftConfig) -> RaftSim {
        let s = self.with_rng(advance(self.wire.rng));
        if happens(self.wire.rng, cfg.client_prob) {
            let t = s.with_rng(after_index(s.wire.rng, cfg.n_nodes));
            match draw_index(s.wire.rng, cfg.n_nodes) {
                Some(id) => if t.nodes[id as int].leads() {
                    let command = (t.commands + 1) as u64;
                    RaftSim { commands: command, ..t }.with_node(
                        id as int,
                        t.nodes[id as int].commanded(command),
                    )
                } else {
                    t
                },
                None => t,
            }
        } else {
            s
        }
    }

    /// The world after a fault.
    pub open spec fn faulted(self, f: Fault, n: usize) -> RaftSim {
        match f {
            Fault::Isolate(v) => RaftSim {
                wire: Wire {
                    net: NetState { side: split_sides(n, seq![v]), ..self.wire.net },
                    ..self.wire
                },
                ..self
            },
            Fault::Heal => self.healed(),
            Fault::Crash(v) => self.with_node(v as int, self.nodes[v as int].crash_set()),
            Fault::Restart(v) => self.with_node(v as int, self.nodes[v as int].restarted()),
            Fault::Nothing => self,
        }
    }

    /// The world after the network was healed.
    pub open spec fn healed(self) -> RaftSim {
        RaftSim {
            wire: Wire {
                net: NetState { side: one_side(self.wire.net.side.len()), ..self.wire.net },
                ..self.wire
            },
            ..self
        }
    }

    /// Maybe a fault.
    pub open spec fn fault_phase(self, cfg: RaftConfig) -> RaftSim {
        let s = self.with_rng(advance(self.wire.rng));
        if happens(self.wire.rng, cfg.fault_prob) {
            s.with_rng(after_fault(s.wire.rng, cfg.n_nodes)).faulted(
                fault_from(s.wire.rng, cfg.n_nodes),
                cfg.n_nodes,
            )
        } else {
            s
        }
    }

    /// The world after the safety check.
    pub open spec fn checked(self) -> RaftSim {
        RaftSim {
            ledger: ledger_after(self.nodes, self.ledger),
            violation: safety_verdict(self.nodes, self.ledger, self.wire.sched.now),
            ..self
        }
    }

    /// One tick while faults are injected.
    pub open spec fn chaos_tick(self, cfg: RaftConfig) -> RaftSim {
        self.delivered_counting().timers(cfg, cfg.n_nodes as nat).client_phase(cfg).fault_phase(
            cfg,
        ).checked()
    }

    /// One tick of the stabilization phase.
    pub open spec fn calm_tick(self, cfg: RaftConfig) -> RaftSim {
        self.delivered().timers(cfg, cfg.n_nodes as nat).client_phase(cfg).checked()
    }

    /// The world after `k` ticks of chaos, or fewer if safety broke.
    pub open spec fn chaos(self, cfg: RaftConfig, k: nat) -> RaftSim
        decreases k,
    {
        if k == 0 {
            self
        } else {
            let s = self.chaos(cfg, (k - 1) as nat);
            if s.violation is Some {
                s
            } else {
                s.chaos_tick(cfg)
            }
        }
    }

    /// The world after `k` calm ticks, or fewer if safety broke.
    pub open spec fn calm(self, cfg: RaftConfig, k: nat) -> RaftSim
        decreases k,
    {
        if k == 0 {
            self
        } else {
            let s = self.calm(cfg, (k - 1) as nat);
            if s.violation is Some {
                s
            } else {
                s.calm_tick(cfg)
            }
        }
    }

    /// The world at the start of the stabilization phase: the network is healed
    /// and every node is alive.
    pub open spec fn stabilizing(self) -> RaftSim {
        RaftSim {
            nodes: Seq::new(self.nodes.len(), |i: int| self.nodes[i].restarted()),
            ..self.healed()
        }
    }
}

/// The world at the end of the chaos phase of the run for `seed`.
pub open spec fn after_chaos(seed: u64, cfg: RaftConfig) -> RaftSim {
    RaftSim::init(seed, cfg).chaos(cfg, cfg.ticks as nat)
}

/// Whether the run for `seed` has a stabilization phase.
pub open spec fn stabilizes(seed: u64, cfg: RaftConfig) -> bool {
    after_chaos(seed, cfg).violation is None && cfg.stabilize_ticks > 0
}

/// The world at the end of the run for `seed`.
pub open spec fn final_world(seed: u64, cfg: RaftConfig) -> RaftSim {
    let s = after_chaos(seed, cfg);
    if stabilizes(seed, cfg) {
        s.stabilizing().calm(cfg, cfg.stabilize_ticks as nat)
    } else {
        s
    }
}

/// Whether a stabilized cluster is live: it has a leader and its commit index
/// advanced.
pub open spec fn live_verdict(seed: u64, cfg: RaftConfig) -> Option<bool> {
    let end = final_world(seed, cfg);
    if stabilizes(seed, cfg) {
        Some(
            end.violation is None && has_leader(end.nodes) && max_commit(end.nodes) > max_commit(
                after_chaos(seed, cfg).stabilizing().nodes,
            ),
        )
    } else {
        None
    }
}

/// Putting an id in its place only looks at the ids that are not greater.
proof fn insert_sorted_below(ids: Seq<NodeId>, id: NodeId, i: int)
    requires
        0 < i <= ids.len(),
        ids[i - 1] > id,
    ensures
        insert_sorted(ids.take(i), id) + ids.skip(i) == insert_sorted(ids.take(i - 1), id)
            + ids.skip(i - 1),
{
    let t = ids.take(i);
    assert(t.drop_last() =~= ids.take(i - 1));
    assert(t.last() == ids[i - 1]);
    assert(insert_sorted(ids.take(i - 1), id).push(ids[i - 1]) + ids.skip(i) =~= insert_sorted(
        ids.take(i - 1),
        id,
    ) + ids.skip(i - 1));
}

/// Putting an id in its place adds that id and no other, and keeps the order.
proof fn insert_sorted_adds(ids: Seq<NodeId>, id: NodeId)
    requires
        ascends(ids),
    ensures
        ascends(insert_sorted(ids, id)),
        forall|x: NodeId| #[trigger]
            insert_sorted(ids, id).contains(x) <==> ids.contains(x) || x == id,
    decreases ids.len(),
{
    let after = insert_sorted(ids, id);
    if ids.len() == 0 {
        assert(after[0] == id);
    } else if ids.last() < id {
        assert forall|x: NodeId| #[trigger] after.contains(x) <==> ids.contains(x) || x == id by {
            assert(after.last() == id);
            if ids.contains(x) {
                let i = choose|i: int| 0 <= i < ids.len() && ids[i] == x;
                assert(after[i] == x);
            }
        }
    } else if ids.last() == id {
        assert(ids[ids.len() - 1] == id);
    } else {
        let rest = ids.drop_last();
        let last = ids.last();
        insert_sorted_adds(rest, id);
        let lower = insert_sorted(rest, id);
        assert forall|i: int| 0 <= i < lower.len() implies #[trigger] lower[i] < last by {
            assert(lower.contains(lower[i]));
            if rest.contains(lower[i]) {
                let j = choose|j: int| 0 <= j < rest.len() && rest[j] == lower[i];
                assert(ids[j] < ids[ids.len() - 1]);
            }
        }
        assert forall|x: NodeId| #[trigger] after.contains(x) <==> ids.contains(x) || x == id by {
            if after.contains(x) {
                let i = choose|i: int| 0 <= i < after.len() && after[i] == x;
                if i < lower.len() {
                    assert(lower[i] == x);
                    assert(lower.contains(x));
                    if rest.contains(x) {
                        let j = choose|j: int| 0 <= j < rest.len() && rest[j] == x;
                        assert(ids[j] == x);
                    }
                } else {
                    assert(ids[ids.len() - 1] == x);
                }
            }
            if ids.contains(x) {
                let j = choose|j: int| 0 <= j < ids.len() && ids[j] == x;
                if j < rest.len() {
                    assert(rest[j] == x);
                    assert(lower.contains(x));
                } else {
                    assert(after[after.len() - 1] == x);
                }
            }
            if x == id {
                assert(lower.contains(x));
            }
            if lower.contains(x) {
                let i = choose|i: int| 0 <= i < lower.len() && lower[i] == x;
                assert(after[i] == x);
            }
        }
    }
}

/// Whoever has led by node `k - 1` has led before, or is that node.
proof fn has_led_step(nodes: Seq<RaftState>, ledger: Ledger, k: nat)
    requires
        0 < k <= nodes.len(),
    ensures
        forall|term: u64, id: NodeId|
            has_led(nodes, ledger, k as int, term, id) <==> #[trigger] has_led(
                nodes,
                ledger,
                k - 1,
                term,
                id,
            ) || (leads_term(nodes[k - 1], term) && nodes[k - 1].id == id),
{
    let j = k - 1;
    assert forall|term: u64, id: NodeId|
        has_led(nodes, ledger, k as int, term, id) <==> #[trigger] has_led(
            nodes,
            ledger,
            j,
            term,
            id,
        ) || (leads_term(nodes[j], term) && nodes[j].id == id) by {
        if has_led(nodes, ledger, k as int, term, id) && !leaders_of(ledger, term).contains(id) {
            let i = choose|i: int|
                0 <= i < k && leads_term(#[trigger] nodes[i], term) && nodes[i].id == id;
            assert(leads_term(nodes[i], term));
        }
        if has_led(nodes, ledger, j, term, id) && !leaders_of(ledger, term).contains(id) {
            let i = choose|i: int|
                0 <= i < j && leads_term(#[trigger] nodes[i], term) && nodes[i].id == id;
            assert(leads_term(nodes[i], term));
        }
    }
}

/// What a look at the first `k` nodes has found: as long as there is no rival, the
/// ledger holds whoever has led, and each leader is alone in its term; a rival is
/// one of two nodes that have led the same term.
proof fn scan_is_exact(nodes: Seq<RaftState>, ledger: Ledger, k: nat)
    requires
        ledger_ascends(ledger),
        k <= nodes.len(),
    ensures
        ({
            let (l, rival) = election_scan(nodes, ledger, k);
            &&& ledger_ascends(l)
            &&& rival is None ==> forall|term: u64, id: NodeId| #[trigger]
                leaders_of(l, term).contains(id) <==> has_led(nodes, ledger, k as int, term, id)
            &&& rival is None ==> forall|i: int, id: NodeId|
                0 <= i < k && (#[trigger] nodes[i]).role == Role::Leader && #[trigger] leaders_of(
                    l,
                    nodes[i].current_term,
                ).contains(id) ==> id == nodes[i].id
            &&& rival is Some ==> exists|i: int, id: NodeId|
                0 <= i < k && (#[trigger] nodes[i]).role == Role::Leader && #[trigger] has_led(
                    nodes,
                    ledger,
                    k as int,
                    nodes[i].current_term,
                    id,
                ) && id != nodes[i].id
        }),
    decreases k,
{
    if k > 0 {
        let j = (k - 1) as nat;
        scan_is_exact(nodes, ledger, j);
        let (l, rival) = election_scan(nodes, ledger, j);
        let node = nodes[j as int];
        let t = node.current_term;
        has_led_step(nodes, ledger, k);
        if rival is Some {
            let (i, id) = choose|i: int, id: NodeId|
                0 <= i < j && (#[trigger] nodes[i]).role == Role::Leader && #[trigger] has_led(
                    nodes,
                    ledger,
                    j as int,
                    nodes[i].current_term,
                    id,
                ) && id != nodes[i].id;
            assert(has_led(nodes, ledger, k as int, nodes[i].current_term, id));
        } else if node.role == Role::Leader {
            scan_notes_leader(nodes, ledger, l, k);
        } else {
            assert(noted(l, node) == l);
            assert forall|term: u64, id: NodeId| #[trigger]
                leaders_of(l, term).contains(id) <==> has_led(
                    nodes,
                    ledger,
                    k as int,
                    term,
                    id,
                ) by {
                assert(has_led(nodes, ledger, j as int, term, id) <==> leaders_of(
                    l,
                    term,
                ).contains(id));
            }
        }
    }
}

/// The step of `scan_is_exact` at a leader.
proof fn scan_notes_leader(nodes: Seq<RaftState>, ledger: Ledger, l: Ledger, k: nat)
    requires
        0 < k <= nodes.len(),
        nodes[k - 1].role == Role::Leader,
        ledger_ascends(l),
        forall|term: u64, id: NodeId| #[trigger]
            leaders_of(l, term).contains(id) <==> has_led(nodes, ledger, k - 1, term, id),
        forall|i: int, id: NodeId|
            0 <= i < k - 1 && (#[trigger] nodes[i]).role == Role::Leader && #[trigger] leaders_of(
                l,
                nodes[i].current_term,
            ).contains(id) ==> id == nodes[i].id,
        forall|term: u64, id: NodeId|
            has_led(nodes, ledger, k as int, term, id) <==> #[trigger] has_led(
                nodes,
                ledger,
                k - 1,
                term,
                id,
            ) || (leads_term(nodes[k - 1], term) && nodes[k - 1].id == id),
    ensures
        ({
            let node = nodes[k - 1];
            let after = noted(l, node);
            &&& ledger_ascends(after)
            &&& forall|term: u64, id: NodeId| #[trigger]
                leaders_of(after, term).contains(id) <==> has_led(
                    nodes,
                    ledger,
                    k as int,
                    term,
                    id,
                )
            &&& !is_rival(l, node) ==> forall|i: int, id: NodeId|
                0 <= i < k && (#[trigger] nodes[i]).role == Role::Leader && #[trigger] leaders_of(
                    after,
                    nodes[i].current_term,
                ).contains(id) ==> id == nodes[i].id
            &&& is_rival(l, node) ==> exists|id: NodeId| #[trigger]
                has_led(nodes, ledger, k as int, node.current_term, id) && id != node.id
        }),
{
    let node = nodes[k - 1];
    let t = node.current_term;
    let row = leaders_of(l, t);
    let after = noted(l, node);
    let next = insert_sorted(row, node.id);
    insert_sorted_adds(row, node.id);
    assert(leaders_of(after, t) == next);
    assert forall|term: u64| term != t implies #[trigger] leaders_of(after, term) == leaders_of(
        l,
        term,
    ) by {}
    assert forall|term: u64, id: NodeId| #[trigger]
        leaders_of(after, term).contains(id) <==> has_led(
            nodes,
            ledger,
            k as int,
            term,
            id,
        ) by {
        assert(leaders_of(l, term).contains(id) <==> has_led(nodes, ledger, k - 1, term, id));
    }
    assert(next.contains(node.id));
    if is_rival(l, node) {
        let id = if next[0] != node.id {
            next[0]
        } else {
            next[1]
        };
        assert(next[0] < next[1]);
        assert(next.contains(id));
        assert(leaders_of(after, t).contains(id));
    } else {
        assert(next.len() == 1);
        assert forall|i: int, id: NodeId|
            0 <= i < k && (#[trigger] nodes[i]).role == Role::Leader && #[trigger] leaders_of(
                after,
                nodes[i].current_term,
            ).contains(id) implies id == nodes[i].id by {
            if nodes[i].current_term == t {
                assert(leads_term(nodes[i], t));
                assert(has_led(nodes, ledger, k as int, t, nodes[i].id));
                assert(leaders_of(after, t).contains(nodes[i].id));
            } else {
                assert(leaders_of(l, nodes[i].current_term).contains(id));
            }
        }
    }
}

/// The check is exact: it finds nothing if and only if no node leads a term that
/// another node leads or was seen to lead, and no two nodes disagree on what both
/// consider committed. If it finds nothing, it remembers whoever has led.
pub proof fn the_check_is_exact(nodes: Seq<RaftState>, ledger: Ledger, tick: u64)
    requires
        ledger_ascends(ledger),
    ensures
        safety_verdict(nodes, ledger, tick) is None <==> elections_are_safe(nodes, ledger)
            && committed_logs_agree(nodes),
        election_scan(nodes, ledger, nodes.len()).1 is None <==> elections_are_safe(nodes, ledger),
        ledger_ascends(ledger_after(nodes, ledger)),
        safety_verdict(nodes, ledger, tick) is None ==> forall|term: u64, id: NodeId| #[trigger]
            leaders_of(ledger_after(nodes, ledger), term).contains(id) <==> has_led(
                nodes,
                ledger,
                nodes.len() as int,
                term,
                id,
            ),
{
    scan_is_exact(nodes, ledger, nodes.len());
    let (l, rival) = election_scan(nodes, ledger, nodes.len());
    if rival is None {
        assert forall|i: int, id: NodeId|
            0 <= i < nodes.len() && (#[trigger] nodes[i]).role == Role::Leader
                && #[trigger] has_led(
                nodes,
                ledger,
                nodes.len() as int,
                nodes[i].current_term,
                id,
            ) implies id == nodes[i].id by {
            assert(leaders_of(l, nodes[i].current_term).contains(id));
        }
    }
}

/// A look that finds a rival stops at the first one.
proof fn scan_stops_at_the_first_rival(nodes: Seq<RaftState>, ledger: Ledger, k: nat) -> (m: nat)
    requires
        election_scan(nodes, ledger, k).1 is Some,
    ensures
        m < k,
        election_scan(nodes, ledger, m).1 is None,
        is_rival(election_scan(nodes, ledger, m).0, nodes[m as int]),
        election_scan(nodes, ledger, k) == (
            noted(election_scan(nodes, ledger, m).0, nodes[m as int]),
            Some(nodes[m as int]),
        ),
    decreases k,
{
    let j = (k - 1) as nat;
    if election_scan(nodes, ledger, j).1 is Some {
        scan_stops_at_the_first_rival(nodes, ledger, j)
    } else {
        j
    }
}

/// What a report on rival leaders says. It is about the first node `k` that leads a term
/// that one before it leads, or that someone else was seen to lead, and lists, in
/// ascending order, whoever has led that term by then.
pub proof fn rivals_are_listed(nodes: Seq<RaftState>, ledger: Ledger, tick: u64) -> (r: (
    int,
    Seq<NodeId>,
))
    requires
        ledger_ascends(ledger),
        !elections_are_safe(nodes, ledger),
    ensures
        ({
            let (k, leaders) = r;
            let term = nodes[k].current_term;
            &&& 0 <= k < nodes.len()
            &&& nodes[k].role == Role::Leader
            &&& forall|i: int, id: NodeId|
                0 <= i < k && (#[trigger] nodes[i]).role == Role::Leader && #[trigger] has_led(
                    nodes,
                    ledger,
                    k,
                    nodes[i].current_term,
                    id,
                ) ==> id == nodes[i].id
            &&& leaders.len() > 1
            &&& leaders.contains(nodes[k].id)
            &&& forall|i: int, j: int|
                0 <= i < j < leaders.len() ==> #[trigger] leaders[i] < #[trigger] leaders[j]
            &&& forall|id: NodeId| #[trigger]
                leaders.contains(id) <==> has_led(nodes, ledger, k + 1, term, id)
            &&& safety_verdict(nodes, ledger, tick) == Some(
                SafetyFinding {
                    kind: "election_safety"@,
                    detail: "term "@ + decimal(term as nat) + " had multiple leaders: {"@ + listed(
                        leaders,
                    ) + "} (two leaders in one term can each commit conflicting entries)"@,
                    tick,
                },
            )
        }),
{
    the_check_is_exact(nodes, ledger, tick);
    let m = scan_stops_at_the_first_rival(nodes, ledger, nodes.len());
    let node = nodes[m as int];
    let term = node.current_term;
    let l = election_scan(nodes, ledger, m).0;
    let leaders = noted(l, node)[term];
    let k = m as int;
    scan_is_exact(nodes, ledger, m);
    has_led_step(nodes, ledger, m + 1);
    scan_notes_leader(nodes, ledger, l, m + 1);
    assert(leaders == leaders_of(noted(l, node), term));
    assert(ascends(leaders));
    assert forall|id: NodeId| #[trigger]
        leaders.contains(id) <==> has_led(nodes, ledger, k + 1, term, id) by {
        assert(leaders_of(noted(l, node), term).contains(id) <==> has_led(
            nodes,
            ledger,
            k + 1,
            term,
            id,
        ));
    }
    assert(leads_term(node, term));
    assert(has_led(nodes, ledger, k + 1, term, node.id));
    assert forall|i: int, id: NodeId|
        0 <= i < m && (#[trigger] nodes[i]).role == Role::Leader && #[trigger] has_led(
            nodes,
            ledger,
            m as int,
            nodes[i].current_term,
            id,
        ) implies id == nodes[i].id by {
        assert(leaders_of(l, nodes[i].current_term).contains(id));
    }
    (k, leaders)
}

/// A list has a comma between neighbours.
pub proof fn lists_are_separated_by_commas(ids: Seq<NodeId>, id: NodeId)
    ensures
        listed(Seq::empty()) == Seq::<char>::empty(),
        listed(seq![id]) == decimal(id as nat),
        ids.len() > 0 ==> listed(ids.push(id)) == listed(ids) + ", "@ + decimal(id as nat),
{
    assert(ids.push(id).drop_last() =~= ids);
}

/// The leaders seen in each term, in ascending order.
pub struct SeenLeaders {
    terms: HashMap<u64, Vec<NodeId>>,
}

impl View for SeenLeaders {
    type V = Ledger;

    closed spec fn view(&self) -> Ledger {
        self.terms@.map_values(|ids: Vec<NodeId>| ids@)
    }
}

impl SeenLeaders {
    /// No id is listed twice in a term.
    #[verifier::type_invariant]
    spec fn is_ledger(self) -> bool {
        ledger_ascends(self@)
    }

    pub fn new() -> (seen: Self)
        ensures
            seen@ == Map::<u64, Seq<NodeId>>::empty(),
    {
        let seen = SeenLeaders { terms: HashMap::new() };
        assert(seen@ =~= Map::<u64, Seq<NodeId>>::empty());
        seen
    }

    /// Note that `id` leads `term`. Returns the leaders of that term if there is
    /// more than one.
    fn note(&mut self, term: u64, id: NodeId) -> (rivals: Option<String>)
        ensures
            final(self)@ == old(self)@.insert(term, insert_sorted(leaders_of(old(self)@, term), id)),
            rivals is Some <==> final(self)@[term].len() > 1,
            rivals matches Some(text) ==> text@ == listed(final(self)@[term]),
    {
        proof {
            use_type_invariant(&*self);
        }
        let ghost ledger = self@;
        let mut terms: HashMap<u64, Vec<NodeId>> = HashMap::new();
        std::mem::swap(&mut terms, &mut self.terms);
        let mut ids: Vec<NodeId> = match terms.remove(&term) {
            Some(v) => v,
            None => Vec::new(),
        };
        let ghost before = ids@;
        assert(before =~= leaders_of(ledger, term));
        let mut i: usize = ids.len();
        assert(before.take(i as int) =~= before);
        assert(insert_sorted(before, id) + before.skip(i as int) =~= insert_sorted(before, id));
        while i > 0 && ids[i - 1] > id
            invariant
                i <= ids@.len(),
                ids@ == before,
                insert_sorted(before, id) == insert_sorted(before.take(i as int), id)
                    + before.skip(i as int),
            decreases i,
        {
            proof {
                insert_sorted_below(before, id, i as int);
            }
            i = i - 1;
        }
        proof {
            let t = before.take(i as int);
            if i > 0 {
                assert(t.last() == before[i - 1]);
                if before[i - 1] == id {
                    assert(t + before.skip(i as int) =~= before);
                } else {
                    assert(t.push(id) + before.skip(i as int) =~= before.insert(i as int, id));
                }
            } else {
                assert(seq![id] + before.skip(0) =~= before.insert(0, id));
            }
        }
        if i > 0 && ids[i - 1] == id {
            // Already known.
        } else {
            ids.insert(i, id);
        }
        let rivals = if ids.len() > 1 {
            Some(list_ids(&ids))
        } else {
            None
        };
        terms.insert(term, ids);
        proof {
            let after = ledger.insert(term, insert_sorted(leaders_of(ledger, term), id));
            insert_sorted_adds(leaders_of(ledger, term), id);
            assert(terms@.map_values(|ids: Vec<NodeId>| ids@) =~= after);
            assert(ledger_ascends(after));
        }
        self.terms = terms;
        rivals
    }
}

fn list_ids(ids: &Vec<NodeId>) -> (text: String)
    ensures
        text@ == listed(ids@),
{
    let mut text = String::new();
    let mut i: usize = 0;
    while i < ids.len()
        invariant
            i <= ids@.len(),
            text@ == listed(ids@.take(i as int)),
        decreases ids@.len() - i,
    {
        let ghost next = ids@.take(i + 1);
        assert(next.drop_last() =~= ids@.take(i as int));
        if i > 0 {
            text.append(", ");
        }
        append_decimal(&mut text, ids[i] as u64);
        assert(text@ =~= listed(next));
        i = i + 1;
    }
    assert(ids@.take(i as int) =~= ids@);
    text
}

/// The models of the nodes.
pub open spec fn node_views(nodes: Seq<RaftNode>) -> Seq<RaftState> {
    nodes.map_values(|n: RaftNode| n@)
}

fn election_violation(term: u64, listing: String, tick: u64, leaders: Ghost<Seq<NodeId>>) -> (v:
    SafetyViolation)
    requires
        listing@ == listed(leaders@),
    ensures
        v@ == election_finding(term, leaders@, tick),
{
    let mut detail = String::new();
    detail.append("term ");
    append_decimal(&mut detail, term);
    detail.append(" had multiple leaders: {");
    detail.append(listing.as_str());
    detail.append("} (two leaders in one term can each commit conflicting entries)");
    let v = SafetyViolation { kind: String::from_str("election_safety"), detail, tick };
    assert(v@ =~= election_finding(term, leaders@, tick));
    v
}

fn divergence_violation(nodes: &[RaftNode], i: usize, j: usize, x: usize, tick: u64) -> (v:
    SafetyViolation)
    requires
        disagree(node_views(nodes@), i as int, j as int, x as int),
    ensures
        v@ == divergence_finding(node_views(nodes@), i as int, j as int, x as int, tick),
{
    let a = nodes[i].committed_log()[x];
    let b = nodes[j].committed_log()[x];
    let mut detail = String::new();
    detail.append("nodes ");
    append_decimal(&mut detail, nodes[i].id as u64);
    detail.append(" and ");
    append_decimal(&mut detail, nodes[j].id as u64);
    detail.append(" disagree at committed index ");
    append_decimal(&mut detail, x as u64 + 1);
    detail.append(": (term ");
    append_decimal(&mut detail, a.term);
    detail.append(", cmd ");
    append_decimal(&mut detail, a.command);
    detail.append(") vs (term ");
    append_decimal(&mut detail, b.term);
    detail.append(", cmd ");
    append_decimal(&mut detail, b.command);
    detail.append(")");
    let v = SafetyViolation { kind: String::from_str("state_machine_safety"), detail, tick };
    assert(v@ =~= divergence_finding(node_views(nodes@), i as int, j as int, x as int, tick));
    v
}

/// The first disagreement decides the verdict.
proof fn first_disagreement_is_unique(
    nodes: Seq<RaftState>,
    i: int,
    j: int,
    x: int,
    p: int,
    q: int,
    y: int,
)
    requires
        first_disagreement(nodes, i, j, x),
        first_disagreement(nodes, p, q, y),
    ensures
        i == p && j == q && x == y,
{
    if looked_at_before(i, j, x, p, q, y) {
        assert(!disagree(nodes, i, j, x));
    } else if looked_at_before(p, q, y, i, j, x) {
        assert(!disagree(nodes, p, q, y));
    }
}

/// Find where two nodes first disagree on what both consider committed.
fn find_divergence(nodes: &[RaftNode], tick: u64) -> (r: Option<SafetyViolation>)
    ensures
        r is None <==> committed_logs_agree(node_views(nodes@)),
        r matches Some(v) ==> exists|i: int, j: int, x: int|
            #![trigger divergence_finding(node_views(nodes@), i, j, x, tick)]
            first_disagreement(node_views(nodes@), i, j, x) && v@ == divergence_finding(
                node_views(nodes@),
                i,
                j,
                x,
                tick,
            ),
{
    let ghost views = node_views(nodes@);
    let mut i: usize = 0;
    while i < nodes.len()
        invariant
            i <= nodes@.len(),
            views == node_views(nodes@),
            forall|p: int, q: int, y: int| p < i ==> !#[trigger] disagree(views, p, q, y),
        decreases nodes@.len() - i,
    {
        let mut j: usize = i + 1;
        while j < nodes.len()
            invariant
                i < j <= nodes@.len(),
                views == node_views(nodes@),
                forall|p: int, q: int, y: int|
                    p < i || (p == i && q < j) ==> !#[trigger] disagree(views, p, q, y),
            decreases nodes@.len() - j,
        {
            let a = nodes[i].committed_log();
            let b = nodes[j].committed_log();
            let common = if a.len() <= b.len() {
                a.len()
            } else {
                b.len()
            };
            let mut x: usize = 0;
            while x < common
                invariant
                    i < j < nodes@.len(),
                    views == node_views(nodes@),
                    a@ == views[i as int].committed(),
                    b@ == views[j as int].committed(),
                    x <= common,
                    common <= a@.len(),
                    common <= b@.len(),
                    forall|p: int, q: int, y: int|
                        p < i || (p == i && q < j) ==> !#[trigger] disagree(views, p, q, y),
                    forall|y: int| 0 <= y < x ==> a@[y] == b@[y],
                decreases common - x,
            {
                if a[x] != b[x] {
                    proof {
                        assert(disagree(views, i as int, j as int, x as int));
                        assert(first_disagreement(views, i as int, j as int, x as int));
                    }
                    return Some(divergence_violation(nodes, i, j, x, tick));
                }
                x = x + 1;
            }
            j = j + 1;
        }
        i = i + 1;
    }
    None
}

/// Check Raft's two headline safety properties against current node state.
///
/// Election safety: at most one leader per term, over all terms ever seen.
///
/// State machine safety: no two nodes hold DIFFERENT entries at an index that
/// BOTH currently consider committed. The comparison is rebuilt from live state
/// each time: comparing against a record of what was once seen committed would
/// give false positives, since a node may have marked an entry committed only
/// locally.
pub fn check_safety(nodes: &[RaftNode], seen: &mut SeenLeaders, tick: u64) -> (r: Option<
    SafetyViolation,
>)
    ensures
        finding_of(r) == safety_verdict(node_views(nodes@), old(seen)@, tick),
        final(seen)@ == ledger_after(node_views(nodes@), old(seen)@),
        r is None <==> elections_are_safe(node_views(nodes@), old(seen)@) && committed_logs_agree(
            node_views(nodes@),
        ),
        ledger_ascends(final(seen)@),
{
    proof {
        use_type_invariant(&*seen);
    }
    let ghost views = node_views(nodes@);
    let ghost ledger = seen@;
    let mut k: usize = 0;
    while k < nodes.len()
        invariant
            k <= nodes@.len(),
            views == node_views(nodes@),
            ledger == old(seen)@,
            ledger_ascends(ledger),
            election_scan(views, ledger, k as nat) == (seen@, None::<RaftState>),
        decreases nodes@.len() - k,
    {
        let node = &nodes[k];
        assert(views[k as int] == node@);
        if node.role == Role::Leader {
            let rivals = seen.note(node.current_term, node.id);
            if let Some(listing) = rivals {
                let v = election_violation(
                    node.current_term,
                    listing,
                    tick,
                    Ghost(seen@[node.current_term]),
                );
                proof {
                    assert(election_scan(views, ledger, (k + 1) as nat) == (seen@, Some(node@)));
                    rival_ends_scan(views, ledger, (k + 1) as nat, views.len());
                    the_check_is_exact(views, ledger, tick);
                }
                return Some(v);
            }
        }
        k = k + 1;
    }
    let r = find_divergence(nodes, tick);
    proof {
        the_check_is_exact(views, ledger, tick);
        if r is Some {
            let v = r->0;
            let (i, j, x) = choose|i: int, j: int, x: int|
                #![trigger divergence_finding(views, i, j, x, tick)]
                first_disagreement(views, i, j, x) && v@ == divergence_finding(
                    views,
                    i,
                    j,
                    x,
                    tick,
                );
            let (p, q, y) = choose|p: int, q: int, y: int| first_disagreement(views, p, q, y);
            first_disagreement_is_unique(views, i, j, x, p, q, y);
        }
    }
    r
}

proof fn rival_ends_scan(nodes: Seq<RaftState>, ledger: Ledger, k: nat, n: nat)
    requires
        k <= n,
        election_scan(nodes, ledger, k).1 is Some,
    ensures
        election_scan(nodes, ledger, n) == election_scan(nodes, ledger, k),
    decreases n,
{
    if k < n {
        rival_ends_scan(nodes, ledger, k, (n - 1) as nat);
    }
}

// ---- The runner ----

/// The simulated world.
struct World {
    rng: Rng,
    sched: Scheduler<Deliver<RaftMsg>>,
    net: Network,
    nodes: Vec<RaftNode>,
    seen: SeenLeaders,
    commands: u64,
    elected: usize,
    violation: Option<SafetyViolation>,
}

impl World {
    spec fn view(&self) -> RaftSim {
        RaftSim {
            wire: wire(self.net, self.sched, self.rng).map_messages(msg_view()),
            nodes: node_views(self.nodes@),
            ledger: self.seen@,
            commands: self.commands,
            elected: self.elected,
            violation: finding_of(self.violation),
        }
    }

    /// Give each node a randomized election timeout (the standard Raft technique
    /// to avoid split-vote livelock). Two rules matter for progress: the timeout
    /// must be well above the network round-trip (so votes/heartbeats arrive
    /// before a node re-times-out), and it must be widely spread across nodes (so
    /// they don't all time out together and split the vote). max_delay is the
    /// per-hop latency, so we set timeouts to many round-trips, spread ~3x.
    fn new(seed: u64, cfg: &RaftConfig) -> (w: World)
        requires
            cfg.fits(),
        ensures
            w@ == RaftSim::init(seed, *cfg),
            w.sched.wf(),
    {
        let mut rng = Rng::new(seed);
        let rtt: u64 = if cfg.net.max_delay >= 1 {
            cfg.net.max_delay
        } else {
            1
        };
        let mut nodes: Vec<RaftNode> = Vec::new();
        let mut i: usize = 0;
        while i < cfg.n_nodes
            invariant
                cfg.fits(),
                i <= cfg.n_nodes,
                rtt == cfg.rtt(),
                nodes@.len() == i,
                rng@ == armed_rng(seed, *cfg, i as nat),
                forall|j: int|
                    0 <= j < i ==> (#[trigger] nodes@[j])@ == armed_node(seed, *cfg, j as nat),
            decreases cfg.n_nodes - i,
        {
            let mut node = RaftNode::new(i, cfg.n_nodes);
            node.set_base_timeout(10 * rtt + rng.below(20 * rtt));
            node.inject_match_index_bug = cfg.inject_bug;
            assert(node@ =~= armed_node(seed, *cfg, i as nat));
            nodes.push(node);
            i = i + 1;
        }
        let w = World {
            rng,
            sched: Scheduler::new(),
            net: Network::new(cfg.n_nodes, cfg.net),
            nodes,
            seen: SeenLeaders::new(),
            commands: 0,
            elected: 0,
            violation: None,
        };
        assert(w@ =~= RaftSim::init(seed, *cfg));
        w
    }

    /// Send an outbox.
    fn send_all(&mut self, from: NodeId, outbox: Vec<(NodeId, RaftMsg)>)
        requires
            old(self).sched.wf(),
            old(self)@.wire.has_room(outbox@.len()),
        ensures
            final(self).sched.wf(),
            final(self)@ == old(self)@.sending(from, outbox_view(outbox@)),
    {
        proof {
            send_all_commutes_with_map(
                wire(self.net, self.sched, self.rng),
                msg_view(),
                from,
                outbox@,
            );
        }
        self.net.send_all(&mut self.sched, &mut self.rng, from, outbox);
    }

    /// Deliver one pending network message. Says whether it made a leader.
    fn deliver(&mut self, cfg: &RaftConfig, t: Ghost<nat>) -> (elects: bool)
        requires
            cfg.fits(),
            t@ < cfg.total_ticks(),
            old(self).sched.wf(),
            in_range(old(self)@, *cfg, limits_at(*cfg, t@)),
        ensures
            final(self).sched.wf(),
            final(self)@ == old(self)@.delivered(),
            elects == old(self)@.delivery_elects(),
    {
        let ghost s = self@;
        proof {
            limits_step(*cfg, t@);
            delivery_in_range(s, *cfg, limits_at(*cfg, t@));
            self.sched.view_is_wf();
            assert(self.sched@.map_payloads(relabel(msg_view())).quiet() == self.sched@.quiet());
            if !self.sched@.quiet() {
                step_commutes_with_map(self.sched@, relabel(msg_view()));
            }
        }
        match self.sched.step() {
            None => false,
            Some(ev) => {
                let Deliver { from, to, msg } = ev.payload;
                let ghost packet = s.wire.sched.first_payload();
                assert(packet == Deliver { from, to, msg: msg@ });
                assert(self@ =~= s.popped());
                if to < self.nodes.len() {
                    let ghost nodes0 = self.nodes@;
                    let ghost node = self.nodes@[to as int]@;
                    let ghost m = msg@;
                    let was_leader = self.nodes[to].role == Role::Leader;
                    let replies = self.nodes[to].handle(from, msg);
                    assert(node_views(self.nodes@) =~= node_views(nodes0).update(
                        to as int,
                        node.handled(from, m).0,
                    ));
                    assert(replies@.len() == node.handled(from, m).1.len());
                    let elects = !was_leader && self.nodes[to].role == Role::Leader;
                    assert(self@ =~= s.popped().with_node(to as int, node.handled(from, m).0));
                    self.send_all(to, replies);
                    elects
                } else {
                    false
                }
            },
        }
    }

    /// The timers of one node: its election timeout, and its heartbeat if it
    /// leads.
    fn node_timers(&mut self, cfg: &RaftConfig, id: usize, lim: Ghost<Limits>)
        requires
            cfg.fits(),
            old(self).sched.wf(),
            in_range(old(self)@, *cfg, lim@),
            id < cfg.n_nodes,
            lim@.fired <= cfg.total_ticks(),
            cfg.total_ticks() > 0,
            lim@.sent + 2 * cfg.n_nodes <= send_cap(*cfg),
            lim@.term + 1 <= u64::MAX,
        ensures
            final(self).sched.wf(),
            final(self)@ == old(self)@.node_timers(*cfg, id),
    {
        let ghost s = self@;
        proof {
            node_timers_in_range(s, *cfg, lim@, id);
        }
        if self.nodes[id].crashed {
            return ;
        }
        let ghost node = self.nodes@[id as int]@;
        let ghost nodes0 = self.nodes@;
        // Election timeout fires via each node's randomized countdown.
        if self.nodes[id].tick_election_timer() {
            let outbox = self.nodes[id].start_election();
            assert(node_views(self.nodes@) =~= node_views(nodes0).update(
                id as int,
                node.ticked().campaigning(),
            ));
            assert(outbox@.len() == node.ticked().campaign_outbox().len());
            assert(self@ =~= s.with_node(id as int, node.ticked().campaigning()));
            self.send_all(id, outbox);
        }
        assert(node_views(self.nodes@) =~= s.election_timer(id).nodes);
        assert(self@ =~= s.election_timer(id));
        if self.nodes[id].role == Role::Leader {
            let ghost e = self@;
            let ghost m = self.nodes@[id as int]@;
            if self.rng.chance(cfg.heartbeat_prob) {
                let ghost nodes1 = self.nodes@;
                let outbox = self.nodes[id].heartbeat();
                assert(node_views(self.nodes@) =~= node_views(nodes1));
                assert(outbox@.len() == m.heartbeat_outbox().len());
                assert(self@ =~= e.with_rng(advance(e.wire.rng)));
                self.send_all(id, outbox);
            }
        }
        assert(self@ =~= s.node_timers(*cfg, id));
    }

    /// The timers of all nodes.
    fn timers(&mut self, cfg: &RaftConfig, t: Ghost<nat>)
        requires
            cfg.fits(),
            t@ < cfg.total_ticks(),
            old(self).sched.wf(),
            in_range(old(self)@, *cfg, limits_delivered(*cfg, t@)),
        ensures
            final(self).sched.wf(),
            final(self)@ == old(self)@.timers(*cfg, cfg.n_nodes as nat),
    {
        let ghost s = self@;
        let ghost lim = limits_delivered(*cfg, t@);
        let ghost n = cfg.n_nodes as nat;
        proof {
            limits_step(*cfg, t@);
        }
        let mut id: usize = 0;
        while id < cfg.n_nodes
            invariant
                cfg.fits(),
                t@ < cfg.total_ticks(),
                id <= cfg.n_nodes,
                n == cfg.n_nodes,
                self.sched.wf(),
                s == old(self)@,
                lim == limits_delivered(*cfg, t@),
                in_range(s, *cfg, lim),
                self@ == s.timers(*cfg, id as nat),
                lim.sent + 2 * (n * n) <= send_cap(*cfg),
                lim.term + n <= u64::MAX,
            decreases cfg.n_nodes - id,
        {
            let ghost k = id as nat;
            let ghost now = Limits { sent: lim.sent + 2 * (n * k), term: lim.term + k, ..lim };
            proof {
                timers_in_range(s, *cfg, lim, k);
                assert(n * k + n <= n * n) by (nonlinear_arith)
                    requires
                        k + 1 <= n,
                ;
            }
            self.node_timers(cfg, id, Ghost(now));
            id = id + 1;
        }
    }

    /// Maybe a client command to some node that thinks it's leader.
    fn client(&mut self, cfg: &RaftConfig)
        requires
            old(self).sched.wf(),
            old(self)@.nodes.len() == cfg.n_nodes,
            old(self)@.commands < u64::MAX,
        ensures
            final(self).sched.wf(),
            final(self)@ == old(self)@.client_phase(*cfg),
    {
        let ghost s = self@;
        if self.rng.chance(cfg.client_prob) {
            if let Some(id) = self.rng.index(cfg.n_nodes) {
                if self.nodes[id].role == Role::Leader && !self.nodes[id].crashed {
                    self.commands = self.commands + 1;
                    let command = self.commands;
                    let ghost nodes0 = self.nodes@;
                    self.nodes[id].client_command(command);
                    assert(node_views(self.nodes@) =~= node_views(nodes0).update(
                        id as int,
                        nodes0[id as int]@.commanded(command),
                    ));
                }
            }
        }
        assert(self@ =~= s.client_phase(*cfg));
    }

    /// Maybe inject a fault.
    fn fault(&mut self, cfg: &RaftConfig)
        requires
            old(self).sched.wf(),
            old(self)@.nodes.len() == cfg.n_nodes,
        ensures
            final(self).sched.wf(),
            final(self)@ == old(self)@.fault_phase(*cfg),
    {
        let ghost s = self@;
        if self.rng.chance(cfg.fault_prob) {
            let f = draw_fault(&mut self.rng, cfg.n_nodes);
            let ghost nodes0 = self.nodes@;
            match f {
                Fault::Isolate(v) => {
                    // Partition a random node off from the majority.
                    let group: [NodeId; 1] = [v];
                    assert(group@ =~= seq![v]);
                    self.net.partition = Partition::split(cfg.n_nodes, &group);
                },
                Fault::Heal => {
                    self.net.partition.heal();
                },
                Fault::Crash(v) => {
                    self.nodes[v].crash();
                    assert(node_views(self.nodes@) =~= node_views(nodes0).update(
                        v as int,
                        nodes0[v as int]@.crash_set(),
                    ));
                },
                Fault::Restart(v) => {
                    self.nodes[v].restart();
                    assert(node_views(self.nodes@) =~= node_views(nodes0).update(
                        v as int,
                        nodes0[v as int]@.restarted(),
                    ));
                },
                Fault::Nothing => {},
            }
        }
        assert(self@ =~= s.fault_phase(*cfg));
    }

    /// Check the safety invariants against current state.
    fn check(&mut self)
        requires
            old(self).sched.wf(),
        ensures
            final(self).sched.wf(),
            final(self)@ == old(self)@.checked(),
    {
        let now = self.sched.now();
        self.violation = check_safety(self.nodes.as_slice(), &mut self.seen, now);
    }

    /// A tick with faults.
    fn chaos_tick(&mut self, cfg: &RaftConfig, t: Ghost<nat>)
        requires
            cfg.fits(),
            t@ < cfg.total_ticks(),
            old(self).sched.wf(),
            old(self)@.elected < usize::MAX,
            in_range(old(self)@, *cfg, limits_at(*cfg, t@)),
        ensures
            final(self).sched.wf(),
            final(self)@ == old(self)@.chaos_tick(*cfg),
            final(self)@.elected <= old(self)@.elected + 1,
            in_range(final(self)@, *cfg, limits_at(*cfg, t@ + 1)),
    {
        let ghost s = self@;
        proof {
            tick_delivery_in_range(s, *cfg, t@);
        }
        if self.deliver(cfg, t) {
            self.elected = self.elected + 1;
        }
        let ghost d = self@;
        assert(d == s.delivered_counting());
        proof {
            tick_rest_in_range(d, *cfg, t@);
            timers_keep_counters(d, *cfg, cfg.n_nodes as nat);
        }
        self.timers(cfg, t);
        self.client(cfg);
        let ghost c = self@;
        proof {
            fault_in_range(c, *cfg, limits_at(*cfg, t@ + 1));
        }
        self.fault(cfg);
        self.check();
    }

    /// A tick without faults.
    fn calm_tick(&mut self, cfg: &RaftConfig, t: Ghost<nat>)
        requires
            cfg.fits(),
            t@ < cfg.total_ticks(),
            old(self).sched.wf(),
            in_range(old(self)@, *cfg, limits_at(*cfg, t@)),
        ensures
            final(self).sched.wf(),
            final(self)@ == old(self)@.calm_tick(*cfg),
            in_range(final(self)@, *cfg, limits_at(*cfg, t@ + 1)),
    {
        let ghost s = self@;
        proof {
            tick_delivery_in_range(s, *cfg, t@);
        }
        self.deliver(cfg, t);
        let ghost d = self@;
        proof {
            tick_rest_in_range(d, *cfg, t@);
            timers_keep_counters(d, *cfg, cfg.n_nodes as nat);
        }
        self.timers(cfg, t);
        self.client(cfg);
        self.check();
    }

    /// The chaos phase: faults are injected.
    fn chaos(&mut self, seed: u64, cfg: &RaftConfig)
        requires
            cfg.fits(),
            old(self).sched.wf(),
            old(self)@ == RaftSim::init(seed, *cfg),
        ensures
            final(self).sched.wf(),
            final(self)@ == after_chaos(seed, *cfg),
            in_range(final(self)@, *cfg, limits_at(*cfg, cfg.ticks as nat)),
    {
        let ghost s0 = self@;
        proof {
            init_in_range(seed, *cfg);
        }
        let mut t: u64 = 0;
        while t < cfg.ticks
            invariant
                cfg.fits(),
                t <= cfg.ticks,
                self.sched.wf(),
                s0 == RaftSim::init(seed, *cfg),
                self@ == s0.chaos(*cfg, t as nat),
                in_range(self@, *cfg, limits_at(*cfg, t as nat)),
                self@.elected <= t,
                self@.violation is None,
            decreases cfg.ticks - t,
        {
            self.chaos_tick(cfg, Ghost(t as nat));
            t = t + 1;
            if self.violation.is_some() {
                proof {
                    chaos_stops(s0, *cfg, t as nat, cfg.ticks as nat);
                    limits_grow(*cfg, t as nat, cfg.ticks as nat);
                    looser_limits(
                        self@,
                        *cfg,
                        limits_at(*cfg, t as nat),
                        limits_at(*cfg, cfg.ticks as nat),
                    );
                }
                return ;
            }
        }
    }

    /// The stabilization phase: the network is healed, every node is alive, and
    /// no faults are injected.
    fn calm(&mut self, cfg: &RaftConfig)
        requires
            cfg.fits(),
            old(self).sched.wf(),
            old(self)@.violation is None,
            in_range(old(self)@, *cfg, limits_at(*cfg, cfg.ticks as nat)),
        ensures
            final(self).sched.wf(),
            final(self)@ == old(self)@.calm(*cfg, cfg.stabilize_ticks as nat),
    {
        let ghost s0 = self@;
        let mut t: u64 = 0;
        while t < cfg.stabilize_ticks
            invariant
                cfg.fits(),
                t <= cfg.stabilize_ticks,
                self.sched.wf(),
                s0 == old(self)@,
                self@ == s0.calm(*cfg, t as nat),
                in_range(self@, *cfg, limits_at(*cfg, cfg.ticks as nat + t as nat)),
                self@.violation is None,
            decreases cfg.stabilize_ticks - t,
        {
            self.calm_tick(cfg, Ghost(cfg.ticks as nat + t as nat));
            t = t + 1;
            if self.violation.is_some() {
                proof {
                    calm_stops(s0, *cfg, t as nat, cfg.stabilize_ticks as nat);
                }
                return ;
            }
        }
    }

    /// Heal the network and revive every node (a warm restart keeps its log).
    fn stabilize(&mut self)
        requires
            old(self).sched.wf(),
        ensures
            final(self).sched.wf(),
            final(self)@ == old(self)@.stabilizing(),
    {
        let ghost s = self@;
        self.net.partition.heal();
        let n = self.nodes.len();
        let mut i: usize = 0;
        while i < n
            invariant
                i <= n,
                n == s.nodes.len(),
                self.sched.wf(),
                self@.nodes.len() == n,
                self@ == (RaftSim { nodes: self@.nodes, ..s.healed() }),
                forall|j: int| 0 <= j < i ==> (#[trigger] self@.nodes[j]) == s.nodes[j].restarted(),
                forall|j: int| i <= j < n ==> (#[trigger] self@.nodes[j]) == s.nodes[j],
            decreases n - i,
        {
            let ghost nodes0 = self.nodes@;
            assert(self@.nodes[i as int] == s.nodes[i as int]);
            self.nodes[i].restart();
            assert(node_views(self.nodes@) =~= node_views(nodes0).update(
                i as int,
                nodes0[i as int]@.restarted(),
            ));
            i = i + 1;
        }
        assert(self@ =~= s.stabilizing());
    }

    /// The greatest commit index of any node: how far the cluster actually made
    /// durable progress (0 means nothing ever committed).
    fn max_commit(&self) -> (m: usize)
        ensures
            m == max_commit(self@.nodes),
    {
        let ghost views = node_views(self.nodes@);
        let mut m: usize = 0;
        let mut i: usize = 0;
        while i < self.nodes.len()
            invariant
                i <= self.nodes@.len(),
                views == node_views(self.nodes@),
                m == max_commit(views.take(i as int)),
            decreases self.nodes@.len() - i,
        {
            assert(views.take(i + 1).drop_last() =~= views.take(i as int));
            assert(views.take(i + 1).last() == self.nodes@[i as int]@);
            if self.nodes[i].commit_index > m {
                m = self.nodes[i].commit_index;
            }
            i = i + 1;
        }
        assert(views.take(i as int) =~= views);
        m
    }

    fn has_leader(&self) -> (r: bool)
        ensures
            r == has_leader(self@.nodes),
    {
        let mut i: usize = 0;
        while i < self.nodes.len()
            invariant
                i <= self.nodes@.len(),
                forall|j: int| 0 <= j < i ==> (#[trigger] self@.nodes[j]).role != Role::Leader,
            decreases self.nodes@.len() - i,
        {
            assert(self@.nodes[i as int] == self.nodes@[i as int]@);
            if self.nodes[i].role == Role::Leader {
                return true;
            }
            i = i + 1;
        }
        false
    }
}

/// Once safety broke, the chaos phase is over.
proof fn chaos_stops(s: RaftSim, cfg: RaftConfig, k: nat, n: nat)
    requires
        k <= n,
        s.chaos(cfg, k).violation is Some,
    ensures
        s.chaos(cfg, n) == s.chaos(cfg, k),
    decreases n,
{
    if k < n {
        chaos_stops(s, cfg, k, (n - 1) as nat);
    }
}

/// Once safety broke, the stabilization phase is over.
proof fn calm_stops(s: RaftSim, cfg: RaftConfig, k: nat, n: nat)
    requires
        k <= n,
        s.calm(cfg, k).violation is Some,
    ensures
        s.calm(cfg, n) == s.calm(cfg, k),
    decreases n,
{
    if k < n {
        calm_stops(s, cfg, k, (n - 1) as nat);
    }
}

/// One deterministic Raft simulation. Same seed + config => same result. Correct
/// Raft survives it, whatever the seed.
pub fn run(seed: u64, cfg: &RaftConfig) -> (r: RaftRunResult)
    requires
        cfg.fits(),
    ensures
        r.seed == seed,
        finding_of(r.violation) == final_world(seed, *cfg).violation,
        r.commands_committed == max_commit(final_world(seed, *cfg).nodes),
        r.leaders_elected == final_world(seed, *cfg).elected,
        r.live == live_verdict(seed, *cfg),
        r.live == Some(true) ==> r.commands_committed > 0 && r.violation is None,
        cfg.client_prob.threshold == 0 ==> r.commands_committed == 0,
        !cfg.inject_bug ==> r.violation is None,
{
    proof {
        if cfg.client_prob.threshold == 0 {
            silent_clients_commit_nothing(seed, *cfg);
        }
        if !cfg.inject_bug {
            raft_is_safe(seed, *cfg);
        }
    }
    let mut world = World::new(seed, cfg);
    world.chaos(seed, cfg);
    let ghost end_of_chaos = world@;

    // Only run the liveness phase if the chaos phase didn't already break safety.
    // A correct, stabilized Raft must eventually elect a leader and commit new
    // entries: we record the commit high-water mark at the start and require it
    // to strictly advance by the end.
    let mut live: Option<bool> = None;
    if world.violation.is_none() && cfg.stabilize_ticks > 0 {
        world.stabilize();
        proof {
            stabilizing_in_range(end_of_chaos, *cfg, limits_at(*cfg, cfg.ticks as nat));
        }
        let commit_before = world.max_commit();
        world.calm(cfg);
        let commit_after = world.max_commit();
        let progress = world.has_leader() && commit_after > commit_before;
        live = Some(world.violation.is_none() && progress);
    }
    let commands_committed = world.max_commit();
    RaftRunResult {
        seed,
        violation: world.violation,
        commands_committed,
        leaders_elected: world.elected,
        live,
    }
}

/// Mutation test: introduce the match-index safety bug and search for a seed
/// that exposes it, proving the checker has teeth. Uses a churn-inducing config
/// (short network latency -> frequent elections and divergent logs), which is
/// what surfaces this timing-dependent bug. Returns `Some((seed, detail))` for
/// the first violating seed, or `None` if none found.
pub fn demonstrate_injected_bug() -> (r: Option<(u64, String)>)
    ensures
        r matches Some((seed, detail)) ==> {
            &&& seed < 5000
            &&& final_world(seed, RaftConfig::churn_with_bug()).violation matches Some(v)
            &&& v.detail == detail@
            &&& forall|s: u64|
                s < seed ==> (#[trigger] final_world(s, RaftConfig::churn_with_bug())).violation is None
        },
        r is None ==> forall|s: u64|
            s < 5000 ==> (#[trigger] final_world(s, RaftConfig::churn_with_bug())).violation is None,
{
    let cfg = RaftConfig {
        n_nodes: 5,
        ticks: 6_000,
        net: NetConfig {
            drop_prob: Prob { threshold: CHURN_DROP },
            min_delay: 1,
            max_delay: 20,
        },
        fault_prob: Prob { threshold: CHURN_FAULT },
        stabilize_ticks: 0,
        inject_bug: true,
        ..RaftConfig::default()
    };
    assert(cfg.fits()) by {
        assert(5nat * 5nat == 25) by (nonlinear_arith);
        assert(cfg.sends_per_tick() == 51);
        assert(cfg.total_ticks() == 6_000);
        assert(51nat * 6_000nat == 306_000) by (nonlinear_arith);
        assert(cfg.net.longest_delay() == 20);
        assert(20nat * 6_001nat == 120_020) by (nonlinear_arith);
    }
    let mut seed: u64 = 0;
    while seed < 5000
        invariant
            cfg == RaftConfig::churn_with_bug(),
            cfg.fits(),
            forall|s: u64| s < seed ==> (#[trigger] final_world(s, cfg)).violation is None,
        decreases 5000 - seed,
    {
        let r = run(seed, &cfg);
        if let Some(v) = r.violation {
            return Some((seed, v.detail));
        }
        seed = seed + 1;
    }
    None
}

} // verus!
