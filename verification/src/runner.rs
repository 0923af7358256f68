//! The simulation runner -- spawns the system, injects faults, records history,
//! and checks invariants. A whole run is a pure function of `(seed, config)`.
//!
//! Each tick of the driver, guided by the seeded RNG, it may: issue a client
//! write to the primary, issue a client read somewhere, inject a fault (partition,
//! heal, crash, restart), and always delivers one network message that is due.
//! Every client operation is appended to a history; after the run the `checker`
//! inspects that history for a consistency violation.
//!
//! The key property: because every choice comes from the seed, a run that finds
//! a violation can be replayed exactly by re-running the same seed. The contract
//! of `run` names the function of the seed and the configuration that it is.

use crate::checker::{
    check_linearizability, consistent, consistent_push, finding_of, greatest_shown,
    greatest_shown_of_push, last_written, latest_reads_linearize, linearizable_histories_pass,
    reads_latest, reads_latest_at, same_ops, sequential, spans_are_proper, verdict, writes,
    writes_increase, Finding, Op, Violation,
};
use crate::faults::{after_fault, draw_fault, fault_from, Fault};
use crate::kv::{msg_view, outbox_view, KvMsg, Msg, Node, NodeState};
use crate::linearizability::{linearizable, HistoryOp};
use crate::net::{
    one_side, relabel, send_all_commutes_with_map, send_all_keeps_books, send_all_uses_room,
    split_sides, wire, Deliver, NetConfig, NetState, Network, NodeId, Partition, Wire,
};
use crate::sim::rng::{advance, after_index, draw_index, happens};
use crate::sim::scheduler::{
    earliest_exists, first_event, paced_has_room, step_commutes_with_map, stepped_is_paced,
    stepped_is_wf, SchedState,
};
use crate::sim::{EventId, Prob, Rng, Scheduler, Tick};
use vstd::prelude::*;

verus! {

/// What a run is made of.
#[derive(Debug, Clone, Copy)]
pub struct RunConfig {
    pub n_nodes: usize,
    pub ticks: u64,
    pub net: NetConfig,
    pub write_prob: Prob,
    pub read_prob: Prob,
    pub fault_prob: Prob,
    /// If true, all reads are served by the primary only. This is the *correct*
    /// configuration: the primary always holds the latest acknowledged value, so
    /// no read can go backwards in time. Contrast with the default (reads served
    /// by any node), whose stale backups violate consistency.
    pub read_from_primary_only: bool,
}

/// Fifteen in a hundred, rounded up to a multiple of 2^-53.
pub const DEFAULT_CLIENT: u64 = 0x4_CCCC_CCCC_CCCD;

/// Three in a hundred, rounded up to a multiple of 2^-53.
pub const DEFAULT_FAULT: u64 = 0xF5C2_8F5C_28F6;

impl Default for RunConfig {
    fn default() -> (c: Self)
        ensures
            c == RunConfig::spec_default(),
            c.fits(),
    {
        let c = RunConfig {
            n_nodes: 3,
            ticks: 2_000,
            net: NetConfig::default(),
            write_prob: Prob { threshold: DEFAULT_CLIENT },
            read_prob: Prob { threshold: DEFAULT_CLIENT },
            fault_prob: Prob { threshold: DEFAULT_FAULT },
            read_from_primary_only: false,
        };
        proof {
            assert(2 * 3nat * 2_000nat == 12_000) by (nonlinear_arith);
            assert(c.message_cap() == 12_000);
            assert(20nat * 12_001nat == 240_020) by (nonlinear_arith);
        }
        c
    }
}

impl RunConfig {
    pub open spec fn spec_default() -> RunConfig {
        RunConfig {
            n_nodes: 3,
            ticks: 2_000,
            net: NetConfig::spec_default(),
            write_prob: Prob { threshold: DEFAULT_CLIENT },
            read_prob: Prob { threshold: DEFAULT_CLIENT },
            fault_prob: Prob { threshold: DEFAULT_FAULT },
            read_from_primary_only: false,
        }
    }

    /// The most messages that a run can send: each write goes to every backup and
    /// is acknowledged by it.
    pub open spec fn message_cap(self) -> nat {
        2 * self.n_nodes as nat * self.ticks as nat
    }

    /// A run never leaves the range of its counters and its clock.
    pub open spec fn fits(self) -> bool {
        &&& 2 * self.ticks <= u64::MAX
        &&& self.message_cap() <= u64::MAX
        &&& self.net.longest_delay() * (self.message_cap() + 1) <= u64::MAX
    }
}

/// What a run found.
pub struct RunResult {
    pub seed: u64,
    pub violation: Option<Violation>,
    pub ops: usize,
    pub sent: u64,
    pub dropped: u64,
}

/// What a run did: the client operations in order, and the message counters.
pub struct RunRecord {
    pub history: Vec<Op>,
    pub sent: u64,
    pub dropped: u64,
}

/// The one key that clients use; a single key keeps the consistency check
/// tractable.
pub open spec fn the_key() -> Seq<char> {
    "k"@
}

/// The model of the simulated world.
#[verifier::ext_equal]
pub struct KvSim {
    pub wire: Wire<KvMsg>,
    pub nodes: Seq<NodeState>,
    pub history: Seq<Op>,
    pub value_counter: u64,
    pub op_seq: u64,
}

/// The backups: every node but node 0.
pub open spec fn backups(n: usize) -> Seq<NodeId> {
    if n == 0 {
        Seq::empty()
    } else {
        Seq::new((n - 1) as nat, |i: int| (i + 1) as usize)
    }
}

impl KvSim {
    /// The world before the first tick: node 0 is the primary.
    pub open spec fn init(seed: u64, cfg: RunConfig) -> KvSim {
        KvSim {
            wire: Wire {
                net: NetState::init(cfg.n_nodes, cfg.net),
                sched: SchedState::init(),
                rng: seed,
            },
            nodes: Seq::new(cfg.n_nodes as nat, |i: int| NodeState::init(i as usize, i == 0)),
            history: Seq::empty(),
            value_counter: 0,
            op_seq: 0,
        }
    }

    /// The world after the generator moved on to state `rng`.
    pub open spec fn with_rng(self, rng: u64) -> KvSim {
        KvSim { wire: Wire { rng, ..self.wire }, ..self }
    }

    /// The world after its earliest pending message was delivered, if there is
    /// one.
    pub open spec fn delivered(self) -> KvSim {
        if self.wire.sched.quiet() {
            self
        } else {
            let packet = self.wire.sched.first_payload();
            let popped = Wire { sched: self.wire.sched.stepped(), ..self.wire };
            if packet.to < self.nodes.len() {
                let (node, replies) = self.nodes[packet.to as int].handled(
                    packet.from,
                    packet.msg,
                );
                KvSim {
                    wire: popped.sent_all(packet.to, replies),
                    nodes: self.nodes.update(packet.to as int, node),
                    ..self
                }
            } else {
                KvSim { wire: popped, ..self }
            }
        }
    }

    /// The world after a client write to the primary, which is recorded if the
    /// primary accepts it.
    pub open spec fn wrote(self) -> KvSim {
        let v = (self.value_counter + 1) as u64;
        let outbox = self.nodes[0].write_outbox(the_key(), v, backups(self.nodes.len() as usize));
        let after = KvSim {
            nodes: self.nodes.update(0, self.nodes[0].written(the_key(), v)),
            value_counter: v,
            ..self
        };
        if !self.nodes[0].accepts_writes() {
            after
        } else {
            KvSim {
                wire: self.wire.sent_all(0, outbox),
                history: self.history.push(
                    Op::Write { value: v, seq: self.op_seq, tick: self.wire.sched.now },
                ),
                op_seq: (self.op_seq + 1) as u64,
                ..after
            }
        }
    }

    /// The world after a client read served by node `idx`.
    pub open spec fn did_read(self, idx: usize) -> KvSim {
        if self.nodes[idx as int].crashed {
            self
        } else {
            KvSim {
                history: self.history.push(
                    Op::Read {
                        value: self.nodes[idx as int].value_of(the_key()),
                        node: idx,
                        seq: self.op_seq,
                        tick: self.wire.sched.now,
                    },
                ),
                op_seq: (self.op_seq + 1) as u64,
                ..self
            }
        }
    }

    /// The world after a fault.
    pub open spec fn faulted(self, f: Fault, n: usize) -> KvSim {
        match f {
            Fault::Isolate(v) => KvSim {
                wire: Wire {
                    net: NetState { side: split_sides(n, seq![v]), ..self.wire.net },
                    ..self.wire
                },
                ..self
            },
            Fault::Heal => KvSim {
                wire: Wire {
                    net: NetState { side: one_side(self.wire.net.side.len()), ..self.wire.net },
                    ..self.wire
                },
                ..self
            },
            Fault::Crash(v) => KvSim {
                nodes: self.nodes.update(v as int, self.nodes[v as int].crash_set()),
                ..self
            },
            Fault::Restart(v) => KvSim {
                nodes: self.nodes.update(v as int, self.nodes[v as int].restarted()),
                ..self
            },
            Fault::Nothing => self,
        }
    }

    /// Maybe a client write.
    pub open spec fn write_phase(self, cfg: RunConfig) -> KvSim {
        let s = self.with_rng(advance(self.wire.rng));
        if happens(self.wire.rng, cfg.write_prob) {
            s.wrote()
        } else {
            s
        }
    }

    /// Maybe a client read: from the primary in the correct configuration, from
    /// a random node otherwise.
    pub open spec fn read_phase(self, cfg: RunConfig) -> KvSim {
        let s = self.with_rng(advance(self.wire.rng));
        if happens(self.wire.rng, cfg.read_prob) {
            if cfg.read_from_primary_only {
                s.did_read(0)
            } else {
                let n = self.nodes.len() as usize;
                let t = s.with_rng(after_index(s.wire.rng, n));
                match draw_index(s.wire.rng, n) {
                    Some(idx) => t.did_read(idx),
                    None => t.did_read(0),
                }
            }
        } else {
            s
        }
    }

    /// Whether the coming tick issues a client operation.
    pub open spec fn issues_operation(self, cfg: RunConfig) -> bool {
        let d = self.delivered();
        happens(d.wire.rng, cfg.write_prob) || happens(
            d.write_phase(cfg).wire.rng,
            cfg.read_prob,
        )
    }

    /// Maybe a fault.
    pub open spec fn fault_phase(self, cfg: RunConfig) -> KvSim {
        let s = self.with_rng(advance(self.wire.rng));
        if happens(self.wire.rng, cfg.fault_prob) {
            s.with_rng(after_fault(s.wire.rng, cfg.n_nodes)).faulted(
                fault_from(s.wire.rng, cfg.n_nodes),
                cfg.n_nodes,
            )
        } else {
            s
        }
    }

    /// The world after one tick of the driver.
    pub open spec fn ticked(self, cfg: RunConfig) -> KvSim {
        self.delivered().write_phase(cfg).read_phase(cfg).fault_phase(cfg)
    }

    /// The world after `k` ticks of the driver.
    pub open spec fn after_ticks(self, cfg: RunConfig, k: nat) -> KvSim
        decreases k,
    {
        if k == 0 {
            self
        } else {
            self.after_ticks(cfg, (k - 1) as nat).ticked(cfg)
        }
    }

    /// The world after `k` deliveries.
    pub open spec fn after_deliveries(self, k: nat) -> KvSim
        decreases k,
    {
        if k == 0 {
            self
        } else {
            self.after_deliveries((k - 1) as nat).delivered()
        }
    }

    /// It takes `k` deliveries until nothing is in flight any more.
    pub open spec fn drains_in(self, k: nat) -> bool {
        &&& self.after_deliveries(k).wire.sched.quiet()
        &&& forall|j: nat| j < k ==> !(#[trigger] self.after_deliveries(j)).wire.sched.quiet()
    }

    /// The world once nothing is in flight any more.
    pub open spec fn drained(self) -> KvSim {
        self.after_deliveries(choose|k: nat| self.drains_in(k))
    }
}

/// The client operations of the run for `seed` have someone to go to: there is a
/// primary, or no operation is ever issued.
pub open spec fn clients_are_served(seed: u64, cfg: RunConfig) -> bool {
    cfg.n_nodes > 0 || forall|t: nat|
        t < cfg.ticks ==> !(#[trigger] KvSim::init(seed, cfg).after_ticks(
            cfg,
            t,
        )).issues_operation(cfg)
}

/// The world at the end of the run for `seed`.
pub open spec fn final_world(seed: u64, cfg: RunConfig) -> KvSim {
    KvSim::init(seed, cfg).after_ticks(cfg, cfg.ticks as nat).drained()
}

/// What the run for `seed` finds.
pub open spec fn run_verdict(seed: u64, cfg: RunConfig) -> Option<Finding> {
    verdict(final_world(seed, cfg).history)
}

/// The number of replication messages in flight.
pub closed spec fn updates_in_flight(queue: Map<EventId, (Tick, Deliver<KvMsg>)>) -> nat {
    queue.dom().filter(|id: EventId| queue[id].1.msg is Replicate).len()
}

/// Nothing is out of range after `t` ticks.
pub closed spec fn in_range(s: KvSim, cfg: RunConfig, t: nat) -> bool {
    &&& t <= cfg.ticks
    &&& s.wire.net.config == cfg.net
    &&& s.nodes.len() == cfg.n_nodes
    &&& s.wire.sched.wf()
    &&& s.wire.audited()
    &&& s.wire.sched.paced(cfg.net.longest_delay())
    &&& s.wire.net.sent + updates_in_flight(s.wire.sched.queue) <= 2 * cfg.n_nodes * t
    &&& s.value_counter <= t
    &&& s.op_seq <= 2 * t
    &&& cfg.n_nodes > 0 ==> s.nodes[0].next_version <= t + 1
}

/// What being in range says of the cluster and the queue.
pub proof fn in_range_is_sound(s: KvSim, cfg: RunConfig, t: nat)
    requires
        in_range(s, cfg, t),
    ensures
        s.nodes.len() == cfg.n_nodes,
        s.wire.net.config == cfg.net,
        s.wire.sched.wf(),
        s.value_counter <= t,
        s.op_seq <= 2 * t,
        cfg.n_nodes > 0 ==> s.nodes[0].next_version <= t + 1,
{
}

/// Adding a message to the queue adds at most one update, and none if it is an
/// acknowledgement.
proof fn updates_after_insert(
    queue: Map<EventId, (Tick, Deliver<KvMsg>)>,
    id: EventId,
    at: Tick,
    packet: Deliver<KvMsg>,
)
    requires
        queue.dom().finite(),
        !queue.contains_key(id),
    ensures
        updates_in_flight(queue.insert(id, (at, packet))) == updates_in_flight(queue) + if packet.msg is Replicate {
            1nat
        } else {
            0nat
        },
{
    let after = queue.insert(id, (at, packet));
    let f = |i: EventId| queue[i].1.msg is Replicate;
    let g = |i: EventId| after[i].1.msg is Replicate;
    let a = queue.dom().filter(f);
    let b = after.dom().filter(g);
    if packet.msg is Replicate {
        assert(b =~= a.insert(id));
    } else {
        assert(b =~= a);
    }
}

/// Taking a message off the queue.
proof fn updates_after_remove(queue: Map<EventId, (Tick, Deliver<KvMsg>)>, id: EventId)
    requires
        queue.dom().finite(),
        queue.contains_key(id),
    ensures
        updates_in_flight(queue.remove(id)) + if queue[id].1.msg is Replicate {
            1nat
        } else {
            0nat
        } == updates_in_flight(queue),
{
    let after = queue.remove(id);
    let f = |i: EventId| queue[i].1.msg is Replicate;
    let g = |i: EventId| after[i].1.msg is Replicate;
    let a = queue.dom().filter(f);
    let b = after.dom().filter(g);
    assert(b =~= a.remove(id));
}

/// How many updates a send puts in flight.
proof fn updates_after_send(w: Wire<KvMsg>, from: NodeId, to: NodeId, msg: KvMsg)
    requires
        w.sched.wf(),
    ensures
        updates_in_flight(w.sent(from, to, msg).sched.queue) <= updates_in_flight(w.sched.queue)
            + if msg is Replicate {
            1nat
        } else {
            0nat
        },
{
    if let crate::net::Fate::Delayed(delay) = crate::net::fate(w.net, w.rng, from, to) {
        assert(!w.sched.queue.contains_key(w.sched.next_seq));
        updates_after_insert(
            w.sched.queue,
            w.sched.next_seq,
            (w.sched.now + delay) as u64,
            Deliver { from, to, msg },
        );
    }
}

proof fn updates_after_send_all(
    w: Wire<KvMsg>,
    from: NodeId,
    outbox: Seq<(NodeId, KvMsg)>,
)
    requires
        w.sched.wf(),
        w.has_room(outbox.len()),
    ensures
        updates_in_flight(w.sent_all(from, outbox).sched.queue) <= updates_in_flight(
            w.sched.queue,
        ) + outbox.len(),
        (forall|k: int| 0 <= k < outbox.len() ==> !((#[trigger] outbox[k]).1 is Replicate))
            ==> updates_in_flight(w.sent_all(from, outbox).sched.queue) <= updates_in_flight(
            w.sched.queue,
        ),
    decreases outbox.len(),
{
    if outbox.len() > 0 {
        let rest = outbox.drop_last();
        updates_after_send_all(w, from, rest);
        send_all_uses_room(w, from, rest, outbox.len());
        updates_after_send(w.sent_all(from, rest), from, outbox.last().0, outbox.last().1);
        if forall|k: int| 0 <= k < outbox.len() ==> !((#[trigger] outbox[k]).1 is Replicate) {
            assert forall|k: int| 0 <= k < rest.len() implies !((#[trigger] rest[k]).1 is Replicate) by {
                assert(rest[k] == outbox[k]);
            }
            assert(!(outbox[outbox.len() - 1].1 is Replicate));
        }
    }
}

/// There is room for `k` more messages as long as the cap is not reached.
proof fn room_below_cap(s: KvSim, cfg: RunConfig, t: nat, k: nat)
    requires
        cfg.fits(),
        in_range(s, cfg, t),
        s.wire.net.sent + k <= cfg.message_cap(),
        k > 0,
    ensures
        s.wire.has_room(k),
{
    let d = cfg.net.longest_delay();
    let cap = cfg.message_cap();
    paced_has_room(s.wire.sched, d, cap);
    assert(d * 2 <= d * (cap + 1)) by (nonlinear_arith)
        requires
            cap >= 1,
            d >= 0,
    ;
    assert(cfg.net.delays() <= u64::MAX);
}

proof fn cap_grows(cfg: RunConfig, t: nat)
    requires
        t <= cfg.ticks,
    ensures
        2 * cfg.n_nodes * t <= cfg.message_cap(),
{
    assert(2 * cfg.n_nodes * t <= 2 * cfg.n_nodes * cfg.ticks) by (nonlinear_arith)
        requires
            t <= cfg.ticks,
    ;
}

pub proof fn delivery_has_room(s: KvSim, cfg: RunConfig, t: nat)
    requires
        cfg.fits(),
        in_range(s, cfg, t),
        !s.wire.sched.quiet(),
        s.wire.sched.first_payload().msg is Replicate,
    ensures
        (Wire { sched: s.wire.sched.stepped(), ..s.wire }).has_room(1),
{
    earliest_exists(s.wire.sched.queue);
    updates_after_remove(s.wire.sched.queue, first_event(s.wire.sched.queue));
    cap_grows(cfg, t);
    room_below_cap(s, cfg, t, 1);
    let d = cfg.net.longest_delay();
    stepped_is_paced(s.wire.sched, d);
    assert(s.wire.sched.fired() + 1 <= cfg.message_cap()) by {
        assert(s.wire.sched.queue.dom().contains(first_event(s.wire.sched.queue)));
    }
    paced_has_room(s.wire.sched.stepped(), d, cfg.message_cap());
}

/// Delivering a message keeps everything in range, and brings the end of the
/// traffic closer.
pub proof fn delivery_in_range(s: KvSim, cfg: RunConfig, t: nat)
    requires
        cfg.fits(),
        in_range(s, cfg, t),
    ensures
        in_range(s.delivered(), cfg, t),
        !s.wire.sched.quiet() ==> {
            let q0 = s.wire.sched.queue;
            let q1 = s.delivered().wire.sched.queue;
            updates_in_flight(q1) < updates_in_flight(q0) || (updates_in_flight(q1)
                == updates_in_flight(q0) && q1.dom().len() < q0.dom().len())
        },
{
    if !s.wire.sched.quiet() {
        let d = cfg.net.longest_delay();
        let sched = s.wire.sched;
        let id = first_event(sched.queue);
        earliest_exists(sched.queue);
        stepped_is_wf(sched);
        stepped_is_paced(sched, d);
        updates_after_remove(sched.queue, id);
        let packet = sched.first_payload();
        let popped = Wire { sched: sched.stepped(), ..s.wire };
        if packet.to < s.nodes.len() {
            let (node, replies) = s.nodes[packet.to as int].handled(packet.from, packet.msg);
            if replies.len() == 0 {
                assert(popped.sent_all(packet.to, replies) == popped);
            } else {
                delivery_has_room(s, cfg, t);
                send_all_uses_room(popped, packet.to, replies, 1);
                send_all_keeps_books(popped, packet.to, replies);
                updates_after_send_all(popped, packet.to, replies);
            }
        }
    }
}

pub proof fn write_in_range(s: KvSim, cfg: RunConfig, t: nat)
    requires
        cfg.fits(),
        t < cfg.ticks,
        in_range(s, cfg, t),
        cfg.n_nodes == 0 ==> !happens(s.wire.rng, cfg.write_prob),
    ensures
        s.wire.has_room(backups(cfg.n_nodes).len()) || backups(cfg.n_nodes).len() == 0,
        in_range(s.write_phase(cfg), cfg, t + 1),
        s.write_phase(cfg).op_seq <= 2 * t + 1,
{
    let n = cfg.n_nodes as int;
    assert(2 * n * (t + 1) == 2 * n * t + 2 * n) by (nonlinear_arith);
    cap_grows(cfg, t + 1);
    let k = backups(cfg.n_nodes).len();
    if k > 0 {
        room_below_cap(s, cfg, t, k);
    }
    let r = s.with_rng(advance(s.wire.rng));
    if happens(s.wire.rng, cfg.write_prob) {
        let v = (s.value_counter + 1) as u64;
        let outbox = s.nodes[0].write_outbox(the_key(), v, backups(s.nodes.len() as usize));
        if outbox.len() > 0 {
            assert(r.wire.has_room(k));
            send_all_uses_room(r.wire, 0, outbox, k);
            send_all_keeps_books(r.wire, 0, outbox);
            updates_after_send_all(r.wire, 0, outbox);
        }
    }
}

proof fn read_in_range(s: KvSim, cfg: RunConfig, t: nat)
    requires
        in_range(s, cfg, t + 1),
        s.op_seq <= 2 * t + 1,
    ensures
        in_range(s.read_phase(cfg), cfg, t + 1),
{
}

proof fn fault_in_range(s: KvSim, cfg: RunConfig, t: nat)
    requires
        in_range(s, cfg, t),
    ensures
        in_range(s.fault_phase(cfg), cfg, t),
{
}

/// The simulated world.
struct World {
    rng: Rng,
    sched: Scheduler<Deliver<Msg>>,
    net: Network,
    // Node 0 is the primary; the rest are backups.
    nodes: Vec<Node>,
    history: Vec<Op>,
    value_counter: u64,
    // Total order over client ops. A single logical client issues operations
    // sequentially (at most one of each kind per tick, in program order), so
    // client ops are totally ordered. Concurrency lives in replication and
    // faults, not in the client -- which is what makes the monotonic-read check
    // sound (a later read genuinely follows an earlier observation).
    op_seq: u64,
}

spec fn node_views(nodes: Seq<Node>) -> Seq<NodeState> {
    nodes.map_values(|n: Node| n@)
}

impl World {
    spec fn view(&self) -> KvSim {
        KvSim {
            wire: wire(self.net, self.sched, self.rng).map_messages(msg_view()),
            nodes: node_views(self.nodes@),
            history: self.history@,
            value_counter: self.value_counter,
            op_seq: self.op_seq,
        }
    }

    fn new(seed: u64, cfg: &RunConfig) -> (w: World)
        ensures
            w@ == KvSim::init(seed, *cfg),
            w.sched.wf(),
    {
        let mut nodes: Vec<Node> = Vec::new();
        let mut i: usize = 0;
        while i < cfg.n_nodes
            invariant
                i <= cfg.n_nodes,
                nodes@.len() == i,
                forall|j: int| 0 <= j < i ==> (#[trigger] nodes@[j])@ == NodeState::init(
                    j as usize,
                    j == 0,
                ),
            decreases cfg.n_nodes - i,
        {
            nodes.push(Node::new(i, i == 0));
            i = i + 1;
        }
        let w = World {
            rng: Rng::new(seed),
            sched: Scheduler::new(),
            net: Network::new(cfg.n_nodes, cfg.net),
            nodes,
            history: Vec::new(),
            value_counter: 0,
            op_seq: 0,
        };
        assert(w@ =~= KvSim::init(seed, *cfg));
        w
    }

    /// Deliver one pending network message. Says whether there was one.
    fn deliver(&mut self, cfg: &RunConfig, t: Ghost<nat>) -> (any: bool)
        requires
            cfg.fits(),
            old(self).sched.wf(),
            in_range(old(self)@, *cfg, t@),
        ensures
            final(self).sched.wf(),
            final(self)@ == old(self)@.delivered(),
            any == !old(self)@.wire.sched.quiet(),
    {
        let ghost s = self@;
        proof {
            self.sched.view_is_wf();
            assert(self.sched@.map_payloads(relabel(msg_view())).quiet() == self.sched@.quiet());
            if !self.sched@.quiet() {
                step_commutes_with_map(self.sched@, relabel(msg_view()));
            }
        }
        match self.sched.step() {
            None => false,
            Some(ev) => {
                let Deliver { from, to, msg } = ev.payload;
                let ghost packet = s.wire.sched.first_payload();
                assert(packet == Deliver { from, to, msg: msg@ });
                let ghost popped = wire(self.net, self.sched, self.rng);
                assert(popped.map_messages(msg_view()) == Wire {
                    sched: s.wire.sched.stepped(),
                    ..s.wire
                });
                if to < self.nodes.len() {
                    let ghost nodes0 = self.nodes@;
                    let ghost before = self.nodes@[to as int]@;
                    let ghost m = msg@;
                    let replies = self.nodes[to].handle(from, msg);
                    proof {
                        assert(node_views(self.nodes@) =~= node_views(nodes0).update(
                            to as int,
                            before.handled(from, m).0,
                        ));
                        assert(replies@.len() == before.handled(from, m).1.len());
                        if replies@.len() > 0 {
                            delivery_has_room(s, *cfg, t@);
                        } else {
                            assert(outbox_view(replies@) =~= Seq::empty());
                        }
                        send_all_commutes_with_map(popped, msg_view(), to, replies@);
                    }
                    if replies.len() > 0 {
                        self.net.send_all(&mut self.sched, &mut self.rng, to, replies);
                    }
                }
                assert(self@ =~= s.delivered());
                true
            },
        }
    }

    /// Maybe issue a client write to the primary.
    fn write(&mut self, cfg: &RunConfig, backup_ids: &Vec<NodeId>, t: Ghost<nat>)
        requires
            cfg.fits(),
            t@ < cfg.ticks,
            old(self).sched.wf(),
            in_range(old(self)@, *cfg, t@),
            cfg.n_nodes == 0 ==> !happens(old(self)@.wire.rng, cfg.write_prob),
            backup_ids@ == backups(cfg.n_nodes),
        ensures
            final(self).sched.wf(),
            final(self)@ == old(self)@.write_phase(*cfg),
    {
        let ghost s = self@;
        proof {
            write_in_range(s, *cfg, t@);
        }
        if self.rng.chance(cfg.write_prob) {
            let ghost r = self@;
            assert(r == s.with_rng(advance(s.wire.rng)));
            self.value_counter = self.value_counter + 1;
            let v = self.value_counter;
            let logical = self.sched.now();
            let ghost nodes0 = self.nodes@;
            let accepted = !self.nodes[0].crashed && self.nodes[0].is_primary;
            let outbox = self.nodes[0].client_write("k", v, backup_ids.as_slice());
            proof {
                assert(node_views(self.nodes@) =~= node_views(nodes0).update(
                    0,
                    nodes0[0]@.written(the_key(), v),
                ));
                assert(outbox_view(outbox@).len() == outbox@.len());
                send_all_commutes_with_map(
                    wire(self.net, self.sched, self.rng),
                    msg_view(),
                    0,
                    outbox@,
                );
            }
            if accepted {
                // The write was accepted by the primary -> record it.
                self.history.push(Op::Write { value: v, seq: self.op_seq, tick: logical });
                self.op_seq = self.op_seq + 1;
            }
            if outbox.len() > 0 {
                self.net.send_all(&mut self.sched, &mut self.rng, 0, outbox);
            }
        }
        assert(self@ =~= s.write_phase(*cfg));
    }

    /// Maybe issue a client read. In the correct config, reads go to the primary
    /// (node 0); otherwise to a random node (which may be a stale backup -- the
    /// source of the bug).
    fn read(&mut self, cfg: &RunConfig)
        requires
            old(self).sched.wf(),
            old(self)@.nodes.len() == cfg.n_nodes,
            cfg.n_nodes == 0 ==> !happens(old(self)@.wire.rng, cfg.read_prob),
            old(self)@.op_seq < u64::MAX,
        ensures
            final(self).sched.wf(),
            final(self)@ == old(self)@.read_phase(*cfg),
    {
        let ghost s = self@;
        if self.rng.chance(cfg.read_prob) {
            let idx = if cfg.read_from_primary_only {
                0
            } else {
                match self.rng.index(self.nodes.len()) {
                    Some(i) => i,
                    None => 0,
                }
            };
            if !self.nodes[idx].crashed {
                let observed = self.nodes[idx].read("k");
                let tick = self.sched.now();
                self.history.push(Op::Read { value: observed, node: idx, seq: self.op_seq, tick });
                self.op_seq = self.op_seq + 1;
            }
        }
        assert(self@ =~= s.read_phase(*cfg));
    }

    /// Maybe inject a fault.
    fn fault(&mut self, cfg: &RunConfig)
        requires
            old(self).sched.wf(),
            old(self)@.nodes.len() == cfg.n_nodes,
        ensures
            final(self).sched.wf(),
            final(self)@ == old(self)@.fault_phase(*cfg),
    {
        let ghost s = self@;
        if self.rng.chance(cfg.fault_prob) {
            let f = draw_fault(&mut self.rng, cfg.n_nodes);
            let ghost nodes0 = self.nodes@;
            match f {
                Fault::Isolate(v) => {
                    let group: [NodeId; 1] = [v];
                    assert(group@ =~= seq![v]);
                    self.net.partition = Partition::split(cfg.n_nodes, &group);
                },
                Fault::Heal => {
                    self.net.partition.heal();
                },
                Fault::Crash(v) => {
                    self.nodes[v].crash();
                    assert(node_views(self.nodes@) =~= node_views(nodes0).update(
                        v as int,
                        nodes0[v as int]@.crash_set(),
                    ));
                },
                Fault::Restart(v) => {
                    self.nodes[v].restart();
                    assert(node_views(self.nodes@) =~= node_views(nodes0).update(
                        v as int,
                        nodes0[v as int]@.restarted(),
                    ));
                },
                Fault::Nothing => {},
            }
        }
        assert(self@ =~= s.fault_phase(*cfg));
    }

    /// Deliver until nothing is in flight any more, so that the final state
    /// settles.
    fn drain(&mut self, cfg: &RunConfig, t: Ghost<nat>)
        requires
            cfg.fits(),
            old(self).sched.wf(),
            in_range(old(self)@, *cfg, t@),
        ensures
            final(self)@ == old(self)@.drained(),
    {
        let ghost s0 = self@;
        let ghost mut k: nat = 0;
        loop
            invariant
                cfg.fits(),
                self.sched.wf(),
                in_range(self@, *cfg, t@),
                self@ == s0.after_deliveries(k),
                forall|j: nat| j < k ==> !(#[trigger] s0.after_deliveries(j)).wire.sched.quiet(),
            ensures
                self@.wire.sched.quiet(),
            decreases
                    updates_in_flight(self@.wire.sched.queue),
                    self@.wire.sched.queue.dom().len(),
        {
            proof {
                delivery_in_range(self@, *cfg, t@);
            }
            if !self.deliver(cfg, t) {
                break ;
            }
            proof {
                k = k + 1;
            }
        }
        proof {
            assert(s0.drains_in(k));
            let c = choose|c: nat| s0.drains_in(c);
            assert(s0.drains_in(c));
            if c < k {
                assert(!s0.after_deliveries(c).wire.sched.quiet());
            } else if k < c {
                assert(!s0.after_deliveries(k).wire.sched.quiet());
            }
        }
    }
}

/// Carry out the run for `seed` and record what the clients did.
pub fn simulate(seed: u64, cfg: &RunConfig) -> (r: RunRecord)
    requires
        cfg.fits(),
        clients_are_served(seed, *cfg),
    ensures
        r.history@ == final_world(seed, *cfg).history,
        r.sent == final_world(seed, *cfg).wire.net.sent,
        r.dropped == final_world(seed, *cfg).wire.net.dropped,
{
    let mut world = World::new(seed, cfg);
    let ghost s0 = world@;
    let mut backup_ids: Vec<NodeId> = Vec::new();
    let mut b: usize = 1;
    while b < cfg.n_nodes
        invariant
            1 <= b,
            cfg.n_nodes >= 1 ==> b <= cfg.n_nodes,
            cfg.n_nodes == 0 ==> b == 1,
            backup_ids@ == Seq::new((b - 1) as nat, |i: int| (i + 1) as usize),
        decreases cfg.n_nodes - b,
    {
        backup_ids.push(b);
        b = b + 1;
        assert(backup_ids@ =~= Seq::new((b - 1) as nat, |i: int| (i + 1) as usize));
    }
    assert(backup_ids@ =~= backups(cfg.n_nodes));
    assert(updates_in_flight(s0.wire.sched.queue) == 0) by {
        let q = s0.wire.sched.queue;
        assert(q.dom().filter(|id: EventId| q[id].1.msg is Replicate) =~= Set::empty());
    }
    let mut t: u64 = 0;
    while t < cfg.ticks
        invariant
            cfg.fits(),
            clients_are_served(seed, *cfg),
            t <= cfg.ticks,
            backup_ids@ == backups(cfg.n_nodes),
            world.sched.wf(),
            s0 == KvSim::init(seed, *cfg),
            world@ == s0.after_ticks(*cfg, t as nat),
            in_range(world@, *cfg, t as nat),
        decreases cfg.ticks - t,
    {
        let ghost k = t as nat;
        let ghost s = world@;
        proof {
            assert(cfg.n_nodes == 0 ==> !s.issues_operation(*cfg));
            delivery_in_range(s, *cfg, k);
            write_in_range(s.delivered(), *cfg, k);
            read_in_range(s.delivered().write_phase(*cfg), *cfg, k);
            fault_in_range(s.delivered().write_phase(*cfg).read_phase(*cfg), *cfg, k + 1);
        }
        world.deliver(cfg, Ghost(k));
        world.write(cfg, &backup_ids, Ghost(k));
        world.read(cfg);
        world.fault(cfg);
        t = t + 1;
    }
    world.drain(cfg, Ghost(t as nat));
    RunRecord { history: world.history, sent: world.net.sent, dropped: world.net.dropped }
}

/// Run one full simulation for `seed`. Deterministic: same seed + config => same
/// result, including any violation found.
pub fn run(seed: u64, cfg: &RunConfig) -> (r: RunResult)
    requires
        cfg.fits(),
        clients_are_served(seed, *cfg),
    ensures
        r.seed == seed,
        finding_of(r.violation) == run_verdict(seed, *cfg),
        r.ops == final_world(seed, *cfg).history.len(),
        r.sent == final_world(seed, *cfg).wire.net.sent,
        r.dropped == final_world(seed, *cfg).wire.net.dropped,
        cfg.read_from_primary_only ==> r.violation is None,
{
    proof {
        if cfg.read_from_primary_only {
            primary_reads_never_violate(seed, *cfg);
        }
    }
    let record = simulate(seed, cfg);
    let violation = check_linearizability(record.history.as_slice());
    RunResult {
        seed,
        violation,
        ops: record.history.len(),
        sent: record.sent,
        dropped: record.dropped,
    }
}

/// Search seeds 0, 1, 2, ... below `max_seeds` for the first one whose run
/// violates consistency.
pub fn find_violation(max_seeds: u64, cfg: &RunConfig) -> (r: Option<u64>)
    requires
        cfg.fits(),
        forall|s: u64| s < max_seeds ==> #[trigger] clients_are_served(s, *cfg),
    ensures
        r matches Some(seed) ==> seed < max_seeds && run_verdict(seed, *cfg) is Some && forall|s: u64|
            s < seed ==> (#[trigger] run_verdict(s, *cfg)) is None,
        r is None ==> forall|s: u64| s < max_seeds ==> (#[trigger] run_verdict(s, *cfg)) is None,
{
    let mut seed: u64 = 0;
    while seed < max_seeds
        invariant
            cfg.fits(),
            forall|s: u64| s < max_seeds ==> #[trigger] clients_are_served(s, *cfg),
            seed <= max_seeds,
            forall|s: u64| s < seed ==> (#[trigger] run_verdict(s, *cfg)) is None,
        decreases max_seeds - seed,
    {
        let r = run(seed, cfg);
        if r.violation.is_some() {
            return Some(seed);
        }
        seed = seed + 1;
    }
    None
}

/// The primary is never behind what clients have seen: it holds a value that is
/// at least as great as any that was shown, nothing that is in flight can change
/// that, and the history so far is consistent.
spec fn primary_is_current(s: KvSim) -> bool {
    &&& consistent(s.history)
    &&& greatest_shown(s.history, s.history.len() as int) <= s.value_counter
    &&& s.nodes.len() > 0 ==> match s.nodes[0].value_of(the_key()) {
        Some(v) => greatest_shown(s.history, s.history.len() as int) <= v <= s.value_counter,
        None => greatest_shown(s.history, s.history.len() as int) == 0,
    }
    &&& no_update_for_primary(s.wire.sched.queue)
}

/// No update is on its way to node 0.
spec fn no_update_for_primary(queue: Map<EventId, (Tick, Deliver<KvMsg>)>) -> bool {
    forall|id: EventId| #[trigger]
        queue.contains_key(id) && queue[id].1.to == 0 ==> queue[id].1.msg is Ack
}

proof fn send_all_spares_primary(w: Wire<KvMsg>, from: NodeId, outbox: Seq<(NodeId, KvMsg)>)
    requires
        no_update_for_primary(w.sched.queue),
        forall|k: int| 0 <= k < outbox.len() && (#[trigger] outbox[k]).0 == 0 ==> outbox[k].1 is Ack,
    ensures
        no_update_for_primary(w.sent_all(from, outbox).sched.queue),
    decreases outbox.len(),
{
    if outbox.len() > 0 {
        let rest = outbox.drop_last();
        assert forall|k: int| 0 <= k < rest.len() && (#[trigger] rest[k]).0 == 0 implies rest[k].1 is Ack by {
            assert(rest[k] == outbox[k]);
        }
        send_all_spares_primary(w, from, rest);
        let last = outbox[outbox.len() - 1];
        assert(last.0 == 0 ==> last.1 is Ack);
    }
}

/// A delivery changes nothing that the primary or the clients have: what it
/// brings to node 0 is no update, and what it sends there is none either.
proof fn delivery_spares_primary(s: KvSim)
    requires
        no_update_for_primary(s.wire.sched.queue),
        s.wire.sched.wf(),
    ensures
        no_update_for_primary(s.delivered().wire.sched.queue),
        s.delivered().history == s.history,
        s.delivered().value_counter == s.value_counter,
        s.delivered().nodes.len() == s.nodes.len(),
        s.nodes.len() > 0 ==> s.delivered().nodes[0].value_of(the_key()) == s.nodes[0].value_of(
            the_key(),
        ),
{
    if !s.wire.sched.quiet() {
        earliest_exists(s.wire.sched.queue);
        let id = first_event(s.wire.sched.queue);
        let packet = s.wire.sched.first_payload();
        assert(s.wire.sched.queue.contains_key(id));
        let popped = Wire { sched: s.wire.sched.stepped(), ..s.wire };
        assert(no_update_for_primary(popped.sched.queue)) by {
            assert forall|other: EventId| #[trigger]
                popped.sched.queue.contains_key(other) && popped.sched.queue[other].1.to
                    == 0 implies popped.sched.queue[other].1.msg is Ack by {
                assert(s.wire.sched.queue.contains_key(other));
            }
        }
        if packet.to < s.nodes.len() {
            let (node, replies) = s.nodes[packet.to as int].handled(packet.from, packet.msg);
            send_all_spares_primary(popped, packet.to, replies);
        }
    }
}

proof fn write_keeps_primary_current(s: KvSim, cfg: RunConfig)
    requires
        primary_is_current(s),
        s.value_counter < u64::MAX,
        s.nodes.len() == cfg.n_nodes,
        cfg.n_nodes == 0 ==> !happens(s.wire.rng, cfg.write_prob),
    ensures
        primary_is_current(s.write_phase(cfg)),
{
    let r = s.with_rng(advance(s.wire.rng));
    if happens(s.wire.rng, cfg.write_prob) {
        let v = (s.value_counter + 1) as u64;
        let outbox = s.nodes[0].write_outbox(the_key(), v, backups(s.nodes.len() as usize));
        send_all_spares_primary(r.wire, 0, outbox);
        if s.nodes[0].accepts_writes() {
            let op = Op::Write { value: v, seq: s.op_seq, tick: s.wire.sched.now };
            consistent_push(s.history, op);
            greatest_shown_of_push(s.history, op, s.history.len() as int);
        }
    }
}

proof fn primary_read_is_current(s: KvSim, cfg: RunConfig)
    requires
        primary_is_current(s),
        s.nodes.len() == cfg.n_nodes,
        cfg.read_from_primary_only,
        cfg.n_nodes == 0 ==> !happens(s.wire.rng, cfg.read_prob),
    ensures
        primary_is_current(s.read_phase(cfg)),
{
    if happens(s.wire.rng, cfg.read_prob) && !s.nodes[0].crashed {
        let op = Op::Read {
            value: s.nodes[0].value_of(the_key()),
            node: 0,
            seq: s.op_seq,
            tick: s.wire.sched.now,
        };
        consistent_push(s.history, op);
        greatest_shown_of_push(s.history, op, s.history.len() as int);
    }
}

proof fn fault_keeps_primary_current(s: KvSim, cfg: RunConfig)
    requires
        primary_is_current(s),
        s.nodes.len() == cfg.n_nodes,
    ensures
        primary_is_current(s.fault_phase(cfg)),
{
}

/// Everything stays in range, tick after tick.
pub proof fn ticks_in_range(seed: u64, cfg: RunConfig, t: nat)
    requires
        cfg.fits(),
        clients_are_served(seed, cfg),
        t <= cfg.ticks,
    ensures
        in_range(KvSim::init(seed, cfg).after_ticks(cfg, t), cfg, t),
    decreases t,
{
    let s0 = KvSim::init(seed, cfg);
    if t == 0 {
        let q = s0.wire.sched.queue;
        assert(q.dom().filter(|id: EventId| q[id].1.msg is Replicate) =~= Set::empty());
    } else {
        let k = (t - 1) as nat;
        ticks_in_range(seed, cfg, k);
        let s = s0.after_ticks(cfg, k);
        let d = s.delivered();
        let w = d.write_phase(cfg);
        assert(cfg.n_nodes == 0 ==> !s.issues_operation(cfg));
        delivery_in_range(s, cfg, k);
        write_in_range(d, cfg, k);
        read_in_range(w, cfg, k);
        fault_in_range(w.read_phase(cfg), cfg, t);
    }
}

/// What the phases of a tick can count on.
pub proof fn tick_has_room(seed: u64, cfg: RunConfig, t: nat)
    requires
        cfg.fits(),
        clients_are_served(seed, cfg),
        t < cfg.ticks,
    ensures
        ({
            let s = KvSim::init(seed, cfg).after_ticks(cfg, t);
            let d = s.delivered();
            let w = d.write_phase(cfg);
            let r = w.read_phase(cfg);
            &&& s.wire.sched.wf()
            &&& d.nodes.len() == cfg.n_nodes
            &&& d.value_counter < u64::MAX
            &&& d.op_seq < u64::MAX
            &&& cfg.n_nodes > 0 ==> d.nodes[0].next_version < u64::MAX
            &&& w.nodes.len() == cfg.n_nodes
            &&& w.op_seq < u64::MAX
            &&& r.nodes.len() == cfg.n_nodes
            &&& cfg.n_nodes == 0 ==> !happens(d.wire.rng, cfg.write_prob)
            &&& cfg.n_nodes == 0 ==> !happens(w.wire.rng, cfg.read_prob)
        }),
{
    ticks_in_range(seed, cfg, t);
    let s = KvSim::init(seed, cfg).after_ticks(cfg, t);
    let d = s.delivered();
    let w = d.write_phase(cfg);
    assert(cfg.n_nodes == 0 ==> !s.issues_operation(cfg));
    delivery_in_range(s, cfg, t);
    write_in_range(d, cfg, t);
    read_in_range(w, cfg, t);
}

proof fn ticks_keep_primary_current(seed: u64, cfg: RunConfig, t: nat)
    requires
        cfg.fits(),
        clients_are_served(seed, cfg),
        cfg.read_from_primary_only,
        t <= cfg.ticks,
    ensures
        primary_is_current(KvSim::init(seed, cfg).after_ticks(cfg, t)),
    decreases t,
{
    if t > 0 {
        let k = (t - 1) as nat;
        ticks_keep_primary_current(seed, cfg, k);
        tick_has_room(seed, cfg, k);
        let s = KvSim::init(seed, cfg).after_ticks(cfg, k);
        let d = s.delivered();
        let w = d.write_phase(cfg);
        delivery_spares_primary(s);
        write_keeps_primary_current(d, cfg);
        primary_read_is_current(w, cfg);
        fault_keeps_primary_current(w.read_phase(cfg), cfg);
    }
}

proof fn deliveries_keep_history(s: KvSim, k: nat)
    ensures
        s.after_deliveries(k).history == s.history,
    decreases k,
{
    if k > 0 {
        deliveries_keep_history(s, (k - 1) as nat);
    }
}

/// The correct design holds up: if all reads are served by the primary, no seed
/// exposes a violation, whatever the cluster size, the fault model and the
/// length of the run.
pub proof fn primary_reads_never_violate(seed: u64, cfg: RunConfig)
    requires
        cfg.fits(),
        clients_are_served(seed, cfg),
        cfg.read_from_primary_only,
    ensures
        run_verdict(seed, cfg) is None,
{
    ticks_keep_primary_current(seed, cfg, cfg.ticks as nat);
    let s = KvSim::init(seed, cfg).after_ticks(cfg, cfg.ticks as nat);
    deliveries_keep_history(s, choose|k: nat| s.drains_in(k));
}

// ---- What every recorded history satisfies ----

/// The operation's place in the total order.
pub open spec fn seq_of(op: Op) -> u64 {
    match op {
        Op::Write { seq, .. } => seq,
        Op::Read { seq, .. } => seq,
    }
}

/// The operations are numbered in the order in which they were issued.
pub open spec fn numbered(history: Seq<Op>) -> bool {
    forall|i: int| 0 <= i < history.len() ==> #[trigger] seq_of(history[i]) == i
}

/// The history is numbered, its writes increase, and the next ones fit on.
spec fn history_is_orderly(s: KvSim) -> bool {
    &&& numbered(s.history)
    &&& s.op_seq == s.history.len()
    &&& writes_increase(s.history)
    &&& forall|i: int, v: u64|
        0 <= i < s.history.len() && #[trigger] writes(s.history[i], v) ==> v <= s.value_counter
}

proof fn write_is_orderly(s: KvSim, cfg: RunConfig)
    requires
        history_is_orderly(s),
        s.value_counter < u64::MAX,
        s.op_seq < u64::MAX,
    ensures
        history_is_orderly(s.write_phase(cfg)),
{
    let after = s.write_phase(cfg);
    assert forall|i: int| 0 <= i < after.history.len() implies #[trigger] seq_of(after.history[i])
        == i by {
        if i < s.history.len() {
            assert(seq_of(s.history[i]) == i);
        }
    }
    assert forall|i: int, v: u64|
        0 <= i < after.history.len() && #[trigger] writes(after.history[i], v) implies v
        <= after.value_counter by {
        if i < s.history.len() {
            assert(writes(s.history[i], v));
        }
    }
    assert forall|i: int, j: int, a: u64, b: u64|
        0 <= i < j < after.history.len() && #[trigger] writes(after.history[i], a)
            && #[trigger] writes(after.history[j], b) implies a < b by {
        assert(writes(s.history[i], a));
        if j < s.history.len() {
            assert(writes(s.history[j], b));
        }
    }
}

proof fn read_is_orderly(s: KvSim, cfg: RunConfig)
    requires
        history_is_orderly(s),
        s.op_seq < u64::MAX,
    ensures
        history_is_orderly(s.read_phase(cfg)),
{
    let after = s.read_phase(cfg);
    assert forall|i: int| 0 <= i < after.history.len() implies #[trigger] seq_of(after.history[i])
        == i by {
        if i < s.history.len() {
            assert(seq_of(s.history[i]) == i);
        }
    }
    assert forall|i: int, v: u64|
        0 <= i < after.history.len() && #[trigger] writes(after.history[i], v) implies writes(
        s.history[i],
        v,
    ) && i < s.history.len() by {}
    assert forall|i: int, j: int, a: u64, b: u64|
        0 <= i < j < after.history.len() && #[trigger] writes(after.history[i], a)
            && #[trigger] writes(after.history[j], b) implies a < b by {
        assert(writes(s.history[i], a) && writes(s.history[j], b));
    }
}

proof fn ticks_are_orderly(seed: u64, cfg: RunConfig, t: nat)
    requires
        cfg.fits(),
        clients_are_served(seed, cfg),
        t <= cfg.ticks,
    ensures
        history_is_orderly(KvSim::init(seed, cfg).after_ticks(cfg, t)),
    decreases t,
{
    if t > 0 {
        let k = (t - 1) as nat;
        ticks_are_orderly(seed, cfg, k);
        tick_has_room(seed, cfg, k);
        let d = KvSim::init(seed, cfg).after_ticks(cfg, k).delivered();
        write_is_orderly(d, cfg);
        read_is_orderly(d.write_phase(cfg), cfg);
    }
}

/// The client operations of a run are totally ordered: they are numbered from 0
/// on, and each write carries a greater value than the writes before it.
pub proof fn histories_are_ordered(seed: u64, cfg: RunConfig)
    requires
        cfg.fits(),
        clients_are_served(seed, cfg),
    ensures
        numbered(final_world(seed, cfg).history),
        writes_increase(final_world(seed, cfg).history),
{
    ticks_are_orderly(seed, cfg, cfg.ticks as nat);
    let s = KvSim::init(seed, cfg).after_ticks(cfg, cfg.ticks as nat);
    deliveries_keep_history(s, choose|k: nat| s.drains_in(k));
}

/// A violation is real: no register that starts out empty could have produced the
/// operations of the run one after the other.
pub proof fn violations_are_real(seed: u64, cfg: RunConfig, timed: Seq<HistoryOp>)
    requires
        cfg.fits(),
        clients_are_served(seed, cfg),
        run_verdict(seed, cfg) is Some,
        same_ops(final_world(seed, cfg).history, timed),
        sequential(timed),
    ensures
        !linearizable(timed, None),
{
    histories_are_ordered(seed, cfg);
    if linearizable(timed, None) {
        linearizable_histories_pass(final_world(seed, cfg).history, timed);
    }
}

/// The primary holds what was written last, and reads so far returned just that.
spec fn primary_is_register(s: KvSim) -> bool {
    &&& reads_latest(s.history)
    &&& s.nodes.len() > 0 ==> s.nodes[0].value_of(the_key()) == last_written(
        s.history,
        s.history.len() as int,
    )
    &&& no_update_for_primary(s.wire.sched.queue)
}

proof fn last_written_of_push(history: Seq<Op>, op: Op, n: int)
    requires
        0 <= n <= history.len(),
    ensures
        last_written(history.push(op), n) == last_written(history, n),
    decreases n,
{
    if n > 0 {
        last_written_of_push(history, op, n - 1);
    }
}

/// A history stays in order with one more operation that is.
proof fn reads_latest_push(history: Seq<Op>, op: Op)
    requires
        reads_latest(history),
        match op {
            Op::Read { value, .. } => value == last_written(history, history.len() as int),
            Op::Write { .. } => true,
        },
    ensures
        reads_latest(history.push(op)),
        last_written(history.push(op), history.len() as int + 1) == match op {
            Op::Read { value, .. } => value,
            Op::Write { value, .. } => Some(value),
        },
{
    let longer = history.push(op);
    last_written_of_push(history, op, history.len() as int);
    assert forall|j: int| 0 <= j < longer.len() implies #[trigger] reads_latest_at(longer, j) by {
        last_written_of_push(history, op, j);
        if j < history.len() {
            assert(reads_latest_at(history, j));
        }
    }
}

proof fn write_keeps_register(s: KvSim, cfg: RunConfig)
    requires
        primary_is_register(s),
        s.nodes.len() == cfg.n_nodes,
        cfg.n_nodes == 0 ==> !happens(s.wire.rng, cfg.write_prob),
    ensures
        primary_is_register(s.write_phase(cfg)),
{
    if happens(s.wire.rng, cfg.write_prob) {
        let v = (s.value_counter + 1) as u64;
        let outbox = s.nodes[0].write_outbox(the_key(), v, backups(s.nodes.len() as usize));
        send_all_spares_primary(s.with_rng(advance(s.wire.rng)).wire, 0, outbox);
        reads_latest_push(
            s.history,
            Op::Write { value: v, seq: s.op_seq, tick: s.wire.sched.now },
        );
    }
}

proof fn read_keeps_register(s: KvSim, cfg: RunConfig)
    requires
        primary_is_register(s),
        s.nodes.len() == cfg.n_nodes,
        cfg.read_from_primary_only,
        cfg.n_nodes == 0 ==> !happens(s.wire.rng, cfg.read_prob),
    ensures
        primary_is_register(s.read_phase(cfg)),
{
    if happens(s.wire.rng, cfg.read_prob) && !s.nodes[0].crashed {
        reads_latest_push(
            s.history,
            Op::Read {
                value: s.nodes[0].value_of(the_key()),
                node: 0,
                seq: s.op_seq,
                tick: s.wire.sched.now,
            },
        );
    }
}

proof fn fault_keeps_register(s: KvSim, cfg: RunConfig)
    requires
        primary_is_register(s),
        s.nodes.len() == cfg.n_nodes,
    ensures
        primary_is_register(s.fault_phase(cfg)),
{
}

proof fn ticks_keep_register(seed: u64, cfg: RunConfig, t: nat)
    requires
        cfg.fits(),
        clients_are_served(seed, cfg),
        cfg.read_from_primary_only,
        t <= cfg.ticks,
    ensures
        primary_is_register(KvSim::init(seed, cfg).after_ticks(cfg, t)),
    decreases t,
{
    if t > 0 {
        let k = (t - 1) as nat;
        ticks_keep_register(seed, cfg, k);
        tick_has_room(seed, cfg, k);
        let s = KvSim::init(seed, cfg).after_ticks(cfg, k);
        let d = s.delivered();
        let w = d.write_phase(cfg);
        delivery_spares_primary(s);
        write_keeps_register(d, cfg);
        read_keeps_register(w, cfg);
        fault_keeps_register(w.read_phase(cfg), cfg);
    }
}

/// If all reads are served by the primary, every read returns what was written
/// last, and so the run is linearizable, whatever the fault model.
pub proof fn primary_reads_are_linearizable(seed: u64, cfg: RunConfig, timed: Seq<HistoryOp>)
    requires
        cfg.fits(),
        clients_are_served(seed, cfg),
        cfg.read_from_primary_only,
        same_ops(final_world(seed, cfg).history, timed),
        sequential(timed),
        spans_are_proper(timed),
    ensures
        reads_latest(final_world(seed, cfg).history),
        linearizable(timed, None),
{
    ticks_keep_register(seed, cfg, cfg.ticks as nat);
    let s = KvSim::init(seed, cfg).after_ticks(cfg, cfg.ticks as nat);
    deliveries_keep_history(s, choose|k: nat| s.drains_in(k));
    latest_reads_linearize(final_world(seed, cfg).history, timed);
}

// ---- How a run ends ----

pub proof fn deliveries_in_range(s: KvSim, cfg: RunConfig, t: nat, k: nat)
    requires
        cfg.fits(),
        in_range(s, cfg, t),
    ensures
        in_range(s.after_deliveries(k), cfg, t),
    decreases k,
{
    if k > 0 {
        deliveries_in_range(s, cfg, t, (k - 1) as nat);
        delivery_in_range(s.after_deliveries((k - 1) as nat), cfg, t);
    }
}

/// Delivering one message after the other comes to an end.
proof fn deliveries_end(s: KvSim, cfg: RunConfig, t: nat, k: nat)
    requires
        cfg.fits(),
        in_range(s.after_deliveries(k), cfg, t),
        forall|j: nat| j < k ==> !(#[trigger] s.after_deliveries(j)).wire.sched.quiet(),
    ensures
        exists|n: nat| s.drains_in(n),
    decreases
            updates_in_flight(s.after_deliveries(k).wire.sched.queue),
            s.after_deliveries(k).wire.sched.queue.dom().len(),
{
    if s.after_deliveries(k).wire.sched.quiet() {
        assert(s.drains_in(k));
    } else {
        delivery_in_range(s.after_deliveries(k), cfg, t);
        deliveries_end(s, cfg, t, k + 1);
    }
}

/// A run settles: after the last tick the messages in flight are delivered one by one
/// until there is none left, which clients do not notice. In the end every message
/// that was sent has been dropped or delivered.
pub proof fn runs_settle(seed: u64, cfg: RunConfig)
    requires
        cfg.fits(),
        clients_are_served(seed, cfg),
    ensures
        ({
            let last = KvSim::init(seed, cfg).after_ticks(cfg, cfg.ticks as nat);
            let end = final_world(seed, cfg);
            &&& exists|k: nat| end == #[trigger] last.after_deliveries(k)
            &&& forall|id: EventId| !end.wire.sched.queue.contains_key(id)
            &&& end.history == last.history
            &&& end.nodes.len() == cfg.n_nodes
            &&& end.wire.net.sent == end.wire.net.dropped + end.wire.net.delivered
            &&& end.wire.net.sent <= 2 * cfg.n_nodes * cfg.ticks
            &&& end.history.len() <= 2 * cfg.ticks
        }),
{
    let t = cfg.ticks as nat;
    let last = KvSim::init(seed, cfg).after_ticks(cfg, t);
    let end = final_world(seed, cfg);
    ticks_in_range(seed, cfg, t);
    ticks_are_orderly(seed, cfg, t);
    assert(last.after_deliveries(0) == last);
    deliveries_end(last, cfg, t, 0);
    let k = choose|k: nat| last.drains_in(k);
    assert(end == last.after_deliveries(k));
    deliveries_keep_history(last, k);
    deliveries_in_range(last, cfg, t, k);
    assert forall|id: EventId| !end.wire.sched.queue.contains_key(id) by {
        assert(!end.wire.sched.queue.dom().contains(id));
    }
}

} // verus!
