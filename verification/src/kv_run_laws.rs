//! What a run of the key-value store does, phase by phase, and what its history holds.

use crate::checker::{may_follow, reads_never_go_back, Op};
use crate::faults::{after_fault, fault_from, Fault};
use crate::kv::{KvMsg, NodeState};
use crate::net::{
    one_side, send_all_uses_room, sends_drop_or_deliver_once, sides_connect, Deliver, NodeId, Wire,
};
use crate::runner::{
    backups, clients_are_served, deliveries_in_range, delivery_has_room, delivery_in_range,
    final_world, in_range, in_range_is_sound, run_verdict, runs_settle, the_key, tick_has_room,
    ticks_in_range, write_in_range, KvSim, RunConfig,
};
use crate::sim::rng::{advance, chance_is_a_fraction, draw, PROB_ONE};
use crate::sim::scheduler::{earliest_exists, first_event, stepped_is_wf};
use crate::sim::{EventId, Tick};
use vstd::prelude::*;

verus! {

/// By default three nodes run for two thousand ticks, any node serves reads, and in a
/// hundred ticks there are fifteen writes, fifteen reads and three faults to be expected.
pub proof fn default_runs_are_eventful()
    ensures
        ({
            let c = RunConfig::spec_default();
            let one: int = 0x20_0000_0000_0000;
            let writes: int = 100 * c.write_prob.threshold;
            let faults: int = 100 * c.fault_prob.threshold;
            &&& c.n_nodes == 3
            &&& c.ticks == 2000
            &&& !c.read_from_primary_only
            &&& 15 * one <= writes < 15 * one + 100
            &&& c.read_prob == c.write_prob
            &&& 3 * one <= faults < 3 * one + 100
        }),
{
}

// ---- The phases of a tick ----

/// A run starts at tick 0 with nothing in flight and nothing recorded. Every node is up
/// and knows nothing, and node 0 is the only primary.
pub proof fn runs_start_from_nothing(seed: u64, cfg: RunConfig, i: NodeId, y: NodeId)
    requires
        i < cfg.n_nodes,
    ensures
        ({
            let s = KvSim::init(seed, cfg);
            let node = s.nodes[i as int];
            &&& s.nodes.len() == cfg.n_nodes
            &&& s.history.len() == 0
            &&& s.value_counter == 0
            &&& s.op_seq == 0
            &&& s.wire.rng == seed
            &&& s.wire.sched.now == 0
            &&& s.wire.net.config == cfg.net
            &&& s.wire.net.sent == 0 && s.wire.net.dropped == 0 && s.wire.net.delivered == 0
            &&& sides_connect(s.wire.net.side, i, y)
            &&& forall|id: EventId| !s.wire.sched.queue.contains_key(id)
            &&& node.id == i
            &&& node.is_primary <==> i == 0
            &&& !node.crashed
            &&& node.next_version == 1
            &&& node.value_of(the_key()) is None
            &&& node.version_of(the_key()) == 0
        }),
{
}

/// A delivery takes the earliest message off the queue and hands it to its receiver
/// alone, whose replies are sent. With nothing in flight nothing happens. Clients do
/// not notice.
pub proof fn deliveries_reach_the_receiver(s: KvSim, x: int)
    requires
        0 <= x < s.nodes.len(),
    ensures
        ({
            let t = s.delivered();
            let packet = s.wire.sched.queue[first_event(s.wire.sched.queue)].1;
            let popped = Wire { sched: s.wire.sched.stepped(), ..s.wire };
            let quiet = forall|id: EventId| !s.wire.sched.queue.contains_key(id);
            &&& t.history == s.history && t.value_counter == s.value_counter && t.op_seq
                == s.op_seq && t.nodes.len() == s.nodes.len()
            &&& quiet ==> t == s
            &&& !quiet && packet.to >= s.nodes.len() ==> t.nodes == s.nodes && t.wire == popped
            &&& !quiet && packet.to < s.nodes.len() ==> {
                let handled = s.nodes[packet.to as int].handled(packet.from, packet.msg);
                &&& t.nodes[packet.to as int] == handled.0
                &&& x != packet.to ==> t.nodes[x] == s.nodes[x]
                &&& t.wire == popped.sent_all(packet.to, handled.1)
            }
        }),
{
    if forall|id: EventId| !s.wire.sched.queue.contains_key(id) {
        assert(s.wire.sched.queue.dom() =~= Set::empty());
    } else {
        let id = choose|id: EventId| s.wire.sched.queue.contains_key(id);
        assert(s.wire.sched.queue.dom().contains(id));
    }
}

/// What a client write does. One draw decides whether there is one. It takes the next
/// value, and a live primary applies it under its next version, tells every backup in
/// turn, and the write is recorded once with its value, its number and the time.
/// Otherwise nothing is recorded and nothing sent. The backups themselves do not change.
pub proof fn writes_go_to_the_primary(s: KvSim, cfg: RunConfig, x: int)
    requires
        0 <= x < s.nodes.len() <= usize::MAX,
        s.value_counter < u64::MAX,
        s.op_seq < u64::MAX,
        s.nodes[0].next_version < u64::MAX,
    ensures
        ({
            let t = s.write_phase(cfg);
            let issues = draw(s.wire.rng) < cfg.write_prob.threshold * 2048;
            let taken = issues && !s.nodes[0].crashed && s.nodes[0].is_primary;
            let value = (s.value_counter + 1) as u64;
            let version = s.nodes[0].next_version;
            let drawn = Wire { rng: advance(s.wire.rng), ..s.wire };
            let outbox = Seq::new(
                (s.nodes.len() - 1) as nat,
                |k: int| ((k + 1) as usize, KvMsg::Replicate { key: "k"@, value, version }),
            );
            &&& t.nodes.len() == s.nodes.len()
            &&& x != 0 ==> t.nodes[x] == s.nodes[x]
            &&& t.value_counter == if issues {
                s.value_counter + 1
            } else {
                s.value_counter as int
            }
            &&& !taken ==> {
                &&& t.nodes == s.nodes
                &&& t.history == s.history
                &&& t.op_seq == s.op_seq
                &&& t.wire == drawn
            }
            &&& taken ==> {
                &&& t.nodes[0].value_of("k"@) == Some(value)
                &&& t.nodes[0].version_of("k"@) == version
                &&& t.nodes[0].next_version == version + 1
                &&& !t.nodes[0].crashed
                &&& t.nodes[0].is_primary
                &&& t.wire == drawn.sent_all(0, outbox)
                &&& t.history.len() == s.history.len() + 1
                &&& t.history.drop_last() =~= s.history
                &&& t.history.last() == Op::Write {
                    value,
                    seq: s.op_seq,
                    tick: s.wire.sched.now,
                }
                &&& t.op_seq == s.op_seq + 1
            }
        }),
{
    chance_is_a_fraction(s.wire.rng, cfg.write_prob);
    let t = s.write_phase(cfg);
    let value = (s.value_counter + 1) as u64;
    let version = s.nodes[0].next_version;
    let outbox = Seq::new(
        (s.nodes.len() - 1) as nat,
        |k: int| ((k + 1) as usize, KvMsg::Replicate { key: "k"@, value, version }),
    );
    if s.nodes[0].accepts_writes() {
        assert(s.nodes[0].write_outbox(
            the_key(),
            value,
            backups(s.nodes.len() as usize),
        ) =~= outbox);
    } else {
        assert(s.nodes.update(0, s.nodes[0]) =~= s.nodes);
    }
}

/// What a client read does. One draw decides whether there is one. It goes to the
/// primary if only the primary serves reads, and to a node that a second draw picks
/// otherwise. If that node is up, exactly one read is recorded, by that node, with the
/// value that the node holds, the number of the operation and the time. If it is down,
/// or if there is no read, nothing is recorded. Nothing else changes.
pub proof fn reads_are_recorded_once(s: KvSim, cfg: RunConfig)
    requires
        0 < s.nodes.len() <= usize::MAX,
        s.op_seq < u64::MAX,
    ensures
        ({
            let t = s.read_phase(cfg);
            let issues = draw(s.wire.rng) < cfg.read_prob.threshold * 2048;
            let id = if cfg.read_from_primary_only {
                0
            } else {
                (draw(advance(s.wire.rng)) % (s.nodes.len() as u64)) as int
            };
            let served = issues && !s.nodes[id].crashed;
            &&& t.nodes == s.nodes
            &&& t.value_counter == s.value_counter
            &&& t.wire.net == s.wire.net
            &&& t.wire.sched == s.wire.sched
            &&& issues && !cfg.read_from_primary_only ==> t.wire.rng == advance(
                advance(s.wire.rng),
            )
            &&& !issues || cfg.read_from_primary_only ==> t.wire.rng == advance(s.wire.rng)
            &&& !served ==> t.history == s.history && t.op_seq == s.op_seq
            &&& served ==> {
                &&& t.history.len() == s.history.len() + 1
                &&& t.history.drop_last() =~= s.history
                &&& t.history.last() == Op::Read {
                    value: s.nodes[id].value_of("k"@),
                    node: id as usize,
                    seq: s.op_seq,
                    tick: s.wire.sched.now,
                }
                &&& t.op_seq == s.op_seq + 1
            }
        }),
{
    chance_is_a_fraction(s.wire.rng, cfg.read_prob);
}

/// What a fault does: one draw decides whether there is one. A crash and a restart hit
/// the victim alone, an isolation cuts the victim off from everyone else, and a heal
/// connects everyone. Nothing in flight is touched, and nothing is recorded.
pub proof fn faults_hit_their_victim(s: KvSim, cfg: RunConfig, x: NodeId, y: NodeId)
    requires
        s.nodes.len() == cfg.n_nodes,
        x < cfg.n_nodes,
        y < cfg.n_nodes,
    ensures
        ({
            let t = s.fault_phase(cfg);
            let strikes = draw(s.wire.rng) < cfg.fault_prob.threshold * 2048;
            let f = fault_from(advance(s.wire.rng), cfg.n_nodes);
            let before = s.nodes[x as int];
            let after = t.nodes[x as int];
            &&& t.wire.sched == s.wire.sched && t.history == s.history && t.op_seq == s.op_seq
                && t.value_counter == s.value_counter && t.nodes.len() == s.nodes.len()
            &&& t.wire.net.sent == s.wire.net.sent && t.wire.net.dropped == s.wire.net.dropped
                && t.wire.net.delivered == s.wire.net.delivered && t.wire.net.config
                == s.wire.net.config
            &&& !strikes ==> t.nodes == s.nodes && t.wire.net == s.wire.net && t.wire.rng
                == advance(s.wire.rng)
            &&& strikes ==> t.wire.rng == after_fault(advance(s.wire.rng), cfg.n_nodes)
            &&& strikes && f == Fault::Crash(x) ==> after == NodeState { crashed: true, ..before }
            &&& strikes && f == Fault::Restart(x) ==> after == NodeState {
                crashed: false,
                ..before
            }
            &&& f != Fault::Crash(x) && f != Fault::Restart(x) ==> after == before
            &&& strikes && f == Fault::Isolate(x) && y != x ==> !sides_connect(
                t.wire.net.side,
                x,
                y,
            )
            &&& strikes && f is Isolate && f != Fault::Isolate(x) && f != Fault::Isolate(y)
                ==> sides_connect(t.wire.net.side, x, y)
            &&& strikes && f == Fault::Heal ==> sides_connect(t.wire.net.side, x, y)
            &&& f is Crash || f is Restart || f is Nothing ==> t.wire.net == s.wire.net
        }),
{
    chance_is_a_fraction(s.wire.rng, cfg.fault_prob);
    let f = fault_from(advance(s.wire.rng), cfg.n_nodes);
    if let Fault::Isolate(v) = f {
        let group: Seq<NodeId> = seq![v];
        assert(group[0] == v);
        assert(group.contains(v));
        assert(forall|z: NodeId| group.contains(z) ==> z == v);
    }
}

/// A tick delivers, then maybe writes, then maybe reads, then maybe injects a fault;
/// a run is its ticks one after the other, and then one delivery after the other.
pub proof fn ticks_run_the_phases_in_order(s: KvSim, cfg: RunConfig, k: nat)
    ensures
        s.after_ticks(cfg, 0) == s,
        s.after_ticks(cfg, k + 1) == s.after_ticks(cfg, k).delivered().write_phase(cfg).read_phase(
            cfg,
        ).fault_phase(cfg),
        s.after_deliveries(0) == s,
        s.after_deliveries(k + 1) == s.after_deliveries(k).delivered(),
{
}

// ---- What the history holds ----

/// A write of `v`.
pub open spec fn is_write_of(op: Op, v: u64) -> bool {
    op matches Op::Write { value, .. } && value == v
}

/// A read that node `id` served and that returned `v`.
pub open spec fn is_read_of(op: Op, v: Option<u64>, id: NodeId) -> bool {
    op matches Op::Read { value, node, .. } && value == v && node == id
}

/// With reads from the primary only, every tick whose read draw succeeds while the
/// primary is up ends with exactly one more read, by node 0; every other tick adds none.
/// Before it comes the write of the tick, if one is taken. What was recorded stays.
pub proof fn ticks_record_what_they_issue(seed: u64, cfg: RunConfig, t: nat)
    requires
        cfg.fits(),
        cfg.n_nodes > 0,
        cfg.read_from_primary_only,
        t < cfg.ticks,
    ensures
        ({
            let s = KvSim::init(seed, cfg).after_ticks(cfg, t);
            let d = s.delivered();
            let w = d.write_phase(cfg);
            let after = KvSim::init(seed, cfg).after_ticks(cfg, t + 1);
            let wrote: nat = if draw(d.wire.rng) < cfg.write_prob.threshold * 2048
                && !d.nodes[0].crashed && d.nodes[0].is_primary {
                1
            } else {
                0
            };
            let read: nat = if draw(w.wire.rng) < cfg.read_prob.threshold * 2048
                && !d.nodes[0].crashed {
                1
            } else {
                0
            };
            let n = s.history.len() as int;
            &&& after.history.len() == n + wrote + read
            &&& after.history.take(n) =~= s.history
            &&& wrote == 1 ==> is_write_of(after.history[n], (s.value_counter + 1) as u64)
            &&& read == 1 ==> is_read_of(after.history.last(), w.nodes[0].value_of("k"@), 0)
        }),
{
    tick_has_room(seed, cfg, t);
    let d = KvSim::init(seed, cfg).after_ticks(cfg, t).delivered();
    writes_go_to_the_primary(d, cfg, 0);
    reads_are_recorded_once(d.write_phase(cfg), cfg);
}

/// A run is found consistent exactly if no read of it goes back behind what an operation
/// before it has shown, and its history is what was recorded until the last tick.
pub proof fn runs_are_judged_by_their_history(seed: u64, cfg: RunConfig)
    requires
        cfg.fits(),
        clients_are_served(seed, cfg),
    ensures
        ({
            let history = KvSim::init(seed, cfg).after_ticks(cfg, cfg.ticks as nat).history;
            run_verdict(seed, cfg) is None <==> forall|i: int, j: int|
                0 <= i < j < history.len() ==> #[trigger] may_follow(history[i], history[j])
        }),
{
    runs_settle(seed, cfg);
    reads_never_go_back(final_world(seed, cfg).history);
}

/// The primary is up, and the history alternates between writes of 1, 2, 3, ... and
/// reads of what was just written.
spec fn alternates(s: KvSim, t: nat) -> bool {
    &&& s.nodes.len() > 0
    &&& !s.nodes[0].crashed
    &&& s.nodes[0].is_primary
    &&& s.value_counter == t
    &&& s.history.len() == 2 * t
    &&& forall|k: int|
        0 <= k < t ==> is_write_of(#[trigger] s.history[2 * k], (k + 1) as u64)
    &&& forall|k: int|
        0 <= k < t ==> is_read_of(#[trigger] s.history[2 * k + 1], Some((k + 1) as u64), 0)
}

proof fn certain_draws(rng: u64, threshold: u64)
    requires
        threshold >= PROB_ONE,
    ensures
        draw(rng) < threshold * 2048,
{
}

proof fn busy_ticks_alternate(seed: u64, cfg: RunConfig, t: nat)
    requires
        cfg.fits(),
        cfg.n_nodes > 0,
        cfg.read_from_primary_only,
        cfg.write_prob.threshold >= PROB_ONE,
        cfg.read_prob.threshold >= PROB_ONE,
        cfg.fault_prob.threshold == 0,
        t <= cfg.ticks,
    ensures
        alternates(KvSim::init(seed, cfg).after_ticks(cfg, t), t),
    decreases t,
{
    if t > 0 {
        let k = (t - 1) as nat;
        busy_ticks_alternate(seed, cfg, k);
        tick_has_room(seed, cfg, k);
        let s = KvSim::init(seed, cfg).after_ticks(cfg, k);
        let d = s.delivered();
        let w = d.write_phase(cfg);
        let r = w.read_phase(cfg);
        deliveries_reach_the_receiver(s, 0);
        certain_draws(d.wire.rng, cfg.write_prob.threshold);
        certain_draws(w.wire.rng, cfg.read_prob.threshold);
        writes_go_to_the_primary(d, cfg, 0);
        reads_are_recorded_once(w, cfg);
        faults_hit_their_victim(r, cfg, 0, 0);
        let after = r.fault_phase(cfg);
        assert(w.history.drop_last() == s.history);
        assert(r.history.drop_last() == w.history);
        assert forall|j: int| 0 <= j < t implies is_write_of(
            #[trigger] after.history[2 * j],
            (j + 1) as u64,
        ) by {
            if j < k {
                assert(r.history.drop_last()[2 * j] == w.history.drop_last()[2 * j]);
                assert(is_write_of(s.history[2 * j], (j + 1) as u64));
            } else {
                assert(r.history.drop_last()[2 * j] == w.history.last());
            }
        }
        assert forall|j: int| 0 <= j < t implies is_read_of(
            #[trigger] after.history[2 * j + 1],
            Some((j + 1) as u64),
            0,
        ) by {
            if j < k {
                assert(r.history.drop_last()[2 * j + 1] == w.history.drop_last()[2 * j + 1]);
                assert(is_read_of(s.history[2 * j + 1], Some((j + 1) as u64), 0));
            }
        }
    }
}

/// If every tick writes and reads, nothing fails and the primary serves the reads, the
/// history has two operations per tick: the writes of 1, 2, 3, ... in order, and after
/// each of them a read by node 0 that returns it.
pub proof fn busy_clients_fill_the_history(seed: u64, cfg: RunConfig, t: int)
    requires
        cfg.fits(),
        cfg.n_nodes > 0,
        cfg.read_from_primary_only,
        cfg.write_prob.threshold >= PROB_ONE,
        cfg.read_prob.threshold >= PROB_ONE,
        cfg.fault_prob.threshold == 0,
        0 <= t < cfg.ticks,
    ensures
        final_world(seed, cfg).history.len() == 2 * cfg.ticks,
        is_write_of(final_world(seed, cfg).history[2 * t], (t + 1) as u64),
        is_read_of(final_world(seed, cfg).history[2 * t + 1], Some((t + 1) as u64), 0),
{
    busy_ticks_alternate(seed, cfg, cfg.ticks as nat);
    runs_settle(seed, cfg);
}

/// Clients that never write and never read leave no history, and nothing is sent.
pub proof fn idle_clients_leave_no_history(seed: u64, cfg: RunConfig, t: nat)
    requires
        cfg.fits(),
        cfg.write_prob.threshold == 0,
        cfg.read_prob.threshold == 0,
        t <= cfg.ticks,
    ensures
        ({
            let s = KvSim::init(seed, cfg).after_ticks(cfg, t);
            &&& s.history.len() == 0
            &&& s.wire.net.sent == 0
            &&& s.wire.sched.quiet()
        }),
    decreases t,
{
    if t > 0 {
        idle_clients_leave_no_history(seed, cfg, (t - 1) as nat);
    }
}

// ---- Replication ----

/// The packet tells node `b` of version `version`.
spec fn tells(packet: Deliver<KvMsg>, b: int, version: int) -> bool {
    &&& packet.to == b
    &&& packet.msg matches KvMsg::Replicate { version: v, .. }
    &&& v == version
}

/// An update that is in flight is no newer than what `primary` has, and the newest one
/// carries what `primary` holds. None is on its way to node 0.
spec fn packet_is_sound(packet: Deliver<KvMsg>, primary: NodeState) -> bool {
    packet.msg matches KvMsg::Replicate { key, value, version } ==> {
        &&& packet.to != 0
        &&& key == the_key()
        &&& version < primary.next_version
        &&& version + 1 == primary.next_version ==> primary.value_of(the_key()) == Some(value)
    }
}

spec fn queue_is_sound(queue: Map<EventId, (Tick, Deliver<KvMsg>)>, primary: NodeState) -> bool {
    forall|id: EventId| #[trigger]
        queue.contains_key(id) ==> packet_is_sound(queue[id].1, primary)
}

/// A node is no newer than `primary`, and holds the same if it is as new.
spec fn node_is_sound(node: NodeState, primary: NodeState) -> bool {
    &&& !node.crashed
    &&& node.version_of(the_key()) < primary.next_version
    &&& node.version_of(the_key()) + 1 == primary.next_version ==> node.value_of(the_key())
        == primary.value_of(the_key())
}

/// Some update in flight tells node `b` of what is newest.
spec fn is_told(queue: Map<EventId, (Tick, Deliver<KvMsg>)>, b: int, newest: int) -> bool {
    exists|id: EventId| #[trigger] queue.contains_key(id) && tells(queue[id].1, b, newest)
}

/// Every node is as new as the primary, or will be told.
spec fn news_travels(s: KvSim, cfg: RunConfig) -> bool {
    let primary = s.nodes[0];
    &&& s.nodes.len() == cfg.n_nodes
    &&& cfg.n_nodes > 0
    &&& primary.is_primary
    &&& primary.version_of(the_key()) + 1 == primary.next_version
    &&& s.wire.net.side == one_side(cfg.n_nodes as nat)
    &&& s.wire.net.config == cfg.net
    &&& queue_is_sound(s.wire.sched.queue, primary)
    &&& forall|b: int| 0 <= b < s.nodes.len() ==> node_is_sound(#[trigger] s.nodes[b], primary)
    &&& forall|b: int|
        0 <= b < s.nodes.len() && (#[trigger] s.nodes[b]).version_of(the_key()) + 1
            != primary.next_version ==> is_told(
            s.wire.sched.queue,
            b,
            primary.next_version - 1,
        )
}

/// Nothing in flight gets lost when more is sent, and what is new was just sent.
proof fn sends_keep_what_is_in_flight(
    w: Wire<KvMsg>,
    from: NodeId,
    outbox: Seq<(NodeId, KvMsg)>,
    n: nat,
    id: EventId,
)
    requires
        w.has_room(outbox.len()),
        w.sched.wf(),
        w.net.config.drop_prob.threshold == 0,
        w.net.side == one_side(n),
    ensures
        ({
            let t = w.sent_all(from, outbox);
            &&& t.net.side == w.net.side
            &&& t.net.config == w.net.config
            &&& w.sched.queue.contains_key(id) ==> t.sched.queue.contains_key(id)
                && t.sched.queue[id] == w.sched.queue[id]
            &&& t.sched.queue.contains_key(id) && !w.sched.queue.contains_key(id) ==> exists|j: int|
                0 <= j < outbox.len() && (#[trigger] outbox[j]).0 == t.sched.queue[id].1.to
                    && outbox[j].1 == t.sched.queue[id].1.msg
        }),
    decreases outbox.len(),
{
    if outbox.len() > 0 {
        let rest = outbox.drop_last();
        let last = outbox.len() - 1;
        sends_keep_what_is_in_flight(w, from, rest, n, id);
        send_all_uses_room(w, from, rest, outbox.len());
        let m = w.sent_all(from, rest);
        sends_drop_or_deliver_once(m, from, outbox[last].0, outbox[last].1, id);
        let t = w.sent_all(from, outbox);
        if t.sched.queue.contains_key(id) && !w.sched.queue.contains_key(id) {
            if m.sched.queue.contains_key(id) {
                let j = choose|j: int|
                    0 <= j < rest.len() && (#[trigger] rest[j]).0 == m.sched.queue[id].1.to
                        && rest[j].1 == m.sched.queue[id].1.msg;
                assert(outbox[j] == rest[j]);
            } else {
                assert(outbox[last].1 == t.sched.queue[id].1.msg);
            }
        }
    }
}

/// On a whole network that loses nothing every message is in flight once it is sent.
proof fn sends_arrive(
    w: Wire<KvMsg>,
    from: NodeId,
    outbox: Seq<(NodeId, KvMsg)>,
    n: nat,
    j: int,
) -> (id: EventId)
    requires
        w.has_room(outbox.len()),
        w.sched.wf(),
        w.net.config.drop_prob.threshold == 0,
        w.net.side == one_side(n),
        0 <= j < outbox.len(),
    ensures
        ({
            let queue = w.sent_all(from, outbox).sched.queue;
            &&& queue.contains_key(id)
            &&& queue[id].1.to == outbox[j].0
            &&& queue[id].1.msg == outbox[j].1
        }),
    decreases outbox.len(),
{
    let rest = outbox.drop_last();
    let last = outbox.len() - 1;
    let m = w.sent_all(from, rest);
    sends_keep_what_is_in_flight(w, from, rest, n, 0);
    send_all_uses_room(w, from, rest, outbox.len());
    if j < last {
        let id = sends_arrive(w, from, rest, n, j);
        sends_drop_or_deliver_once(m, from, outbox[last].0, outbox[last].1, id);
        id
    } else {
        sends_drop_or_deliver_once(m, from, outbox[last].0, outbox[last].1, 0);
        m.sched.next_seq
    }
}

proof fn news_travels_on(s: KvSim, cfg: RunConfig, t: nat)
    requires
        cfg.fits(),
        in_range(s, cfg, t),
        news_travels(s, cfg),
        cfg.net.drop_prob.threshold == 0,
    ensures
        news_travels(s.delivered(), cfg),
{
    in_range_is_sound(s, cfg, t);
    if !s.wire.sched.quiet() {
        let n = cfg.n_nodes as nat;
        let queue = s.wire.sched.queue;
        let first = first_event(queue);
        earliest_exists(queue);
        stepped_is_wf(s.wire.sched);
        let packet = s.wire.sched.first_payload();
        let popped = Wire { sched: s.wire.sched.stepped(), ..s.wire };
        let d = s.delivered();
        let primary = s.nodes[0];
        assert(queue.contains_key(first));
        assert(packet_is_sound(packet, primary));
        assert(queue_is_sound(popped.sched.queue, primary)) by {
            assert forall|id: EventId| #[trigger]
                popped.sched.queue.contains_key(id) implies packet_is_sound(
                popped.sched.queue[id].1,
                primary,
            ) by {
                assert(queue.contains_key(id));
            }
        }
        if packet.to < s.nodes.len() {
            let b = packet.to as int;
            assert(node_is_sound(s.nodes[b], primary));
            let (node, replies) = s.nodes[b].handled(packet.from, packet.msg);
            if packet.msg is Replicate {
                delivery_has_room(s, cfg, t);
            } else {
                assert(popped.sent_all(packet.to, replies) == popped);
            }
            assert(d.nodes[0] == primary);
            assert(queue_is_sound(d.wire.sched.queue, primary)) by {
                assert forall|id: EventId| #[trigger]
                    d.wire.sched.queue.contains_key(id) implies packet_is_sound(
                    d.wire.sched.queue[id].1,
                    primary,
                ) by {
                    if packet.msg is Replicate {
                        sends_keep_what_is_in_flight(popped, packet.to, replies, n, id);
                    }
                    if popped.sched.queue.contains_key(id) {
                        assert(packet_is_sound(popped.sched.queue[id].1, primary));
                    }
                }
            }
            if packet.msg is Replicate {
                sends_keep_what_is_in_flight(popped, packet.to, replies, n, 0);
            }
            assert forall|c: int| 0 <= c < d.nodes.len() implies node_is_sound(
                #[trigger] d.nodes[c],
                primary,
            ) by {
                assert(node_is_sound(s.nodes[c], primary));
            }
            assert forall|c: int|
                0 <= c < d.nodes.len() && (#[trigger] d.nodes[c]).version_of(the_key()) + 1
                    != primary.next_version implies is_told(
                d.wire.sched.queue,
                c,
                primary.next_version - 1,
            ) by {
                assert(node_is_sound(s.nodes[c], primary));
                assert(s.nodes[c].version_of(the_key()) + 1 != primary.next_version);
                let id = choose|id: EventId| #[trigger]
                    queue.contains_key(id) && tells(queue[id].1, c, primary.next_version - 1);
                assert(id != first);
                assert(popped.sched.queue.contains_key(id));
                if packet.msg is Replicate {
                    sends_keep_what_is_in_flight(popped, packet.to, replies, n, id);
                }
                assert(d.wire.sched.queue.contains_key(id));
            }
        } else {
            assert forall|c: int|
                0 <= c < d.nodes.len() && (#[trigger] d.nodes[c]).version_of(the_key()) + 1
                    != primary.next_version implies is_told(
                d.wire.sched.queue,
                c,
                primary.next_version - 1,
            ) by {
                assert(s.nodes[c].version_of(the_key()) + 1 != primary.next_version);
                let id = choose|id: EventId| #[trigger]
                    queue.contains_key(id) && tells(queue[id].1, c, primary.next_version - 1);
                assert(d.wire.sched.queue.contains_key(id));
            }
        }
    }
}

proof fn writes_are_news(s: KvSim, cfg: RunConfig, t: nat)
    requires
        cfg.fits(),
        t < cfg.ticks,
        in_range(s, cfg, t),
        news_travels(s, cfg),
        cfg.net.drop_prob.threshold == 0,
    ensures
        news_travels(s.write_phase(cfg), cfg),
{
    in_range_is_sound(s, cfg, t);
    let n = cfg.n_nodes as nat;
    let w = s.write_phase(cfg);
    write_in_range(s, cfg, t);
    writes_go_to_the_primary(s, cfg, 0);
    if draw(s.wire.rng) < cfg.write_prob.threshold * 2048 {
        assert(node_is_sound(s.nodes[0], s.nodes[0]));
        let value = (s.value_counter + 1) as u64;
        let version = s.nodes[0].next_version;
        let drawn = Wire { rng: advance(s.wire.rng), ..s.wire };
        let outbox = Seq::new(
            (s.nodes.len() - 1) as nat,
            |k: int| ((k + 1) as usize, KvMsg::Replicate { key: "k"@, value, version }),
        );
        assert(w.wire == drawn.sent_all(0, outbox));
        if outbox.len() > 0 {
            assert(drawn.has_room(outbox.len()));
        }
        let primary = w.nodes[0];
        assert forall|id: EventId| #[trigger]
            w.wire.sched.queue.contains_key(id) implies packet_is_sound(
            w.wire.sched.queue[id].1,
            primary,
        ) by {
            if outbox.len() > 0 {
                sends_keep_what_is_in_flight(drawn, 0, outbox, n, id);
            }
            if s.wire.sched.queue.contains_key(id) {
                assert(packet_is_sound(s.wire.sched.queue[id].1, s.nodes[0]));
            }
        }
        if outbox.len() > 0 {
            sends_keep_what_is_in_flight(drawn, 0, outbox, n, 0);
        }
        assert forall|b: int| 0 <= b < w.nodes.len() implies node_is_sound(
            #[trigger] w.nodes[b],
            primary,
        ) by {
            assert(node_is_sound(s.nodes[b], s.nodes[0]));
        }
        assert forall|b: int|
            0 <= b < w.nodes.len() && (#[trigger] w.nodes[b]).version_of(the_key()) + 1
                != primary.next_version implies is_told(
            w.wire.sched.queue,
            b,
            primary.next_version - 1,
        ) by {
            let id = sends_arrive(drawn, 0, outbox, n, b - 1);
            assert(tells(w.wire.sched.queue[id].1, b, version as int));
        }
    } else {
        assert(w.wire.sched.queue == s.wire.sched.queue);
        assert(w.nodes == s.nodes);
    }
}

proof fn news_travels_every_tick(seed: u64, cfg: RunConfig, t: nat)
    requires
        cfg.fits(),
        cfg.n_nodes > 0,
        cfg.net.drop_prob.threshold == 0,
        cfg.fault_prob.threshold == 0,
        t <= cfg.ticks,
    ensures
        news_travels(KvSim::init(seed, cfg).after_ticks(cfg, t), cfg),
    decreases t,
{
    if t > 0 {
        let k = (t - 1) as nat;
        news_travels_every_tick(seed, cfg, k);
        let s = KvSim::init(seed, cfg).after_ticks(cfg, k);
        let d = s.delivered();
        let w = d.write_phase(cfg);
        let r = w.read_phase(cfg);
        ticks_in_range(seed, cfg, k);
        delivery_in_range(s, cfg, k);
        news_travels_on(s, cfg, k);
        tick_has_room(seed, cfg, k);
        writes_are_news(d, cfg, k);
        reads_are_recorded_once(w, cfg);
        faults_hit_their_victim(r, cfg, 0, 0);
        let after = r.fault_phase(cfg);
        assert(after.nodes == w.nodes);
        assert(after.wire.sched == w.wire.sched);
    }
}

proof fn news_travels_while_draining(s: KvSim, cfg: RunConfig, t: nat, k: nat)
    requires
        cfg.fits(),
        in_range(s, cfg, t),
        news_travels(s, cfg),
        cfg.net.drop_prob.threshold == 0,
    ensures
        news_travels(s.after_deliveries(k), cfg),
    decreases k,
{
    if k > 0 {
        let j = (k - 1) as nat;
        news_travels_while_draining(s, cfg, t, j);
        deliveries_in_range(s, cfg, t, j);
        news_travels_on(s.after_deliveries(j), cfg, t);
    }
}

/// Replication works: if no message is lost and nothing fails, every backup holds in the
/// end what the primary holds.
pub proof fn backups_catch_up(seed: u64, cfg: RunConfig, b: int)
    requires
        cfg.fits(),
        cfg.net.drop_prob.threshold == 0,
        cfg.fault_prob.threshold == 0,
        0 <= b < cfg.n_nodes,
    ensures
        ({
            let end = final_world(seed, cfg);
            &&& end.nodes[b].value_of("k"@) == end.nodes[0].value_of("k"@)
            &&& end.nodes[b].version_of("k"@) == end.nodes[0].version_of("k"@)
            &&& !end.nodes[b].crashed
        }),
{
    let t = cfg.ticks as nat;
    let last = KvSim::init(seed, cfg).after_ticks(cfg, t);
    let end = final_world(seed, cfg);
    runs_settle(seed, cfg);
    let k = choose|k: nat| end == #[trigger] last.after_deliveries(k);
    ticks_in_range(seed, cfg, t);
    news_travels_every_tick(seed, cfg, t);
    news_travels_while_draining(last, cfg, t, k);
    let primary = end.nodes[0];
    assert(node_is_sound(end.nodes[b], primary));
    if end.nodes[b].version_of(the_key()) + 1 != primary.next_version {
        assert(is_told(end.wire.sched.queue, b, primary.next_version - 1));
    }
}

} // verus!
