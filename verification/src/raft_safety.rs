//! Every Raft run is safe: without the injected bug, no seed and no
//! configuration makes the checker report a violation.
//!
//! Each phase of a tick is a sequence of steps that `raft_cluster` allows, so the
//! invariant there holds after every tick of every run, and with it what the
//! checker looks for.

use crate::faults::{fault_from, Fault};
use crate::net::{Deliver, NodeId, Wire};
use crate::raft::{peers, peers_len, promises_are_kept, RaftState, Role, Rpc};
use crate::raft_cluster::{
    command_holds, commits_survive, committed_prefixes_agree, crash_holds, extends,
    extends_is_transitive, grows, grows_extends, handling_holds, heartbeat_holds, holds,
    log_is_short, matching_terms_mean_matching_logs, one_leader_per_term, packet_grows,
    restart_holds, start_holds, timer_holds, History,
};
use crate::raft_range::{
    fault_in_range, in_range, init_in_range, limits_at, limits_delivered, limits_step,
    limits_timed, node_ok, popped_in_range, send_cap, stabilizing_in_range,
    tick_delivery_in_range, tick_rest_in_range, timers_in_range, Limits,
};
use crate::raft_runner::{
    after_chaos, armed_node, committed_logs_agree, disagree, election_scan, final_world,
    insert_sorted, leaders_of, stabilizes, Ledger, RaftConfig, RaftSim,
};
use crate::sim::rng::{advance, draw_index};
use crate::sim::scheduler::first_event;
use crate::sim::{EventId, Tick};
use vstd::prelude::*;

verus! {

/// Every message in flight is in order.
spec fn queue_safe(h: History, n: nat, queue: Map<EventId, (Tick, Deliver<Rpc>)>) -> bool {
    forall|id: EventId| #[trigger] queue.contains_key(id) ==> h.packet_ok(n, queue[id].1)
}

/// Only the leader of a term has been seen to lead it.
spec fn ledger_safe(h: History, ledger: Ledger) -> bool {
    forall|t: u64| #[trigger]
        ledger.contains_key(t) ==> h.elected(t) && ledger[t] == seq![h.leader(t)]
}

/// The invariant of a simulated world and the history of its cluster.
#[verifier::opaque]
spec fn safe(h: History, s: RaftSim) -> bool {
    &&& holds(h, s.nodes)
    &&& queue_safe(h, s.nodes.len(), s.wire.sched.queue)
    &&& ledger_safe(h, s.ledger)
}

/// The world went on from `s` to `t` and its history from `h` to `g`: the history
/// was continued, and no commit index went back.
#[verifier::opaque]
spec fn follows(h: History, s: RaftSim, g: History, t: RaftSim) -> bool {
    &&& extends(h, g)
    &&& s.nodes.len() == t.nodes.len()
    &&& forall|x: int|
        0 <= x < s.nodes.len() ==> (#[trigger] s.nodes[x]).commit_index
            <= t.nodes[x].commit_index
}

proof fn follows_is_transitive(
    h: History,
    s: RaftSim,
    g: History,
    t: RaftSim,
    e: History,
    u: RaftSim,
)
    requires
        follows(h, s, g, t),
        follows(g, t, e, u),
    ensures
        follows(h, s, e, u),
{
    reveal(follows);
    extends_is_transitive(h, g, e);
    assert forall|x: int| 0 <= x < s.nodes.len() implies (#[trigger] s.nodes[x]).commit_index
        <= u.nodes[x].commit_index by {
        assert(s.nodes[x].commit_index <= t.nodes[x].commit_index);
    }
}

proof fn follows_itself(h: History, s: RaftSim)
    ensures
        follows(h, s, h, s),
{
    reveal(follows);
}

/// What a step of a node does not touch stays safe.
proof fn rest_stays_safe(a: History, b: History, y: NodeId, s: RaftSim)
    requires
        grows(a, b, y),
        safe(a, s),
    ensures
        queue_safe(b, s.nodes.len(), s.wire.sched.queue),
        ledger_safe(b, s.ledger),
{
    reveal(safe);
    let queue = s.wire.sched.queue;
    assert forall|id: EventId| #[trigger] queue.contains_key(id) implies b.packet_ok(
        s.nodes.len(),
        queue[id].1,
    ) by {
        packet_grows(a, b, y, s.nodes.len(), queue[id].1);
    }
    assert forall|t: u64| #[trigger] s.ledger.contains_key(t) implies b.elected(t) && s.ledger[t]
        == seq![b.leader(t)] by {
        assert(a.elected(t));
    }
}

/// The packets that carry an outbox from `from` are in order.
spec fn outbox_safe(h: History, n: nat, from: NodeId, outbox: Seq<(NodeId, Rpc)>) -> bool {
    forall|k: int|
        0 <= k < outbox.len() ==> h.packet_ok(
            n,
            Deliver { from, to: (#[trigger] outbox[k]).0, msg: outbox[k].1 },
        )
}

proof fn sending_is_safe(
    h: History,
    n: nat,
    w: Wire<Rpc>,
    from: NodeId,
    outbox: Seq<(NodeId, Rpc)>,
)
    requires
        queue_safe(h, n, w.sched.queue),
        outbox_safe(h, n, from, outbox),
    ensures
        queue_safe(h, n, w.sent_all(from, outbox).sched.queue),
    decreases outbox.len(),
{
    if outbox.len() > 0 {
        let rest = outbox.drop_last();
        assert forall|k: int| 0 <= k < rest.len() implies h.packet_ok(
            n,
            Deliver { from, to: (#[trigger] rest[k]).0, msg: rest[k].1 },
        ) by {
            assert(rest[k] == outbox[k]);
        }
        sending_is_safe(h, n, w, from, rest);
        let last = outbox[outbox.len() - 1];
        assert(h.packet_ok(n, Deliver { from, to: last.0, msg: last.1 }));
    }
}

/// A delivery is safe.
proof fn delivery_is_safe(h: History, s: RaftSim, cfg: RaftConfig, lim: Limits) -> (g: History)
    requires
        safe(h, s),
        in_range(s, cfg, lim),
    ensures
        safe(g, s.delivered()),
        follows(h, s, g, s.delivered()),
{
    reveal(safe);
    reveal(follows);
    if s.wire.sched.quiet() {
        h
    } else {
        popped_in_range(s, cfg, lim);
        let p = s.popped();
        assert forall|id: EventId| #[trigger]
            p.wire.sched.queue.contains_key(id) implies h.packet_ok(
            s.nodes.len(),
            p.wire.sched.queue[id].1,
        ) by {
            assert(s.wire.sched.queue.contains_key(id));
        }
        if !s.has_delivery() {
            h
        } else {
            let packet = s.wire.sched.first_payload();
            let n = s.nodes.len();
            assert(s.wire.sched.queue.contains_key(first_event(s.wire.sched.queue)));
            let g = handling_holds(h, s.nodes, packet.to, packet.from, packet.msg);
            rest_stays_safe(h, g, packet.to, p);
            let (node, replies) = s.nodes[packet.to as int].handled(packet.from, packet.msg);
            sending_is_safe(g, n, p.wire, packet.to, replies);
            let old_node = s.nodes[packet.to as int];
            grows_extends(h, g, packet.to);
            assert(h.node_ok(n, packet.to, old_node));
            log_is_short(h, n, old_node.log);
            promises_are_kept(old_node, packet.from, packet.msg);
            g
        }
    }
}

/// The timers of one node are safe.
proof fn node_timers_are_safe(
    h: History,
    s: RaftSim,
    cfg: RaftConfig,
    id: usize,
) -> (g: History)
    requires
        safe(h, s),
        id < s.nodes.len(),
        s.nodes[id as int].n_nodes == s.nodes.len(),
        s.nodes[id as int].current_term < u64::MAX,
    ensures
        safe(g, s.node_timers(cfg, id)),
        follows(h, s, g, s.node_timers(cfg, id)),
{
    reveal(safe);
    reveal(follows);
    let n = s.nodes.len();
    let node = s.nodes[id as int];
    if node.crashed {
        h
    } else {
        let g = timer_holds(h, s.nodes, id);
        rest_stays_safe(h, g, id, s);
        grows_extends(h, g, id);
        let e = s.election_timer(id);
        peers_len(n, node.id);
        if node.times_out() {
            let t = node.ticked();
            let out = t.campaign_outbox();
            assert forall|k: int| 0 <= k < out.len() implies g.packet_ok(
                n,
                Deliver { from: id, to: (#[trigger] out[k]).0, msg: out[k].1 },
            ) by {
                assert(out[k].1 == t.campaigning().vote_request());
            }
            sending_is_safe(g, n, s.wire, id, out);
        }
        assert(safe(g, e));
        let m = e.nodes[id as int];
        if m.role == Role::Leader {
            let out = m.heartbeat_outbox();
            let r = e.with_rng(advance(e.wire.rng));
            assert forall|k: int| 0 <= k < out.len() implies g.packet_ok(
                n,
                Deliver { from: id, to: (#[trigger] out[k]).0, msg: out[k].1 },
            ) by {
                let p = peers(n, node.id)[k];
                heartbeat_holds(g, e.nodes, id, p);
            }
            sending_is_safe(g, n, r.wire, id, out);
        }
        g
    }
}

/// The timers of the first `k` nodes are safe.
proof fn timers_are_safe(
    h: History,
    s: RaftSim,
    cfg: RaftConfig,
    lim: Limits,
    k: nat,
) -> (g: History)
    requires
        safe(h, s),
        cfg.fits(),
        in_range(s, cfg, lim),
        k <= cfg.n_nodes,
        lim.fired <= cfg.total_ticks(),
        cfg.total_ticks() > 0,
        lim.sent + 2 * (cfg.n_nodes as nat * cfg.n_nodes as nat) <= send_cap(cfg),
        lim.term + cfg.n_nodes <= u64::MAX,
    ensures
        safe(g, s.timers(cfg, k)),
        follows(h, s, g, s.timers(cfg, k)),
    decreases k,
{
    if k == 0 {
        follows_itself(h, s);
        h
    } else {
        let j = (k - 1) as nat;
        let g = timers_are_safe(h, s, cfg, lim, j);
        timers_in_range(s, cfg, lim, j);
        let t = s.timers(cfg, j);
        assert(node_ok(
            t.nodes[j as int],
            j as int,
            cfg.n_nodes,
            t.commands as nat,
            lim.term + j,
        ));
        let e = node_timers_are_safe(g, t, cfg, j as usize);
        follows_is_transitive(h, s, g, t, e, s.timers(cfg, k));
        e
    }
}

/// The client is safe.
proof fn client_is_safe(h: History, s: RaftSim, cfg: RaftConfig, lim: Limits) -> (g: History)
    requires
        safe(h, s),
        in_range(s, cfg, lim),
        s.commands + 1 < usize::MAX,
    ensures
        safe(g, s.client_phase(cfg)),
        follows(h, s, g, s.client_phase(cfg)),
{
    reveal(safe);
    reveal(follows);
    let a = s.with_rng(advance(s.wire.rng));
    let drawn = draw_index(a.wire.rng, cfg.n_nodes);
    if drawn is Some && s.nodes[drawn->0 as int].leads() && s.client_phase(cfg).commands
        != s.commands {
        let id = drawn->0;
        let node = s.nodes[id as int];
        assert(node_ok(
            node,
            id as int,
            cfg.n_nodes,
            s.commands as nat,
            lim.term,
        ));
        let g = command_holds(h, s.nodes, id, (s.commands + 1) as u64);
        rest_stays_safe(h, g, id, s);
        grows_extends(h, g, id);
        g
    } else {
        h
    }
}

/// A fault is safe.
proof fn fault_is_safe(h: History, s: RaftSim, cfg: RaftConfig)
    requires
        safe(h, s),
        s.nodes.len() == cfg.n_nodes,
    ensures
        safe(h, s.fault_phase(cfg)),
        follows(h, s, h, s.fault_phase(cfg)),
{
    reveal(safe);
    reveal(follows);
    let a = s.with_rng(advance(s.wire.rng));
    match fault_from(a.wire.rng, cfg.n_nodes) {
        Fault::Crash(v) => {
            crash_holds(h, s.nodes, v);
        },
        Fault::Restart(v) => {
            restart_holds(h, s.nodes, v);
        },
        _ => {},
    }
}

/// Looking at the nodes of a safe cluster finds no rival.
proof fn scan_is_safe(h: History, nodes: Seq<RaftState>, ledger: Ledger, k: nat)
    requires
        holds(h, nodes),
        ledger_safe(h, ledger),
        k <= nodes.len(),
    ensures
        election_scan(nodes, ledger, k).1 is None,
        ledger_safe(h, election_scan(nodes, ledger, k).0),
    decreases k,
{
    if k > 0 {
        let j = (k - 1) as nat;
        scan_is_safe(h, nodes, ledger, j);
        let l = election_scan(nodes, ledger, j).0;
        let x = j as usize;
        let node = nodes[x as int];
        assert(h.node_ok(nodes.len(), x, node));
        if node.role == Role::Leader {
            let seen = leaders_of(l, node.current_term);
            if l.contains_key(node.current_term) {
                assert(seen == seq![node.id]);
                assert(seen.last() == node.id);
            }
            assert(insert_sorted(seen, node.id) =~= seq![node.id]);
        }
    }
}

/// The committed logs of a safe cluster agree.
proof fn committed_logs_are_safe(h: History, nodes: Seq<RaftState>)
    requires
        holds(h, nodes),
    ensures
        committed_logs_agree(nodes),
{
    assert forall|i: int, j: int, x: int| !#[trigger] disagree(nodes, i, j, x) by {
        if disagree(nodes, i, j, x) {
            committed_prefixes_agree(h, nodes, i as usize, j as usize, x);
        }
    }
}

/// The check of a safe world finds nothing.
proof fn check_is_safe(h: History, s: RaftSim)
    requires
        safe(h, s),
    ensures
        safe(h, s.checked()),
        follows(h, s, h, s.checked()),
        s.checked().violation is None,
{
    reveal(safe);
    reveal(follows);
    scan_is_safe(h, s.nodes, s.ledger, s.nodes.len());
    committed_logs_are_safe(h, s.nodes);
}

/// The timers, the client and nothing else.
proof fn tick_is_safe(h: History, d: RaftSim, cfg: RaftConfig, t: nat) -> (g: History)
    requires
        safe(h, d),
        cfg.fits(),
        t < cfg.total_ticks(),
        in_range(d, cfg, limits_delivered(cfg, t)),
    ensures
        safe(g, d.timers(cfg, cfg.n_nodes as nat).client_phase(cfg)),
        follows(h, d, g, d.timers(cfg, cfg.n_nodes as nat).client_phase(cfg)),
        in_range(
            d.timers(cfg, cfg.n_nodes as nat).client_phase(cfg),
            cfg,
            limits_at(cfg, t + 1),
        ),
{
    limits_step(cfg, t);
    tick_rest_in_range(d, cfg, t);
    let n = cfg.n_nodes as nat;
    let w = d.timers(cfg, n);
    let g = timers_are_safe(h, d, cfg, limits_delivered(cfg, t), n);
    let e = client_is_safe(g, w, cfg, limits_timed(cfg, t));
    follows_is_transitive(h, d, g, w, e, w.client_phase(cfg));
    e
}

/// A new cluster is safe.
proof fn start_is_safe(seed: u64, cfg: RaftConfig)
    requires
        !cfg.inject_bug,
    ensures
        safe(History::init(), RaftSim::init(seed, cfg)),
{
    reveal(safe);
    let s = RaftSim::init(seed, cfg);
    assert forall|x: NodeId| x < s.nodes.len() implies (#[trigger] s.nodes[x as int]) == (
    RaftState {
        base_timeout: s.nodes[x as int].base_timeout,
        election_timer: s.nodes[x as int].election_timer,
        ..RaftState::init(x, s.nodes.len() as usize)
    }) by {
        assert(s.nodes[x as int] == armed_node(seed, cfg, x as nat));
    }
    start_holds(s.nodes);
}

/// A tick with faults is safe.
proof fn chaos_tick_is_safe(h: History, s: RaftSim, cfg: RaftConfig, t: nat) -> (g: History)
    requires
        safe(h, s),
        cfg.fits(),
        t < cfg.total_ticks(),
        in_range(s, cfg, limits_at(cfg, t)),
    ensures
        safe(g, s.chaos_tick(cfg)),
        follows(h, s, g, s.chaos_tick(cfg)),
        in_range(s.chaos_tick(cfg), cfg, limits_at(cfg, t + 1)),
        s.chaos_tick(cfg).violation is None,
{
    tick_delivery_in_range(s, cfg, t);
    let a = delivery_is_safe(h, s, cfg, limits_at(cfg, t));
    let d = s.delivered_counting();
    assert(safe(a, d) && follows(h, s, a, d)) by {
        reveal(safe);
        reveal(follows);
    }
    let b = tick_is_safe(a, d, cfg, t);
    let c = d.timers(cfg, cfg.n_nodes as nat).client_phase(cfg);
    let f = c.fault_phase(cfg);
    fault_is_safe(b, c, cfg);
    fault_in_range(c, cfg, limits_at(cfg, t + 1));
    check_is_safe(b, f);
    follows_is_transitive(h, s, a, d, b, c);
    follows_is_transitive(h, s, b, c, b, f);
    follows_is_transitive(h, s, b, f, b, f.checked());
    b
}

/// A tick without faults is safe.
proof fn calm_tick_is_safe(h: History, s: RaftSim, cfg: RaftConfig, t: nat) -> (g: History)
    requires
        safe(h, s),
        cfg.fits(),
        t < cfg.total_ticks(),
        in_range(s, cfg, limits_at(cfg, t)),
    ensures
        safe(g, s.calm_tick(cfg)),
        follows(h, s, g, s.calm_tick(cfg)),
        in_range(s.calm_tick(cfg), cfg, limits_at(cfg, t + 1)),
        s.calm_tick(cfg).violation is None,
{
    tick_delivery_in_range(s, cfg, t);
    let d = s.delivered();
    let a = delivery_is_safe(h, s, cfg, limits_at(cfg, t));
    let b = tick_is_safe(a, d, cfg, t);
    let c = d.timers(cfg, cfg.n_nodes as nat).client_phase(cfg);
    check_is_safe(b, c);
    follows_is_transitive(h, s, a, d, b, c);
    follows_is_transitive(h, s, b, c, b, c.checked());
    b
}

/// Reviving nodes one after the other.
proof fn revival_is_safe(h: History, nodes: Seq<RaftState>, k: nat) -> (revived: Seq<RaftState>)
    requires
        holds(h, nodes),
        k <= nodes.len(),
    ensures
        holds(h, revived),
        revived.len() == nodes.len(),
        forall|i: int| 0 <= i < k ==> #[trigger] revived[i] == nodes[i].restarted(),
        forall|i: int| k <= i < nodes.len() ==> #[trigger] revived[i] == nodes[i],
    decreases k,
{
    if k == 0 {
        nodes
    } else {
        let before = revival_is_safe(h, nodes, (k - 1) as nat);
        restart_holds(h, before, (k - 1) as usize);
        before.update(k - 1, before[k - 1].restarted())
    }
}

/// Healing the network and reviving every node is safe.
proof fn stabilizing_is_safe(h: History, s: RaftSim)
    requires
        safe(h, s),
    ensures
        safe(h, s.stabilizing()),
        follows(h, s, h, s.stabilizing()),
{
    reveal(safe);
    reveal(follows);
    let revived = revival_is_safe(h, s.nodes, s.nodes.len());
    assert(revived =~= s.stabilizing().nodes);
}

/// The world after `k` ticks of the run for `seed`: those of the chaos phase, then
/// those of the stabilization phase.
pub open spec fn world_at(seed: u64, cfg: RaftConfig, k: nat) -> RaftSim {
    if k <= cfg.ticks {
        RaftSim::init(seed, cfg).chaos(cfg, k)
    } else {
        after_chaos(seed, cfg).stabilizing().calm(cfg, (k - cfg.ticks) as nat)
    }
}

/// After `k` ticks the world is safe and in range, and nothing was reported.
#[verifier::opaque]
spec fn safe_at(h: History, seed: u64, cfg: RaftConfig, k: nat) -> bool {
    &&& safe(h, world_at(seed, cfg, k))
    &&& in_range(world_at(seed, cfg, k), cfg, limits_at(cfg, k))
    &&& world_at(seed, cfg, k).violation is None
}

/// One more tick is safe.
proof fn next_tick_is_safe(h: History, seed: u64, cfg: RaftConfig, k: nat) -> (g: History)
    requires
        cfg.fits(),
        k < cfg.total_ticks(),
        safe_at(h, seed, cfg, k),
    ensures
        safe_at(g, seed, cfg, k + 1),
        follows(h, world_at(seed, cfg, k), g, world_at(seed, cfg, k + 1)),
{
    reveal(safe_at);
    let s = world_at(seed, cfg, k);
    if k < cfg.ticks {
        chaos_tick_is_safe(h, s, cfg, k)
    } else if k == cfg.ticks {
        let start = s.stabilizing();
        stabilizing_is_safe(h, s);
        stabilizing_in_range(s, cfg, limits_at(cfg, k));
        let g = calm_tick_is_safe(h, start, cfg, k);
        assert(start.calm(cfg, 0) == start);
        assert(start.calm(cfg, 1) == start.calm_tick(cfg));
        follows_is_transitive(h, s, h, start, g, start.calm_tick(cfg));
        g
    } else {
        calm_tick_is_safe(h, s, cfg, k)
    }
}

/// Every run is safe after every tick.
proof fn world_is_safe(seed: u64, cfg: RaftConfig, k: nat) -> (h: History)
    requires
        cfg.fits(),
        !cfg.inject_bug,
        k <= cfg.total_ticks(),
    ensures
        safe_at(h, seed, cfg, k),
    decreases k,
{
    if k == 0 {
        reveal(safe_at);
        init_in_range(seed, cfg);
        start_is_safe(seed, cfg);
        History::init()
    } else {
        let h = world_is_safe(seed, cfg, (k - 1) as nat);
        next_tick_is_safe(h, seed, cfg, (k - 1) as nat)
    }
}

/// Two moments of a run, the later of which follows from the earlier one.
proof fn worlds_follow(seed: u64, cfg: RaftConfig, a: nat, b: nat) -> (r: (History, History))
    requires
        cfg.fits(),
        !cfg.inject_bug,
        a <= b <= cfg.total_ticks(),
    ensures
        safe_at(r.0, seed, cfg, a),
        safe_at(r.1, seed, cfg, b),
        follows(r.0, world_at(seed, cfg, a), r.1, world_at(seed, cfg, b)),
    decreases b,
{
    if a == b {
        let h = world_is_safe(seed, cfg, a);
        follows_itself(h, world_at(seed, cfg, a));
        (h, h)
    } else {
        let j = (b - 1) as nat;
        let (h, g) = worlds_follow(seed, cfg, a, j);
        let e = next_tick_is_safe(g, seed, cfg, j);
        follows_is_transitive(
            h,
            world_at(seed, cfg, a),
            g,
            world_at(seed, cfg, j),
            e,
            world_at(seed, cfg, b),
        );
        (h, e)
    }
}

/// Two nodes that lead the same term are the same node.
pub open spec fn leaders_are_unique(nodes: Seq<RaftState>) -> bool {
    forall|i: int, j: int|
        0 <= i < nodes.len() && 0 <= j < nodes.len() && (#[trigger] nodes[i]).role == Role::Leader
            && (#[trigger] nodes[j]).role == Role::Leader && nodes[i].current_term
            == nodes[j].current_term ==> i == j
}

/// Two nodes with the same term at an index have the same log up to it.
pub open spec fn logs_match(nodes: Seq<RaftState>) -> bool {
    forall|i: int, j: int, k: int|
        0 <= i < nodes.len() && 0 <= j < nodes.len() && 0 <= k < nodes[i].log.len() && k
            < nodes[j].log.len() && (#[trigger] nodes[i].log[k]).term == (
        #[trigger] nodes[j].log[k]).term ==> nodes[i].log.take(k + 1) == nodes[j].log.take(k + 1)
}

/// Raft's safety properties: election safety, log matching and state machine
/// safety; and some history accounts for the state of the nodes, so that
/// `raft_cluster` applies to it.
pub open spec fn raft_properties(nodes: Seq<RaftState>) -> bool {
    &&& exists|h: History| holds(h, nodes)
    &&& leaders_are_unique(nodes)
    &&& logs_match(nodes)
    &&& committed_logs_agree(nodes)
}

/// Raft's properties hold of a safe world.
proof fn safe_means_safe(h: History, s: RaftSim)
    requires
        safe(h, s),
    ensures
        raft_properties(s.nodes),
{
    reveal(safe);
    let nodes = s.nodes;
    committed_logs_are_safe(h, nodes);
    assert forall|i: int, j: int|
        0 <= i < nodes.len() && 0 <= j < nodes.len() && (#[trigger] nodes[i]).role == Role::Leader
            && (#[trigger] nodes[j]).role == Role::Leader && nodes[i].current_term
            == nodes[j].current_term implies i == j by {
        one_leader_per_term(h, nodes, i as usize, j as usize);
    }
    assert forall|i: int, j: int, k: int|
        0 <= i < nodes.len() && 0 <= j < nodes.len() && 0 <= k < nodes[i].log.len() && k
            < nodes[j].log.len() && (#[trigger] nodes[i].log[k]).term == (
        #[trigger] nodes[j].log[k]).term implies nodes[i].log.take(k + 1) == nodes[j].log.take(
        k + 1,
    ) by {
        matching_terms_mean_matching_logs(h, nodes, i as usize, j as usize, k);
    }
}

/// Without the injected bug, Raft's properties hold after any number of ticks of
/// chaos, for any seed and any configuration.
pub proof fn raft_is_safe_under_faults(seed: u64, cfg: RaftConfig, k: nat)
    requires
        cfg.fits(),
        !cfg.inject_bug,
        k <= cfg.ticks,
    ensures
        RaftSim::init(seed, cfg).chaos(cfg, k).violation is None,
        raft_properties(RaftSim::init(seed, cfg).chaos(cfg, k).nodes),
{
    reveal(safe_at);
    let h = world_is_safe(seed, cfg, k);
    safe_means_safe(h, RaftSim::init(seed, cfg).chaos(cfg, k));
}

/// They also hold after any number of ticks of the stabilization phase.
pub proof fn raft_is_safe_when_stable(seed: u64, cfg: RaftConfig, k: nat)
    requires
        cfg.fits(),
        !cfg.inject_bug,
        k <= cfg.stabilize_ticks,
    ensures
        after_chaos(seed, cfg).stabilizing().calm(cfg, k).violation is None,
        raft_properties(after_chaos(seed, cfg).stabilizing().calm(cfg, k).nodes),
{
    reveal(safe_at);
    let start = after_chaos(seed, cfg).stabilizing();
    let h = world_is_safe(seed, cfg, cfg.ticks as nat + k);
    if k == 0 {
        stabilizing_is_safe(h, after_chaos(seed, cfg));
        safe_means_safe(h, start);
    } else {
        safe_means_safe(h, start.calm(cfg, k));
    }
}

/// What a client is guaranteed stays guaranteed: what a node considers committed
/// after some tick of a run is a prefix of what it considers committed after any
/// later tick, whatever happens in between.
pub proof fn commits_are_durable(seed: u64, cfg: RaftConfig, a: nat, b: nat, x: NodeId)
    requires
        cfg.fits(),
        !cfg.inject_bug,
        a <= b <= cfg.total_ticks(),
        x < cfg.n_nodes,
    ensures
        world_at(seed, cfg, a).nodes[x as int].committed().is_prefix_of(
            world_at(seed, cfg, b).nodes[x as int].committed(),
        ),
{
    let (h, g) = worlds_follow(seed, cfg, a, b);
    reveal(safe_at);
    reveal(safe);
    reveal(follows);
    let before = world_at(seed, cfg, a).nodes;
    let after = world_at(seed, cfg, b).nodes;
    assert(after.len() == cfg.n_nodes);
    assert(before[x as int].commit_index <= after[x as int].commit_index);
    commits_survive(h, before, g, after, x);
}

/// Raft survives every schedule of faults: without the injected bug no run, for
/// any seed and any configuration, violates safety.
pub proof fn raft_is_safe(seed: u64, cfg: RaftConfig)
    requires
        cfg.fits(),
        !cfg.inject_bug,
    ensures
        final_world(seed, cfg).violation is None,
        raft_properties(final_world(seed, cfg).nodes),
{
    if stabilizes(seed, cfg) {
        raft_is_safe_when_stable(seed, cfg, cfg.stabilize_ticks as nat);
    } else {
        raft_is_safe_under_faults(seed, cfg, cfg.ticks as nat);
    }
}

} // verus!
