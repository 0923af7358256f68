//! A Raft run stays in range: bounds on the clock, the message counters, the
//! terms and the log lengths that the run can reach.

use crate::net::{send_all_keeps_books, send_all_uses_room, Deliver, NodeId, Wire};
use crate::raft::{merged_len, peers, peers_len, RaftState, Role, Rpc};
use crate::raft_runner::{RaftConfig, RaftSim};
use crate::sim::rng::advance;
use crate::sim::scheduler::{
    earliest_exists, first_event, paced_has_room, stepped_is_paced, stepped_is_wf,
};
use crate::sim::{EventId, Tick};
use vstd::prelude::*;

verus! {

/// Bounds on what a run has used up.
pub struct Limits {
    /// Events fired.
    pub fired: nat,
    /// Messages sent.
    pub sent: nat,
    /// Client commands issued.
    pub commands: nat,
    /// The greatest term.
    pub term: nat,
}

pub open spec fn node_ok(node: RaftState, i: int, n: usize, c: nat, b: nat) -> bool {
    &&& node.id == i
    &&& node.n_nodes == n
    &&& node.wf()
    &&& node.log.len() <= c
    &&& node.current_term <= b
    &&& forall|p: int| 0 <= p < n ==> #[trigger] node.next_index[p] <= c + 1
}

pub open spec fn rpc_ok(msg: Rpc, c: nat, b: nat) -> bool {
    &&& msg.term() <= b
    &&& match msg {
        Rpc::AppendEntries { prev_log_index, entries, .. } => prev_log_index + entries.len() <= c,
        Rpc::AppendEntriesReply { match_index, .. } => match_index <= c,
        _ => true,
    }
}

pub open spec fn outbox_ok(outbox: Seq<(NodeId, Rpc)>, n: usize, c: nat, b: nat) -> bool {
    forall|k: int|
        0 <= k < outbox.len() ==> (#[trigger] outbox[k]).0 < n && rpc_ok(outbox[k].1, c, b)
}

pub open spec fn queue_ok(queue: Map<EventId, (Tick, Deliver<Rpc>)>, n: usize, c: nat, b: nat) -> bool {
    forall|id: EventId| #[trigger]
        queue.contains_key(id) ==> {
            let packet = queue[id].1;
            packet.from < n && packet.to < n && rpc_ok(packet.msg, c, b)
        }
}

pub open spec fn nodes_ok(nodes: Seq<RaftState>, n: usize, c: nat, b: nat) -> bool {
    &&& nodes.len() == n
    &&& forall|i: int| 0 <= i < n ==> node_ok(#[trigger] nodes[i], i, n, c, b)
}

pub open spec fn in_range(s: RaftSim, cfg: RaftConfig, lim: Limits) -> bool {
    let c = s.commands as nat;
    &&& s.wire.net.config == cfg.net
    &&& s.wire.sched.wf()
    &&& s.wire.audited()
    &&& s.wire.sched.paced(cfg.net.longest_delay())
    &&& s.wire.sched.fired() <= lim.fired
    &&& s.wire.net.sent <= lim.sent
    &&& s.commands <= lim.commands
    &&& nodes_ok(s.nodes, cfg.n_nodes, c, lim.term)
    &&& queue_ok(s.wire.sched.queue, cfg.n_nodes, c, lim.term)
}

/// The bounds after `t` ticks.
pub open spec fn limits_at(cfg: RaftConfig, t: nat) -> Limits {
    Limits {
        fired: t,
        sent: cfg.sends_per_tick() * t,
        commands: t,
        term: cfg.n_nodes as nat * t,
    }
}

/// The most that a run can send.
pub open spec fn send_cap(cfg: RaftConfig) -> nat {
    cfg.sends_per_tick() * cfg.total_ticks()
}

pub proof fn looser_limits(s: RaftSim, cfg: RaftConfig, a: Limits, b: Limits)
    requires
        in_range(s, cfg, a),
        a.fired <= b.fired,
        a.sent <= b.sent,
        a.commands <= b.commands,
        a.term <= b.term,
    ensures
        in_range(s, cfg, b),
{
    let c = s.commands as nat;
    assert forall|i: int| 0 <= i < cfg.n_nodes implies node_ok(
        #[trigger] s.nodes[i],
        i,
        cfg.n_nodes,
        c,
        b.term,
    ) by {
        assert(node_ok(s.nodes[i], i, cfg.n_nodes, c, a.term));
    }
}

/// Handling a message keeps a node in range.
pub proof fn handle_ok(
    node: RaftState,
    i: int,
    n: usize,
    c: nat,
    b: nat,
    from: NodeId,
    msg: Rpc,
)
    requires
        node_ok(node, i, n, c, b),
        rpc_ok(msg, c, b),
        i < n,
        from < n,
        c < usize::MAX,
    ensures
        node.can_handle(from, msg),
        node_ok(node.handled(from, msg).0, i, n, c, b),
        outbox_ok(node.handled(from, msg).1, n, c, b),
        node.handled(from, msg).1.len() <= 1,
{
    if !node.crashed {
        match msg {
            Rpc::RequestVote { term, candidate, last_log_index, last_log_term } => {},
            Rpc::RequestVoteReply { term, granted } => {},
            Rpc::AppendEntries {
                term,
                leader,
                prev_log_index,
                prev_log_term,
                entries,
                leader_commit,
            } => {
                let f = node.observed(term).following(leader);
                if term >= node.observed(term).current_term && f.matches_at(
                    prev_log_index,
                    prev_log_term,
                ) {
                    merged_len(f.log, prev_log_index as int, entries);
                }
            },
            Rpc::AppendEntriesReply { term, success, match_index } => {
                let s = node.observed(term);
                let after = node.on_append_reply(from, term, success, match_index).0;
                assert forall|p: int| 0 <= p < n implies #[trigger] after.next_index[p] <= c + 1
                    && after.next_index[p] >= 1 by {
                    assert(s.next_index[p] <= c + 1 && s.next_index[p] >= 1);
                }
            },
        }
    }
}

/// Sending keeps the packets in flight in range.
pub proof fn send_all_queue_ok(
    w: Wire<Rpc>,
    from: NodeId,
    outbox: Seq<(NodeId, Rpc)>,
    n: usize,
    c: nat,
    b: nat,
)
    requires
        queue_ok(w.sched.queue, n, c, b),
        from < n,
        outbox_ok(outbox, n, c, b),
    ensures
        queue_ok(w.sent_all(from, outbox).sched.queue, n, c, b),
    decreases outbox.len(),
{
    if outbox.len() > 0 {
        let rest = outbox.drop_last();
        assert forall|k: int| 0 <= k < rest.len() implies (#[trigger] rest[k]).0 < n && rpc_ok(
            rest[k].1,
            c,
            b,
        ) by {
            assert(rest[k] == outbox[k]);
        }
        send_all_queue_ok(w, from, rest, n, c, b);
        let last = outbox[outbox.len() - 1];
        assert(last.0 < n && rpc_ok(last.1, c, b));
    }
}

/// Sending an outbox stays within the caps.
pub proof fn send_in_range(
    s: RaftSim,
    cfg: RaftConfig,
    lim: Limits,
    from: NodeId,
    outbox: Seq<(NodeId, Rpc)>,
)
    requires
        cfg.fits(),
        in_range(s, cfg, lim),
        from < cfg.n_nodes,
        outbox_ok(outbox, cfg.n_nodes, s.commands as nat, lim.term),
        lim.fired <= cfg.total_ticks(),
        cfg.total_ticks() > 0,
        lim.sent + outbox.len() <= send_cap(cfg),
    ensures
        s.wire.has_room(outbox.len()),
        in_range(s.sending(from, outbox), cfg, Limits { sent: lim.sent + outbox.len(), ..lim }),
{
    let d = cfg.net.longest_delay();
    let t = cfg.total_ticks();
    paced_has_room(s.wire.sched, d, t);
    assert(d * 2 <= d * (t + 1)) by (nonlinear_arith)
        requires
            t >= 1,
            d >= 0,
    ;
    assert(cfg.net.delays() <= u64::MAX);
    send_all_uses_room(s.wire, from, outbox, outbox.len());
    send_all_keeps_books(s.wire, from, outbox);
    send_all_queue_ok(s.wire, from, outbox, cfg.n_nodes, s.commands as nat, lim.term);
}

pub proof fn with_node_in_range(s: RaftSim, cfg: RaftConfig, lim: Limits, i: int, node: RaftState)
    requires
        in_range(s, cfg, lim),
        0 <= i < cfg.n_nodes,
        node_ok(node, i, cfg.n_nodes, s.commands as nat, lim.term),
    ensures
        in_range(s.with_node(i, node), cfg, lim),
{
}

/// Taking a message off the queue.
pub proof fn popped_in_range(s: RaftSim, cfg: RaftConfig, lim: Limits)
    requires
        in_range(s, cfg, lim),
        !s.wire.sched.quiet(),
    ensures
        in_range(s.popped(), cfg, Limits { fired: lim.fired + 1, ..lim }),
        s.wire.sched.queue.contains_key(first_event(s.wire.sched.queue)),
{
    let sched = s.wire.sched;
    earliest_exists(sched.queue);
    stepped_is_wf(sched);
    stepped_is_paced(sched, cfg.net.longest_delay());
    assert forall|id: EventId| #[trigger]
        s.popped().wire.sched.queue.contains_key(id) implies sched.queue.contains_key(id) by {}
}

/// A delivery stays within the caps.
pub proof fn delivery_in_range(s: RaftSim, cfg: RaftConfig, lim: Limits)
    requires
        cfg.fits(),
        in_range(s, cfg, lim),
        lim.fired < cfg.total_ticks(),
        lim.commands <= cfg.total_ticks(),
        lim.sent < send_cap(cfg),
    ensures
        in_range(
            s.delivered(),
            cfg,
            Limits { fired: lim.fired + 1, sent: lim.sent + 1, ..lim },
        ),
        s.has_delivery() ==> {
            let packet = s.wire.sched.first_payload();
            let node = s.nodes[packet.to as int];
            &&& packet.to < cfg.n_nodes
            &&& node.wf()
            &&& node.can_handle(packet.from, packet.msg)
            &&& s.popped().wire.has_room(node.handled(packet.from, packet.msg).1.len())
        },
{
    let lim1 = Limits { fired: lim.fired + 1, ..lim };
    let lim2 = Limits { fired: lim.fired + 1, sent: lim.sent + 1, ..lim };
    if s.wire.sched.quiet() {
        looser_limits(s, cfg, lim, lim2);
    } else {
        popped_in_range(s, cfg, lim);
        let id = first_event(s.wire.sched.queue);
        assert(s.wire.sched.queue.contains_key(id));
        let packet = s.wire.sched.first_payload();
        let node = s.nodes[packet.to as int];
        let c = s.commands as nat;
        assert(node_ok(node, packet.to as int, cfg.n_nodes, c, lim.term));
        handle_ok(node, packet.to as int, cfg.n_nodes, c, lim.term, packet.from, packet.msg);
        let (after, replies) = node.handled(packet.from, packet.msg);
        let p = s.popped().with_node(packet.to as int, after);
        with_node_in_range(s.popped(), cfg, lim1, packet.to as int, after);
        send_in_range(p, cfg, lim1, packet.to, replies);
        looser_limits(
            p.sending(packet.to, replies),
            cfg,
            Limits { sent: lim1.sent + replies.len(), ..lim1 },
            lim2,
        );
    }
}

pub proof fn campaign_outbox_ok(node: RaftState, n: usize, c: nat, b: nat)
    requires
        node.n_nodes == n,
        node.current_term + 1 <= b,
        b <= u64::MAX,
    ensures
        outbox_ok(node.campaign_outbox(), n, c, b),
        node.campaign_outbox().len() <= n,
{
    peers_len(n as nat, node.id);
}

pub proof fn heartbeat_outbox_ok(node: RaftState, i: int, n: usize, c: nat, b: nat)
    requires
        node_ok(node, i, n, c, b),
    ensures
        outbox_ok(node.heartbeat_outbox(), n, c, b),
        node.heartbeat_outbox().len() <= n,
{
    peers_len(n as nat, node.id);
    if node.leads() {
        let out = node.heartbeat_outbox();
        assert forall|k: int| 0 <= k < out.len() implies (#[trigger] out[k]).0 < n && rpc_ok(
            out[k].1,
            c,
            b,
        ) by {
            let p = peers(n as nat, node.id)[k];
            assert(node.next_index[p as int] <= c + 1 && node.next_index[p as int] >= 1);
        }
    }
}

/// The timers of one node stay within the caps.
pub proof fn node_timers_in_range(s: RaftSim, cfg: RaftConfig, lim: Limits, id: usize)
    requires
        cfg.fits(),
        in_range(s, cfg, lim),
        id < cfg.n_nodes,
        lim.fired <= cfg.total_ticks(),
        cfg.total_ticks() > 0,
        lim.sent + 2 * cfg.n_nodes <= send_cap(cfg),
        lim.term + 1 <= u64::MAX,
    ensures
        in_range(
            s.node_timers(cfg, id),
            cfg,
            Limits { sent: lim.sent + 2 * cfg.n_nodes as nat, term: lim.term + 1, ..lim },
        ),
        s.nodes[id as int].wf(),
        s.nodes[id as int].id == id,
        s.nodes[id as int].n_nodes == cfg.n_nodes,
        !s.nodes[id as int].crashed ==> {
            let node = s.nodes[id as int];
            &&& node.current_term < u64::MAX
            &&& s.wire.has_room(node.ticked().campaign_outbox().len()) || !node.times_out()
            &&& s.election_timer(id).nodes[id as int].wf()
            &&& s.election_timer(id).nodes[id as int].role == Role::Leader ==> s.election_timer(
                id,
            ).wire.has_room(s.election_timer(id).nodes[id as int].heartbeat_outbox().len())
        },
{
    let c = s.commands as nat;
    let n = cfg.n_nodes;
    let node = s.nodes[id as int];
    assert(node_ok(node, id as int, n, c, lim.term));
    let end = Limits { sent: lim.sent + 2 * n as nat, term: lim.term + 1, ..lim };
    if node.crashed {
        looser_limits(s, cfg, lim, end);
    } else {
        let t = node.ticked();
        let lim1 = Limits { term: lim.term + 1, ..lim };
        looser_limits(s, cfg, lim, lim1);
        let mid = Limits { sent: lim.sent + n as nat, term: lim.term + 1, ..lim };
        let e = s.election_timer(id);
        if node.times_out() {
            let after = t.campaigning();
            assert(node_ok(after, id as int, n, c, lim1.term));
            with_node_in_range(s, cfg, lim1, id as int, after);
            campaign_outbox_ok(t, n, c, lim1.term);
            let w = s.with_node(id as int, after);
            send_in_range(w, cfg, lim1, id, t.campaign_outbox());
            looser_limits(
                e,
                cfg,
                Limits { sent: lim1.sent + t.campaign_outbox().len(), ..lim1 },
                mid,
            );
        } else {
            with_node_in_range(s, cfg, lim1, id as int, t);
            looser_limits(e, cfg, lim1, mid);
        }
        let m = e.nodes[id as int];
        assert(node_ok(m, id as int, n, c, mid.term));
        heartbeat_outbox_ok(m, id as int, n, c, mid.term);
        let r = e.with_rng(advance(e.wire.rng));
        assert(in_range(r, cfg, mid));
        send_in_range(r, cfg, mid, id, m.heartbeat_outbox());
        send_in_range(e, cfg, mid, id, m.heartbeat_outbox());
        looser_limits(
            r.sending(id, m.heartbeat_outbox()),
            cfg,
            Limits { sent: mid.sent + m.heartbeat_outbox().len(), ..mid },
            end,
        );
        looser_limits(r, cfg, mid, end);
        looser_limits(e, cfg, mid, end);
    }
}

/// The timers of the first `k` nodes stay within the caps.
pub proof fn timers_in_range(s: RaftSim, cfg: RaftConfig, lim: Limits, k: nat)
    requires
        cfg.fits(),
        in_range(s, cfg, lim),
        k <= cfg.n_nodes,
        lim.fired <= cfg.total_ticks(),
        cfg.total_ticks() > 0,
        lim.sent + 2 * (cfg.n_nodes as nat * cfg.n_nodes as nat) <= send_cap(cfg),
        lim.term + cfg.n_nodes <= u64::MAX,
    ensures
        in_range(
            s.timers(cfg, k),
            cfg,
            Limits {
                sent: lim.sent + 2 * (cfg.n_nodes as nat * k),
                term: lim.term + k,
                ..lim
            },
        ),
    decreases k,
{
    let n = cfg.n_nodes as nat;
    if k == 0 {
        assert(n * 0 == 0);
    } else {
        let j = (k - 1) as nat;
        timers_in_range(s, cfg, lim, j);
        assert(n * k == n * j + n) by (nonlinear_arith)
            requires
                k == j + 1,
        ;
        assert(n * k <= n * n) by (nonlinear_arith)
            requires
                k <= n,
        ;
        node_timers_in_range(
            s.timers(cfg, j),
            cfg,
            Limits { sent: lim.sent + 2 * (n * j), term: lim.term + j, ..lim },
            j as usize,
        );
    }
}

/// A client command adds at most one entry.
pub proof fn client_in_range(s: RaftSim, cfg: RaftConfig, lim: Limits)
    requires
        in_range(s, cfg, lim),
        s.commands < u64::MAX,
    ensures
        in_range(
            s.client_phase(cfg),
            cfg,
            Limits { commands: lim.commands + 1, ..lim },
        ),
{
    let end = Limits { commands: lim.commands + 1, ..lim };
    let c = s.commands as nat;
    let n = cfg.n_nodes;
    let after = s.client_phase(cfg);
    if after.commands == s.commands {
        assert(after.nodes == s.nodes);
    } else {
        assert forall|i: int| 0 <= i < n implies node_ok(
            #[trigger] after.nodes[i],
            i,
            n,
            c + 1,
            lim.term,
        ) by {
            assert(node_ok(s.nodes[i], i, n, c, lim.term));
            assert forall|p: int| 0 <= p < n implies #[trigger] after.nodes[i].next_index[p] <= c
                + 2 by {
                assert(s.nodes[i].next_index[p] <= c + 1);
            }
        }
    }
}

pub proof fn fault_in_range(s: RaftSim, cfg: RaftConfig, lim: Limits)
    requires
        in_range(s, cfg, lim),
    ensures
        in_range(s.fault_phase(cfg), cfg, lim),
{
    let after = s.fault_phase(cfg);
    let c = s.commands as nat;
    assert forall|i: int| 0 <= i < cfg.n_nodes implies node_ok(
        #[trigger] after.nodes[i],
        i,
        cfg.n_nodes,
        c,
        lim.term,
    ) by {
        assert(node_ok(s.nodes[i], i, cfg.n_nodes, c, lim.term));
    }
}

/// What the bounds for one more tick leave room for.
pub proof fn limits_step(cfg: RaftConfig, t: nat)
    requires
        cfg.fits(),
        t < cfg.total_ticks(),
    ensures
        limits_at(cfg, t + 1) == (Limits {
            fired: t + 1,
            sent: limits_at(cfg, t).sent + 1 + 2 * (cfg.n_nodes as nat * cfg.n_nodes as nat),
            commands: t + 1,
            term: limits_at(cfg, t).term + cfg.n_nodes as nat,
        }),
        limits_at(cfg, t + 1).sent <= send_cap(cfg),
        limits_at(cfg, t + 1).term <= u64::MAX,
{
    let n = cfg.n_nodes as nat;
    let p = cfg.sends_per_tick();
    assert(p * (t + 1) == p * t + p) by (nonlinear_arith);
    assert(n * (t + 1) == n * t + n) by (nonlinear_arith);
    assert(p * (t + 1) <= p * cfg.total_ticks()) by (nonlinear_arith)
        requires
            t + 1 <= cfg.total_ticks(),
    ;
    assert(n <= p) by (nonlinear_arith)
        requires
            p == 1 + 2 * (n * n),
    ;
    assert(n * (t + 1) <= p * (t + 1)) by (nonlinear_arith)
        requires
            n <= p,
    ;
}

/// The bounds once the delivery of tick `t + 1` is done.
pub open spec fn limits_delivered(cfg: RaftConfig, t: nat) -> Limits {
    Limits { fired: t + 1, sent: limits_at(cfg, t).sent + 1, ..limits_at(cfg, t) }
}

/// The bounds once the timers of tick `t + 1` are done.
pub open spec fn limits_timed(cfg: RaftConfig, t: nat) -> Limits {
    Limits { commands: t, ..limits_at(cfg, t + 1) }
}

/// The delivery of one more tick stays within the bounds.
pub proof fn tick_delivery_in_range(s: RaftSim, cfg: RaftConfig, t: nat)
    requires
        cfg.fits(),
        t < cfg.total_ticks(),
        in_range(s, cfg, limits_at(cfg, t)),
    ensures
        in_range(s.delivered(), cfg, limits_delivered(cfg, t)),
{
    limits_step(cfg, t);
    delivery_in_range(s, cfg, limits_at(cfg, t));
}

/// The timers and the client of one more tick stay within the bounds.
pub proof fn tick_rest_in_range(s: RaftSim, cfg: RaftConfig, t: nat)
    requires
        cfg.fits(),
        t < cfg.total_ticks(),
        in_range(s, cfg, limits_delivered(cfg, t)),
    ensures
        in_range(s.timers(cfg, cfg.n_nodes as nat), cfg, limits_timed(cfg, t)),
        in_range(
            s.timers(cfg, cfg.n_nodes as nat).client_phase(cfg),
            cfg,
            limits_at(cfg, t + 1),
        ),
{
    limits_step(cfg, t);
    timers_in_range(s, cfg, limits_delivered(cfg, t), cfg.n_nodes as nat);
    client_in_range(s.timers(cfg, cfg.n_nodes as nat), cfg, limits_timed(cfg, t));
}

/// The world at the start is within the bounds.
pub proof fn init_in_range(seed: u64, cfg: RaftConfig)
    requires
        cfg.fits(),
    ensures
        in_range(RaftSim::init(seed, cfg), cfg, limits_at(cfg, 0)),
{
    let s = RaftSim::init(seed, cfg);
    let lim = limits_at(cfg, 0);
    assert(lim.sent == 0 && lim.term == 0);
    assert forall|i: int| 0 <= i < cfg.n_nodes implies node_ok(
        #[trigger] s.nodes[i],
        i,
        cfg.n_nodes,
        0,
        lim.term,
    ) by {}
    assert(s.wire.sched.queue.dom() =~= Set::empty());
}

pub proof fn limits_grow(cfg: RaftConfig, a: nat, b: nat)
    requires
        a <= b,
    ensures
        limits_at(cfg, a).sent <= limits_at(cfg, b).sent,
        limits_at(cfg, a).term <= limits_at(cfg, b).term,
{
    let p = cfg.sends_per_tick();
    let n = cfg.n_nodes as nat;
    assert(p * a <= p * b) by (nonlinear_arith)
        requires
            a <= b,
    ;
    assert(n * a <= n * b) by (nonlinear_arith)
        requires
            a <= b,
    ;
}

pub proof fn stabilizing_in_range(s: RaftSim, cfg: RaftConfig, lim: Limits)
    requires
        in_range(s, cfg, lim),
    ensures
        in_range(s.stabilizing(), cfg, lim),
{
    let after = s.stabilizing();
    let c = s.commands as nat;
    assert forall|i: int| 0 <= i < cfg.n_nodes implies node_ok(
        #[trigger] after.nodes[i],
        i,
        cfg.n_nodes,
        c,
        lim.term,
    ) by {
        assert(node_ok(s.nodes[i], i, cfg.n_nodes, c, lim.term));
    }
}

/// The timers do not touch the counters.
pub proof fn timers_keep_counters(s: RaftSim, cfg: RaftConfig, k: nat)
    ensures
        s.timers(cfg, k).elected == s.elected,
        s.timers(cfg, k).commands == s.commands,
    decreases k,
{
    if k > 0 {
        timers_keep_counters(s, cfg, (k - 1) as nat);
    }
}

} // verus!
