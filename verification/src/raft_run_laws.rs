//! What a Raft run does, phase by phase, and what its results mean.

use crate::faults::{after_fault, fault_from, Fault};
use crate::net::{sides_connect, NodeId, Wire};
use crate::raft::{RaftState, Role, Rpc};
use crate::raft_range::{
    fault_in_range, in_range, init_in_range, limits_at, limits_grow, looser_limits, node_ok,
    popped_in_range, stabilizing_in_range, tick_delivery_in_range, tick_rest_in_range,
    timers_keep_counters,
};
use crate::raft_runner::{
    after_chaos, armed_node, armed_rng, committed_logs_agree, disagree, elections_are_safe, final_world,
    first_disagreement, has_led, leaders_of, leads_term, ledger_ascends, live_verdict,
    looked_at_before, max_commit, safety_verdict, the_check_is_exact, Ledger, RaftConfig, RaftSim,
    SafetyFinding,
};
use crate::sim::rng::{advance, advance_by, chance_is_a_fraction, draw};
use crate::sim::scheduler::first_event;
use crate::sim::EventId;
use crate::text::decimal;
use vstd::prelude::*;

verus! {

/// By default five nodes run for three thousand ticks and then stabilize for two
/// thousand, without the bug. In a hundred ticks there are thirty heartbeats of a leader,
/// ten commands and two faults to be expected. The profile that hunts the bug runs for
/// six thousand ticks with six faults in a hundred, loses one message in ten, and does
/// not stabilize.
pub proof fn default_runs_are_eventful()
    ensures
        ({
            let c = RaftConfig::spec_default();
            let b = RaftConfig::churn_with_bug();
            let one: int = 0x20_0000_0000_0000;
            let beats: int = 10 * c.heartbeat_prob.threshold;
            let commands: int = 10 * c.client_prob.threshold;
            let faults: int = 100 * c.fault_prob.threshold;
            let more_faults: int = 100 * b.fault_prob.threshold;
            let loss: int = 10 * b.net.drop_prob.threshold;
            &&& c.n_nodes == 5 && c.ticks == 3000 && c.stabilize_ticks == 2000 && !c.inject_bug
            &&& 3 * one <= beats < 3 * one + 10
            &&& one <= commands < one + 10
            &&& 2 * one <= faults < 2 * one + 100
            &&& b.n_nodes == 5 && b.ticks == 6000 && b.stabilize_ticks == 0 && b.inject_bug
            &&& b.heartbeat_prob == c.heartbeat_prob && b.client_prob == c.client_prob
            &&& b.net.min_delay == 1 && b.net.max_delay == 20
            &&& 6 * one <= more_faults < 6 * one + 100
            &&& one <= loss < one + 10
        }),
{
}

/// The timeouts are drawn first, one after the other.
proof fn timeouts_take_one_draw_each(seed: u64, cfg: RaftConfig, k: nat)
    requires
        cfg.fits(),
    ensures
        armed_rng(seed, cfg, k) == advance_by(seed, k),
    decreases k,
{
    if k > 0 {
        timeouts_take_one_draw_each(seed, cfg, (k - 1) as nat);
    }
}

// ---- The phases of a tick ----

/// A run starts at tick 0 with nothing in flight, nothing submitted and nobody
/// elected. Node `i` has a timeout of ten to thirty round trips, which draw number `i`
/// picks.
pub proof fn runs_start_from_nothing(seed: u64, cfg: RaftConfig, i: int)
    requires
        cfg.fits(),
        0 <= i < cfg.n_nodes,
    ensures
        ({
            let s = RaftSim::init(seed, cfg);
            let node = s.nodes[i];
            let rtt = if cfg.net.max_delay >= 1 {
                cfg.net.max_delay as int
            } else {
                1
            };
            &&& s.nodes.len() == cfg.n_nodes
            &&& s.commands == 0
            &&& s.elected == 0
            &&& s.violation is None
            &&& s.wire.rng == advance_by(seed, cfg.n_nodes as nat)
            &&& s.wire.sched.now == 0
            &&& forall|id: EventId| !s.wire.sched.queue.contains_key(id)
            &&& node.id == i
            &&& node.n_nodes == cfg.n_nodes
            &&& node.current_term == 0
            &&& node.log.len() == 0
            &&& node.commit_index == 0
            &&& node.role == Role::Follower
            &&& !node.crashed
            &&& node.inject_match_index_bug == cfg.inject_bug
            &&& node.base_timeout == 10 * rtt + draw(advance_by(seed, i as nat)) % ((20
                * rtt) as u64)
            &&& 10 * rtt <= node.base_timeout < 30 * rtt
            &&& node.election_timer == node.base_timeout
        }),
{
    timeouts_take_one_draw_each(seed, cfg, i as nat);
    timeouts_take_one_draw_each(seed, cfg, cfg.n_nodes as nat);
    let node = RaftSim::init(seed, cfg).nodes[i];
    assert(node == armed_node(seed, cfg, i as nat));
}

/// A delivery takes the earliest message off the queue and hands it to its receiver
/// alone, whose replies are sent. With nothing in flight nothing happens.
pub proof fn deliveries_reach_the_receiver(s: RaftSim, x: int)
    requires
        0 <= x < s.nodes.len(),
    ensures
        ({
            let t = s.delivered();
            let packet = s.wire.sched.queue[first_event(s.wire.sched.queue)].1;
            let popped = Wire { sched: s.wire.sched.stepped(), ..s.wire };
            &&& t.ledger == s.ledger && t.commands == s.commands && t.elected == s.elected
                && t.violation == s.violation && t.nodes.len() == s.nodes.len()
            &&& s.wire.sched.quiet() ==> t == s
            &&& !s.wire.sched.quiet() && packet.to >= s.nodes.len() ==> t.nodes == s.nodes && t.wire
                == popped
            &&& !s.wire.sched.quiet() && packet.to < s.nodes.len() ==> {
                let handled = s.nodes[packet.to as int].handled(packet.from, packet.msg);
                &&& t.nodes[packet.to as int] == handled.0
                &&& x != packet.to ==> t.nodes[x] == s.nodes[x]
                &&& t.wire == popped.sent_all(packet.to, handled.1)
            }
        }),
{
}

/// A delivery counts as an election exactly if it makes a leader of a node that was
/// none.
pub proof fn elections_are_counted(s: RaftSim)
    requires
        s.elected < usize::MAX,
    ensures
        ({
            let t = s.delivered_counting();
            let elects = exists|x: int|
                0 <= x < s.nodes.len() && (#[trigger] s.nodes[x]).role != Role::Leader
                    && t.nodes[x].role == Role::Leader;
            &&& t.nodes == s.delivered().nodes
            &&& t.wire == s.delivered().wire
            &&& elects ==> t.elected == s.elected + 1
            &&& !elects ==> t.elected == s.elected
        }),
{
    let t = s.delivered_counting();
    let elects = exists|x: int|
        0 <= x < s.nodes.len() && (#[trigger] s.nodes[x]).role != Role::Leader && t.nodes[x].role
            == Role::Leader;
    if s.delivery_elects() {
        let packet = s.wire.sched.first_payload();
        let x = packet.to as int;
        assert(s.nodes[x].role != Role::Leader && t.nodes[x].role == Role::Leader);
        assert(elects);
    }
    if elects {
        let x = choose|x: int|
            0 <= x < s.nodes.len() && (#[trigger] s.nodes[x]).role != Role::Leader
                && t.nodes[x].role == Role::Leader;
        if s.has_delivery() {
            let packet = s.wire.sched.first_payload();
            assert(x == packet.to);
        }
    }
}

/// What the timers of a live node do. Its election timer ticks, and if it expires the
/// node stands for election and sends its requests. If it leads, one draw decides
/// whether it sends a heartbeat. The other nodes are not touched.
pub proof fn timers_drive_one_node(s: RaftSim, cfg: RaftConfig, id: usize, x: int)
    requires
        id < s.nodes.len(),
        0 <= x < s.nodes.len(),
        !s.nodes[id as int].crashed,
    ensures
        ({
            let node = s.nodes[id as int];
            let t = s.node_timers(cfg, id);
            let leader = node.role == Role::Leader;
            let expires = !leader && node.election_timer <= 1;
            let beats = leader && draw(s.wire.rng) < cfg.heartbeat_prob.threshold * 2048;
            &&& t.ledger == s.ledger && t.commands == s.commands && t.elected == s.elected
                && t.violation == s.violation && t.nodes.len() == s.nodes.len()
            &&& x != id ==> t.nodes[x] == s.nodes[x]
            &&& leader ==> t.nodes[id as int] == node
            &&& !leader && !expires ==> t.nodes[id as int] == node.ticked() && t.wire == s.wire
            &&& expires ==> {
                &&& t.nodes[id as int] == node.ticked().campaigning()
                &&& t.nodes[id as int].role == Role::Candidate
                &&& t.wire == s.wire.sent_all(id, node.ticked().campaign_outbox())
            }
            &&& beats ==> t.wire == Wire { rng: advance(s.wire.rng), ..s.wire }.sent_all(
                id,
                node.heartbeat_outbox(),
            )
            &&& leader && !beats ==> t.wire == Wire { rng: advance(s.wire.rng), ..s.wire }
        }),
{
    chance_is_a_fraction(s.wire.rng, cfg.heartbeat_prob);
    assert(s.nodes.update(id as int, s.nodes[id as int]) =~= s.nodes);
}

/// A crashed node has no timers, and the timers run node after node.
pub proof fn timers_run_in_order(s: RaftSim, cfg: RaftConfig, k: usize)
    requires
        k < s.nodes.len(),
    ensures
        s.timers(cfg, 0) == s,
        s.timers(cfg, (k + 1) as nat) == s.timers(cfg, k as nat).node_timers(cfg, k),
        s.nodes[k as int].crashed ==> s.node_timers(cfg, k) == s,
{
}

/// What the client does. One draw decides whether it submits a command, the next one
/// to which node. That node appends it if it is a live leader, under the next command
/// number; otherwise nothing is submitted.
pub proof fn clients_submit_to_one_node(s: RaftSim, cfg: RaftConfig, x: int)
    requires
        s.nodes.len() == cfg.n_nodes,
        s.commands < u64::MAX,
        0 <= x < s.nodes.len(),
    ensures
        ({
            let t = s.client_phase(cfg);
            let submits = draw(s.wire.rng) < cfg.client_prob.threshold * 2048;
            let id = (draw(advance(s.wire.rng)) % (cfg.n_nodes as u64)) as int;
            let taken = submits && s.nodes[id].role == Role::Leader && !s.nodes[id].crashed;
            &&& t.wire.net == s.wire.net && t.wire.sched == s.wire.sched
            &&& t.ledger == s.ledger && t.elected == s.elected && t.violation == s.violation
                && t.nodes.len() == s.nodes.len()
            &&& !submits ==> t.wire.rng == advance(s.wire.rng)
            &&& submits ==> t.wire.rng == advance(advance(s.wire.rng))
            &&& !taken ==> t.nodes == s.nodes && t.commands == s.commands
            &&& taken ==> {
                &&& t.commands == s.commands + 1
                &&& t.nodes[id].log.len() == s.nodes[id].log.len() + 1
                &&& t.nodes[id].log.last().command == s.commands + 1
                &&& t.nodes[id].log.last().term == s.nodes[id].current_term
                &&& t.nodes[id].log.drop_last() =~= s.nodes[id].log
                &&& t.nodes[id] == RaftState { log: t.nodes[id].log, ..s.nodes[id] }
                &&& x != id ==> t.nodes[x] == s.nodes[x]
            }
        }),
{
    chance_is_a_fraction(s.wire.rng, cfg.client_prob);
}

/// What a fault does: one draw decides whether there is one. A crash and a restart hit
/// the victim alone, an isolation cuts the victim off from everyone else, and a heal
/// connects everyone. Nothing in flight is touched, and nothing is submitted.
pub proof fn faults_hit_their_victim(s: RaftSim, cfg: RaftConfig, x: NodeId, y: NodeId)
    requires
        s.nodes.len() == cfg.n_nodes,
        x < cfg.n_nodes,
        y < cfg.n_nodes,
    ensures
        ({
            let t = s.fault_phase(cfg);
            let strikes = draw(s.wire.rng) < cfg.fault_prob.threshold * 2048;
            let f = fault_from(advance(s.wire.rng), cfg.n_nodes);
            let before = s.nodes[x as int];
            let after = t.nodes[x as int];
            &&& t.wire.sched == s.wire.sched && t.ledger == s.ledger && t.commands == s.commands
                && t.elected == s.elected && t.violation == s.violation && t.nodes.len()
                == s.nodes.len()
            &&& !strikes ==> t.nodes == s.nodes && t.wire.net == s.wire.net && t.wire.rng
                == advance(s.wire.rng)
            &&& strikes ==> t.wire.rng == after_fault(advance(s.wire.rng), cfg.n_nodes)
            &&& strikes && f == Fault::Crash(x) ==> after == RaftState { crashed: true, ..before }
            &&& strikes && f == Fault::Restart(x) ==> !after.crashed && after.role
                == Role::Follower && after.log == before.log && after.current_term
                == before.current_term && after.voted_for == before.voted_for
                && after.commit_index == before.commit_index
            &&& f != Fault::Crash(x) && f != Fault::Restart(x) ==> after == before
            &&& strikes && f == Fault::Isolate(x) && y != x ==> !sides_connect(
                t.wire.net.side,
                x,
                y,
            )
            &&& strikes && f is Isolate && f != Fault::Isolate(x) && f != Fault::Isolate(y)
                ==> sides_connect(t.wire.net.side, x, y)
            &&& strikes && f == Fault::Heal ==> sides_connect(t.wire.net.side, x, y)
            &&& f is Crash || f is Restart ==> t.wire.net == s.wire.net
        }),
{
    chance_is_a_fraction(s.wire.rng, cfg.fault_prob);
    let f = fault_from(advance(s.wire.rng), cfg.n_nodes);
    if let Fault::Isolate(v) = f {
        let group: Seq<NodeId> = seq![v];
        assert(group[0] == v);
        assert(group.contains(v));
        assert(forall|z: NodeId| group.contains(z) ==> z == v);
    }
}

/// The check changes nothing but the ledger and the finding, and finds nothing exactly
/// if no term has two leaders and committed logs agree. Then the ledger holds whoever
/// was seen to lead, before or now.
pub proof fn checks_look_at_the_nodes(s: RaftSim)
    requires
        ledger_ascends(s.ledger),
    ensures
        ({
            let t = s.checked();
            &&& t.nodes == s.nodes && t.wire == s.wire && t.commands == s.commands && t.elected
                == s.elected
            &&& t.violation is None <==> elections_are_safe(s.nodes, s.ledger)
                && committed_logs_agree(s.nodes)
            &&& ledger_ascends(t.ledger)
            &&& t.violation == safety_verdict(s.nodes, s.ledger, s.wire.sched.now)
            &&& t.violation is None ==> forall|term: u64, id: NodeId| #[trigger]
                leaders_of(t.ledger, term).contains(id) <==> has_led(
                    s.nodes,
                    s.ledger,
                    s.nodes.len() as int,
                    term,
                    id,
                )
        }),
{
    the_check_is_exact(s.nodes, s.ledger, s.wire.sched.now);
}

/// The entry at the 0-based index `x` counts as committed on the node.
pub open spec fn has_committed(node: RaftState, x: int) -> bool {
    0 <= x < node.commit_index && x < node.log.len()
}

/// What the check finds. It finds nothing exactly if no two nodes lead the same term,
/// no node leads a term that another node was seen to lead, and any two nodes that have
/// committed an index hold the same term and the same command there. Whether a node is
/// up plays no part. Two leaders are reported before two logs that disagree.
pub proof fn checks_find_every_conflict(nodes: Seq<RaftState>, ledger: Ledger, tick: u64)
    requires
        ledger_ascends(ledger),
    ensures
        ({
            let verdict = safety_verdict(nodes, ledger, tick);
            let one_leader = forall|i: int, j: int|
                0 <= i < nodes.len() && 0 <= j < nodes.len() && (#[trigger] nodes[i]).role
                    == Role::Leader && (#[trigger] nodes[j]).role == Role::Leader
                    && nodes[i].current_term == nodes[j].current_term ==> nodes[i].id
                    == nodes[j].id;
            let nobody_else = forall|i: int, k: int|
                #![trigger nodes[i], ledger[nodes[i].current_term][k]]
                0 <= i < nodes.len() && nodes[i].role == Role::Leader && ledger.contains_key(
                    nodes[i].current_term,
                ) && 0 <= k < ledger[nodes[i].current_term].len()
                    ==> ledger[nodes[i].current_term][k] == nodes[i].id;
            let same_logs = forall|i: int, j: int, x: int|
                0 <= i < nodes.len() && 0 <= j < nodes.len() && #[trigger] has_committed(
                    nodes[i],
                    x,
                ) && #[trigger] has_committed(nodes[j], x) ==> nodes[i].log[x].term
                    == nodes[j].log[x].term && nodes[i].log[x].command == nodes[j].log[x].command;
            &&& verdict is None <==> one_leader && nobody_else && same_logs
            &&& !(one_leader && nobody_else) ==> verdict is Some && verdict->0.kind
                == "election_safety"@
            &&& one_leader && nobody_else && !same_logs ==> verdict is Some && verdict->0.kind
                == "state_machine_safety"@
            &&& verdict is Some ==> verdict->0.tick == tick
        }),
{
    the_check_is_exact(nodes, ledger, tick);
    let n = nodes.len() as int;
    if elections_are_safe(nodes, ledger) {
        assert forall|i: int, j: int|
            0 <= i < nodes.len() && 0 <= j < nodes.len() && (#[trigger] nodes[i]).role
                == Role::Leader && (#[trigger] nodes[j]).role == Role::Leader
                && nodes[i].current_term == nodes[j].current_term implies nodes[i].id
            == nodes[j].id by {
            assert(leads_term(nodes[j], nodes[i].current_term));
            assert(has_led(nodes, ledger, n, nodes[i].current_term, nodes[j].id));
        }
        assert forall|i: int, k: int|
            #![trigger nodes[i], ledger[nodes[i].current_term][k]]
            0 <= i < nodes.len() && nodes[i].role == Role::Leader && ledger.contains_key(
                nodes[i].current_term,
            ) && 0 <= k < ledger[nodes[i].current_term].len() implies ledger[nodes[i].current_term][k]
            == nodes[i].id by {
            let id = ledger[nodes[i].current_term][k];
            assert(leaders_of(ledger, nodes[i].current_term).contains(id));
            assert(has_led(nodes, ledger, n, nodes[i].current_term, id));
        }
    } else {
        let (i, id) = choose|i: int, id: NodeId|
            0 <= i < nodes.len() && (#[trigger] nodes[i]).role == Role::Leader
                && #[trigger] has_led(nodes, ledger, n, nodes[i].current_term, id) && id
                != nodes[i].id;
        let term = nodes[i].current_term;
        if leaders_of(ledger, term).contains(id) {
            let k = choose|k: int|
                0 <= k < leaders_of(ledger, term).len() && leaders_of(ledger, term)[k] == id;
            assert(ledger[nodes[i].current_term][k] != nodes[i].id);
        } else {
            let j = choose|j: int|
                0 <= j < n && leads_term(#[trigger] nodes[j], term) && nodes[j].id == id;
            assert(nodes[j].role == Role::Leader && nodes[i].id != nodes[j].id);
        }
    }
    if committed_logs_agree(nodes) {
        assert forall|i: int, j: int, x: int|
            0 <= i < nodes.len() && 0 <= j < nodes.len() && #[trigger] has_committed(nodes[i], x)
                && #[trigger] has_committed(nodes[j], x) implies nodes[i].log[x].term
            == nodes[j].log[x].term && nodes[i].log[x].command == nodes[j].log[x].command by {
            assert(!disagree(nodes, i, j, x));
            assert(!disagree(nodes, j, i, x));
        }
    } else {
        let (i, j, x) = choose|i: int, j: int, x: int| #[trigger] disagree(nodes, i, j, x);
        assert(has_committed(nodes[i], x) && has_committed(nodes[j], x));
        assert(nodes[i].log[x] != nodes[j].log[x]);
    }
}

/// What a report on two logs says. If no two nodes are rivals, it is about the first two
/// nodes `i` and `j` that disagree, and the first index on which they do; it names both,
/// the index, counted from 1, and what each of them holds there.
pub proof fn divergences_are_reported(
    nodes: Seq<RaftState>,
    ledger: Ledger,
    tick: u64,
    i: int,
    j: int,
    x: int,
)
    requires
        ledger_ascends(ledger),
        elections_are_safe(nodes, ledger),
        0 <= i < j < nodes.len(),
        has_committed(nodes[i], x),
        has_committed(nodes[j], x),
        nodes[i].log[x] != nodes[j].log[x],
        forall|p: int, q: int, y: int|
            0 <= p < q < nodes.len() && #[trigger] has_committed(nodes[p], y)
                && #[trigger] has_committed(nodes[q], y) && (p < i || (p == i && q < j) || (p == i
                && q == j && y < x)) ==> nodes[p].log[y] == nodes[q].log[y],
    ensures
        ({
            let a = nodes[i].log[x];
            let b = nodes[j].log[x];
            safety_verdict(nodes, ledger, tick) == Some(
                SafetyFinding {
                    kind: "state_machine_safety"@,
                    detail: "nodes "@ + decimal(nodes[i].id as nat) + " and "@ + decimal(
                        nodes[j].id as nat,
                    ) + " disagree at committed index "@ + decimal((x + 1) as nat) + ": (term "@
                        + decimal(a.term as nat) + ", cmd "@ + decimal(a.command as nat)
                        + ") vs (term "@ + decimal(b.term as nat) + ", cmd "@ + decimal(
                        b.command as nat,
                    ) + ")"@,
                    tick,
                },
            )
        }),
{
    the_check_is_exact(nodes, ledger, tick);
    assert(disagree(nodes, i, j, x));
    assert forall|p: int, q: int, y: int|
        looked_at_before(p, q, y, i, j, x) implies !#[trigger] disagree(nodes, p, q, y) by {
        if disagree(nodes, p, q, y) {
            assert(has_committed(nodes[p], y) && has_committed(nodes[q], y));
        }
    }
    assert(first_disagreement(nodes, i, j, x));
    let (p, q, y) = choose|p: int, q: int, y: int| first_disagreement(nodes, p, q, y);
    assert(first_disagreement(nodes, p, q, y));
    if looked_at_before(p, q, y, i, j, x) {
        assert(!disagree(nodes, p, q, y));
    }
    if looked_at_before(i, j, x, p, q, y) {
        assert(!disagree(nodes, i, j, x));
    }
    assert(p == i && q == j && y == x);
}

/// A tick delivers, runs the timers, serves the client, maybe injects a fault, and
/// checks, in this order; the stabilization phase injects none and counts no election.
/// A violation ends the phase.
pub proof fn ticks_run_the_phases_in_order(s: RaftSim, cfg: RaftConfig, k: nat)
    ensures
        s.chaos(cfg, 0) == s,
        s.calm(cfg, 0) == s,
        ({
            let t = s.chaos(cfg, k);
            let d = t.delivered_counting().timers(cfg, cfg.n_nodes as nat).client_phase(cfg);
            s.chaos(cfg, k + 1) == if t.violation is Some {
                t
            } else {
                d.fault_phase(cfg).checked()
            }
        }),
        ({
            let t = s.calm(cfg, k);
            let d = t.delivered().timers(cfg, cfg.n_nodes as nat).client_phase(cfg);
            s.calm(cfg, k + 1) == if t.violation is Some {
                t
            } else {
                d.checked()
            }
        }),
{
}

/// The stabilization phase starts with the network healed and every node alive as a
/// follower that has kept its term, its vote, its log and its commit index.
pub proof fn stabilizing_heals_and_revives(s: RaftSim, x: NodeId, y: NodeId)
    requires
        x < s.nodes.len(),
    ensures
        ({
            let t = s.stabilizing();
            let before = s.nodes[x as int];
            let after = t.nodes[x as int];
            &&& t.nodes.len() == s.nodes.len()
            &&& sides_connect(t.wire.net.side, x, y)
            &&& t.wire.sched == s.wire.sched && t.wire.rng == s.wire.rng
            &&& t.commands == s.commands && t.elected == s.elected && t.ledger == s.ledger
            &&& !after.crashed
            &&& after.role == Role::Follower
            &&& after.current_term == before.current_term
            &&& after.voted_for == before.voted_for
            &&& after.log == before.log
            &&& after.commit_index == before.commit_index
        }),
{
}

/// A run is its chaos phase, and then, if that found nothing and there is one, its
/// stabilization phase.
pub proof fn runs_are_chaos_then_calm(seed: u64, cfg: RaftConfig)
    ensures
        ({
            let chaos = RaftSim::init(seed, cfg).chaos(cfg, cfg.ticks as nat);
            &&& after_chaos(seed, cfg) == chaos
            &&& chaos.violation is Some || cfg.stabilize_ticks == 0 ==> final_world(seed, cfg)
                == chaos
            &&& chaos.violation is None && cfg.stabilize_ticks > 0 ==> final_world(seed, cfg)
                == chaos.stabilizing().calm(cfg, cfg.stabilize_ticks as nat)
        }),
{
}

// ---- What the results mean ----

/// The reported commit index is reached by some node and exceeded by none; it is 0
/// without nodes.
pub proof fn max_commit_is_the_maximum(nodes: Seq<RaftState>)
    ensures
        forall|x: int| 0 <= x < nodes.len() ==> (#[trigger] nodes[x]).commit_index <= max_commit(
            nodes,
        ),
        nodes.len() == 0 ==> max_commit(nodes) == 0,
        nodes.len() > 0 ==> exists|x: int|
            0 <= x < nodes.len() && (#[trigger] nodes[x]).commit_index == max_commit(nodes),
    decreases nodes.len(),
{
    if nodes.len() > 0 {
        let rest = nodes.drop_last();
        max_commit_is_the_maximum(rest);
        let last = nodes.len() - 1;
        assert forall|x: int| 0 <= x < nodes.len() implies (#[trigger] nodes[x]).commit_index
            <= max_commit(nodes) by {
            if x < last {
                assert(rest[x] == nodes[x]);
            }
        }
        if nodes.last().commit_index > max_commit(rest) || rest.len() == 0 {
            assert(nodes[last].commit_index == max_commit(nodes));
        } else {
            let x = choose|x: int|
                0 <= x < rest.len() && (#[trigger] rest[x]).commit_index == max_commit(rest);
            assert(nodes[x] == rest[x]);
        }
    }
}

/// A commit index that is above 0 and above that of every one of the nodes.
pub open spec fn outdoes(commit_index: usize, nodes: Seq<RaftState>) -> bool {
    &&& commit_index > 0
    &&& forall|x: int|
        0 <= x < nodes.len() ==> (#[trigger] nodes[x]).commit_index < commit_index
}

/// What a run says of liveness. It says something exactly if there was a stabilization
/// phase and safety had held until then. It says that the cluster is live exactly if
/// safety held to the end, some node leads, and some node has committed more than any
/// node had when the chaos phase ended. So a live cluster has committed something.
pub proof fn liveness_means_a_leader_and_progress(seed: u64, cfg: RaftConfig)
    ensures
        ({
            let chaos = after_chaos(seed, cfg);
            let end = final_world(seed, cfg);
            let judged = chaos.violation is None && cfg.stabilize_ticks > 0;
            let leader = exists|x: int|
                0 <= x < end.nodes.len() && (#[trigger] end.nodes[x]).role == Role::Leader;
            let progress = exists|y: int|
                0 <= y < end.nodes.len() && outdoes(
                    (#[trigger] end.nodes[y]).commit_index,
                    chaos.nodes,
                );
            &&& live_verdict(seed, cfg) is Some <==> judged
            &&& live_verdict(seed, cfg) == Some(true) <==> judged && end.violation is None && leader
                && progress
            &&& live_verdict(seed, cfg) == Some(true) ==> outdoes(
                max_commit(end.nodes),
                chaos.nodes,
            )
        }),
{
    let chaos = after_chaos(seed, cfg);
    let start = chaos.stabilizing();
    let end = final_world(seed, cfg);
    max_commit_is_the_maximum(start.nodes);
    max_commit_is_the_maximum(end.nodes);
    assert forall|x: int| 0 <= x < chaos.nodes.len() implies (
    #[trigger] chaos.nodes[x]).commit_index <= max_commit(start.nodes) by {
        assert(start.nodes[x].commit_index == chaos.nodes[x].commit_index);
    }
    if max_commit(end.nodes) > max_commit(start.nodes) {
        let y = choose|y: int|
            0 <= y < end.nodes.len() && (#[trigger] end.nodes[y]).commit_index == max_commit(
                end.nodes,
            );
        assert(outdoes(end.nodes[y].commit_index, chaos.nodes));
    }
    if exists|y: int|
        0 <= y < end.nodes.len() && outdoes(
            (#[trigger] end.nodes[y]).commit_index,
            chaos.nodes,
        ) {
        let y = choose|y: int|
            0 <= y < end.nodes.len() && outdoes(
                (#[trigger] end.nodes[y]).commit_index,
                chaos.nodes,
            );
        if start.nodes.len() > 0 {
            let x = choose|x: int|
                0 <= x < start.nodes.len() && (#[trigger] start.nodes[x]).commit_index
                    == max_commit(start.nodes);
            assert(chaos.nodes[x].commit_index < end.nodes[y].commit_index);
        }
        assert(max_commit(end.nodes) >= end.nodes[y].commit_index);
    }
}

/// After every tick of a run everything is in range.
proof fn chaos_in_range(seed: u64, cfg: RaftConfig, k: nat)
    requires
        cfg.fits(),
        k <= cfg.ticks,
    ensures
        in_range(RaftSim::init(seed, cfg).chaos(cfg, k), cfg, limits_at(cfg, k)),
    decreases k,
{
    let s0 = RaftSim::init(seed, cfg);
    if k == 0 {
        init_in_range(seed, cfg);
    } else {
        let t = (k - 1) as nat;
        chaos_in_range(seed, cfg, t);
        let s = s0.chaos(cfg, t);
        if s.violation is Some {
            limits_grow(cfg, t, k);
            looser_limits(s, cfg, limits_at(cfg, t), limits_at(cfg, k));
        } else {
            tick_delivery_in_range(s, cfg, t);
            let d = s.delivered_counting();
            tick_rest_in_range(d, cfg, t);
            fault_in_range(
                d.timers(cfg, cfg.n_nodes as nat).client_phase(cfg),
                cfg,
                limits_at(cfg, k),
            );
        }
    }
}

proof fn calm_in_range(s0: RaftSim, cfg: RaftConfig, k: nat)
    requires
        cfg.fits(),
        in_range(s0, cfg, limits_at(cfg, cfg.ticks as nat)),
        k <= cfg.stabilize_ticks,
    ensures
        in_range(s0.calm(cfg, k), cfg, limits_at(cfg, cfg.ticks as nat + k)),
    decreases k,
{
    if k > 0 {
        let j = (k - 1) as nat;
        let t = cfg.ticks as nat + j;
        calm_in_range(s0, cfg, j);
        let s = s0.calm(cfg, j);
        if s.violation is Some {
            limits_grow(cfg, t, t + 1);
            looser_limits(s, cfg, limits_at(cfg, t), limits_at(cfg, t + 1));
        } else {
            tick_delivery_in_range(s, cfg, t);
            tick_rest_in_range(s.delivered(), cfg, t);
        }
    }
}

/// Nothing was ever submitted, and nobody has committed anything or says so.
spec fn idle(s: RaftSim) -> bool {
    &&& s.commands == 0
    &&& forall|x: int| 0 <= x < s.nodes.len() ==> (#[trigger] s.nodes[x]).commit_index == 0
    &&& idle_queue(s.wire)
}

spec fn idle_queue(w: Wire<Rpc>) -> bool {
    forall|id: EventId| #[trigger]
        w.sched.queue.contains_key(id) ==> idle_message(w.sched.queue[id].1.msg)
}

spec fn idle_message(msg: Rpc) -> bool {
    msg matches Rpc::AppendEntries { leader_commit, .. } ==> leader_commit == 0
}

proof fn idle_sends(w: Wire<Rpc>, from: NodeId, outbox: Seq<(NodeId, Rpc)>)
    requires
        idle_queue(w),
        forall|k: int| 0 <= k < outbox.len() ==> idle_message((#[trigger] outbox[k]).1),
    ensures
        idle_queue(w.sent_all(from, outbox)),
    decreases outbox.len(),
{
    if outbox.len() > 0 {
        let rest = outbox.drop_last();
        assert forall|k: int| 0 <= k < rest.len() implies idle_message(
            (#[trigger] rest[k]).1,
        ) by {
            assert(rest[k] == outbox[k]);
        }
        idle_sends(w, from, rest);
        assert(idle_message(outbox[outbox.len() - 1].1));
    }
}

proof fn idle_delivery(s: RaftSim, cfg: RaftConfig, t: nat)
    requires
        idle(s),
        cfg.fits(),
        in_range(s, cfg, limits_at(cfg, t)),
    ensures
        idle(s.delivered()),
{
    if !s.wire.sched.quiet() {
        popped_in_range(s, cfg, limits_at(cfg, t));
        let id = first_event(s.wire.sched.queue);
        let packet = s.wire.sched.first_payload();
        assert(s.wire.sched.queue.contains_key(id));
        let p = s.popped();
        assert(idle_queue(p.wire)) by {
            assert forall|other: EventId| #[trigger]
                p.wire.sched.queue.contains_key(other) implies idle_message(
                p.wire.sched.queue[other].1.msg,
            ) by {
                assert(s.wire.sched.queue.contains_key(other));
            }
        }
        if s.has_delivery() {
            let node = s.nodes[packet.to as int];
            assert(node_ok(node, packet.to as int, cfg.n_nodes, 0, limits_at(cfg, t).term));
            let (after, replies) = node.handled(packet.from, packet.msg);
            assert(after.commit_index == 0);
            idle_sends(p.wire, packet.to, replies);
        }
    }
}

proof fn idle_timers(s: RaftSim, cfg: RaftConfig, k: nat)
    requires
        idle(s),
        k <= s.nodes.len() <= usize::MAX,
    ensures
        idle(s.timers(cfg, k)),
        s.timers(cfg, k).nodes.len() == s.nodes.len(),
    decreases k,
{
    if k > 0 {
        let j = (k - 1) as usize;
        idle_timers(s, cfg, j as nat);
        let t = s.timers(cfg, j as nat);
        let node = t.nodes[j as int];
        assert(node.commit_index == 0);
        if !node.crashed {
            let e = t.election_timer(j);
            if node.times_out() {
                idle_sends(t.wire, j, node.ticked().campaign_outbox());
            }
            assert(idle(e));
            let m = e.nodes[j as int];
            if m.role == Role::Leader {
                let r = e.with_rng(advance(e.wire.rng));
                idle_sends(r.wire, j, m.heartbeat_outbox());
            }
        }
    }
}

proof fn idle_tick(d: RaftSim, cfg: RaftConfig)
    requires
        idle(d),
        d.nodes.len() == cfg.n_nodes,
        cfg.client_prob.threshold == 0,
    ensures
        idle(d.timers(cfg, cfg.n_nodes as nat).client_phase(cfg)),
        idle(d.timers(cfg, cfg.n_nodes as nat).client_phase(cfg).checked()),
        idle(d.timers(cfg, cfg.n_nodes as nat).client_phase(cfg).fault_phase(cfg).checked()),
{
    idle_timers(d, cfg, cfg.n_nodes as nat);
    let c = d.timers(cfg, cfg.n_nodes as nat).client_phase(cfg);
    assert(c.nodes.len() == cfg.n_nodes);
    assert forall|x: int| 0 <= x < c.nodes.len() implies (#[trigger] c.fault_phase(
        cfg,
    ).nodes[x]).commit_index == 0 by {
        assert(c.nodes[x].commit_index == 0);
    }
}

proof fn idle_chaos(seed: u64, cfg: RaftConfig, k: nat)
    requires
        cfg.fits(),
        cfg.client_prob.threshold == 0,
        k <= cfg.ticks,
    ensures
        idle(RaftSim::init(seed, cfg).chaos(cfg, k)),
    decreases k,
{
    if k > 0 {
        let t = (k - 1) as nat;
        idle_chaos(seed, cfg, t);
        chaos_in_range(seed, cfg, t);
        let s = RaftSim::init(seed, cfg).chaos(cfg, t);
        idle_delivery(s, cfg, t);
        deliveries_keep_the_cluster(s);
        idle_tick(s.delivered_counting(), cfg);
    }
}

proof fn deliveries_keep_the_cluster(s: RaftSim)
    ensures
        s.delivered().nodes.len() == s.nodes.len(),
{
}

proof fn idle_calm(s0: RaftSim, cfg: RaftConfig, k: nat)
    requires
        cfg.fits(),
        cfg.client_prob.threshold == 0,
        idle(s0),
        in_range(s0, cfg, limits_at(cfg, cfg.ticks as nat)),
        k <= cfg.stabilize_ticks,
    ensures
        idle(s0.calm(cfg, k)),
    decreases k,
{
    if k > 0 {
        let j = (k - 1) as nat;
        idle_calm(s0, cfg, j);
        calm_in_range(s0, cfg, j);
        let s = s0.calm(cfg, j);
        idle_delivery(s, cfg, cfg.ticks as nat + j);
        deliveries_keep_the_cluster(s);
        idle_tick(s.delivered(), cfg);
    }
}

/// Nothing is committed that no client submitted: a run whose clients never submit a
/// command commits nothing, and is never live.
pub proof fn silent_clients_commit_nothing(seed: u64, cfg: RaftConfig)
    requires
        cfg.fits(),
        cfg.client_prob.threshold == 0,
    ensures
        final_world(seed, cfg).commands == 0,
        max_commit(final_world(seed, cfg).nodes) == 0,
        live_verdict(seed, cfg) != Some(true),
{
    let s = after_chaos(seed, cfg);
    let end = final_world(seed, cfg);
    idle_chaos(seed, cfg, cfg.ticks as nat);
    chaos_in_range(seed, cfg, cfg.ticks as nat);
    let start = s.stabilizing();
    assert(idle(start)) by {
        assert forall|x: int| 0 <= x < start.nodes.len() implies (
        #[trigger] start.nodes[x]).commit_index == 0 by {
            assert(s.nodes[x].commit_index == 0);
        }
    }
    stabilizing_in_range(s, cfg, limits_at(cfg, cfg.ticks as nat));
    idle_calm(start, cfg, cfg.stabilize_ticks as nat);
    assert(idle(end));
    max_commit_is_the_maximum(end.nodes);
    liveness_means_a_leader_and_progress(seed, cfg);
}

/// No more commands are submitted than ticks have passed, every log holds at most the
/// submitted commands, and elections are counted in the chaos phase alone, at most one
/// per tick.
pub proof fn counters_are_bounded_by_ticks(seed: u64, cfg: RaftConfig, k: nat, x: int)
    requires
        cfg.fits(),
        k <= cfg.ticks,
        0 <= x < cfg.n_nodes,
    ensures
        ({
            let s = RaftSim::init(seed, cfg).chaos(cfg, k);
            &&& s.commands <= k
            &&& s.elected <= k
            &&& s.nodes.len() == cfg.n_nodes
            &&& s.nodes[x].log.len() <= s.commands
        }),
        final_world(seed, cfg).elected == after_chaos(seed, cfg).elected,
{
    chaos_in_range(seed, cfg, k);
    let s = RaftSim::init(seed, cfg).chaos(cfg, k);
    assert(node_ok(
        s.nodes[x],
        x,
        cfg.n_nodes,
        s.commands as nat,
        limits_at(cfg, k).term,
    ));
    chaos_elections(seed, cfg, k);
    calm_elections(after_chaos(seed, cfg).stabilizing(), cfg, cfg.stabilize_ticks as nat);
}

proof fn chaos_elections(seed: u64, cfg: RaftConfig, k: nat)
    requires
        cfg.fits(),
        k <= cfg.ticks,
    ensures
        RaftSim::init(seed, cfg).chaos(cfg, k).elected <= k,
    decreases k,
{
    if k > 0 {
        chaos_elections(seed, cfg, (k - 1) as nat);
        let s = RaftSim::init(seed, cfg).chaos(cfg, (k - 1) as nat);
        timers_keep_counters(s.delivered_counting(), cfg, cfg.n_nodes as nat);
    }
}

proof fn calm_elections(s0: RaftSim, cfg: RaftConfig, k: nat)
    ensures
        s0.calm(cfg, k).elected == s0.elected,
    decreases k,
{
    if k > 0 {
        calm_elections(s0, cfg, (k - 1) as nat);
        let s = s0.calm(cfg, (k - 1) as nat);
        timers_keep_counters(s.delivered(), cfg, cfg.n_nodes as nat);
    }
}

/// The ledger of a run lists the leaders of each term in ascending order, each once, so
/// that its check is exact after every tick.
pub proof fn ledgers_ascend(s: RaftSim, cfg: RaftConfig, k: nat)
    requires
        ledger_ascends(s.ledger),
    ensures
        ledger_ascends(s.chaos(cfg, k).ledger),
        ledger_ascends(s.calm(cfg, k).ledger),
    decreases k,
{
    if k > 0 {
        let j = (k - 1) as nat;
        ledgers_ascend(s, cfg, j);
        let n = cfg.n_nodes as nat;
        let a = s.chaos(cfg, j).delivered_counting();
        let b = s.calm(cfg, j).delivered();
        timers_keep_ledger(a, cfg, n);
        timers_keep_ledger(b, cfg, n);
        checks_look_at_the_nodes(a.timers(cfg, n).client_phase(cfg).fault_phase(cfg));
        checks_look_at_the_nodes(b.timers(cfg, n).client_phase(cfg));
    }
}

proof fn timers_keep_ledger(s: RaftSim, cfg: RaftConfig, k: nat)
    ensures
        s.timers(cfg, k).ledger == s.ledger,
    decreases k,
{
    if k > 0 {
        timers_keep_ledger(s, cfg, (k - 1) as nat);
    }
}

} // verus!
