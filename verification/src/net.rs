//! The simulated network -- where faults are injected.
//!
//! Nodes never talk directly; every message goes through the network, which
//! decides its fate using the seeded RNG and the current fault configuration:
//!   - **drop**: the message is silently lost (with probability `drop_prob`).
//!   - **delay**: delivery is scheduled some random number of ticks later, so
//!     messages can arrive out of order -- the reordering real networks do.
//!   - **partition**: if the two nodes are on opposite sides of a partition, the
//!     message is dropped regardless (a network split).
//!
//! Delivery is modeled by scheduling a `Deliver` event on the shared scheduler,
//! so message arrival interleaves deterministically with everything else. The
//! network holds no real sockets -- it's pure logic over the seeded world.

use crate::sim::rng::{
    advance, after_below, chance_is_a_fraction, draw, draw_below, happens,
};
use crate::sim::scheduler::{
    schedule_commutes_with_map, scheduled_is_paced, scheduled_is_wf, SchedState,
};
use crate::sim::{EventId, Prob, Rng, Scheduler, Tick};
use vstd::prelude::*;

verus! {

/// A node identifier (0..n).
pub type NodeId = usize;

/// The event type the scheduler carries for network activity: deliver `msg`
/// from `from` to `to`. The payload `M` is the application's message type.
#[derive(Debug, Clone)]
pub struct Deliver<M> {
    pub from: NodeId,
    pub to: NodeId,
    pub msg: M,
}

/// Tunable fault model; delays in ticks.
#[derive(Debug, Clone, Copy)]
pub struct NetConfig {
    pub drop_prob: Prob,
    pub min_delay: Tick,
    pub max_delay: Tick,
}

/// One message in twenty, rounded up to a multiple of 2^-53.
pub const DEFAULT_DROP: u64 = 0x1_9999_9999_999A;

impl Default for NetConfig {
    /// A lively-but-not-hostile default: some loss, variable latency.
    fn default() -> (c: Self)
        ensures
            c == NetConfig::spec_default(),
    {
        NetConfig { drop_prob: Prob { threshold: DEFAULT_DROP }, min_delay: 1, max_delay: 20 }
    }
}

impl NetConfig {
    pub open spec fn spec_default() -> NetConfig {
        NetConfig { drop_prob: Prob { threshold: DEFAULT_DROP }, min_delay: 1, max_delay: 20 }
    }

    /// The number of different delays: one if the bounds cross.
    pub open spec fn delays(self) -> int {
        if self.max_delay >= self.min_delay {
            self.max_delay - self.min_delay + 1
        } else {
            1
        }
    }

    /// The longest delay.
    pub open spec fn longest_delay(self) -> Tick {
        if self.max_delay >= self.min_delay {
            self.max_delay
        } else {
            self.min_delay
        }
    }

    /// The delay that a draw from generator state `s` gives.
    pub open spec fn delay_from(self, s: u64) -> Tick {
        (self.min_delay + draw_below(s, self.delays() as u64)) as u64
    }
}

/// Whether a partition with these sides lets `a` and `b` exchange messages:
/// they are on the same side, or one of them is on no side at all.
pub open spec fn sides_connect(side: Seq<u8>, a: NodeId, b: NodeId) -> bool {
    a < side.len() && b < side.len() ==> side[a as int] == side[b as int]
}

/// The sides after a split that isolates `group_a` among `n` nodes.
pub open spec fn split_sides(n: usize, group_a: Seq<NodeId>) -> Seq<u8> {
    Seq::new(n as nat, |i: int| if group_a.contains(i as usize) { 1u8 } else { 0u8 })
}

/// The sides of `n` nodes that are all connected.
pub open spec fn one_side(n: nat) -> Seq<u8> {
    Seq::new(n, |i: int| 0u8)
}

/// Tracks a network partition as a 2-coloring of nodes: nodes with different
/// colors cannot exchange messages. The view gives the side of each node.
#[derive(Clone)]
pub struct Partition {
    side: Vec<u8>,
}

impl View for Partition {
    type V = Seq<u8>;

    closed spec fn view(&self) -> Seq<u8> {
        self.side@
    }
}

impl Default for Partition {
    /// No sides: everyone is connected.
    fn default() -> (p: Self)
        ensures
            p@ == Seq::<u8>::empty(),
    {
        Partition { side: Vec::new() }
    }
}

impl Partition {
    pub fn none(n: usize) -> (p: Self)
        ensures
            p@ == one_side(n as nat),
    {
        let p = Partition { side: vec![0; n] };
        assert(p@ =~= one_side(n as nat));
        p
    }

    /// Split so that nodes in `group_a` are isolated from the rest.
    pub fn split(n: usize, group_a: &[NodeId]) -> (p: Self)
        ensures
            p@ == split_sides(n, group_a@),
    {
        let mut side: Vec<u8> = vec![0u8; n];
        let mut k: usize = 0;
        while k < group_a.len()
            invariant
                k <= group_a@.len(),
                side@.len() == n,
                forall|i: int|
                    #![trigger side@[i]]
                    0 <= i < n ==> side@[i] == if group_a@.take(k as int).contains(i as usize) {
                        1u8
                    } else {
                        0u8
                    },
            decreases group_a@.len() - k,
        {
            let node = group_a[k];
            let ghost before = side@;
            if node < n {
                side[node] = 1;
            }
            proof {
                let done = group_a@.take(k as int);
                let next = group_a@.take(k + 1);
                assert(next =~= done.push(node));
                assert forall|i: int| #![trigger side@[i]] 0 <= i < n implies side@[i]
                    == if next.contains(i as usize) {
                    1u8
                } else {
                    0u8
                } by {
                    assert(before[i] == before[i]);
                    if done.contains(i as usize) {
                        let j = choose|j: int| 0 <= j < done.len() && done[j] == i as usize;
                        assert(next[j] == i as usize);
                    }
                    if i == node {
                        assert(next[k as int] == node);
                    }
                    if next.contains(i as usize) && i != node {
                        let j = choose|j: int| 0 <= j < next.len() && next[j] == i as usize;
                        assert(done[j] == i as usize);
                    }
                }
            }
            k = k + 1;
        }
        assert(group_a@.take(k as int) =~= group_a@);
        assert(side@ =~= split_sides(n, group_a@));
        Partition { side }
    }

    /// Heal: everyone back on the same side.
    pub fn heal(&mut self)
        ensures
            final(self)@ == one_side(old(self)@.len()),
    {
        let n = self.side.len();
        let mut k: usize = 0;
        while k < n
            invariant
                k <= n,
                n == self.side@.len(),
                n == old(self).side@.len(),
                forall|i: int| #![trigger self.side@[i]] 0 <= i < k ==> self.side@[i] == 0,
            decreases n - k,
        {
            self.side[k] = 0;
            k = k + 1;
        }
        assert(self@ =~= one_side(old(self)@.len()));
    }

    /// Can `a` and `b` currently exchange messages?
    pub fn connected(&self, a: NodeId, b: NodeId) -> (r: bool)
        ensures
            r == sides_connect(self@, a, b),
    {
        if a < self.side.len() && b < self.side.len() {
            self.side[a] == self.side[b]
        } else {
            true
        }
    }
}

/// A split cuts exactly the pairs of nodes of which one is isolated and the
/// other is not.
pub proof fn split_cuts_the_group_off(n: usize, group_a: Seq<NodeId>, a: NodeId, b: NodeId)
    requires
        a < n,
        b < n,
    ensures
        sides_connect(split_sides(n, group_a), a, b) <==> (group_a.contains(a)
            <==> group_a.contains(b)),
{
}

/// After a heal, and where nothing was ever split, everyone can talk.
pub proof fn one_side_connects_everyone(n: nat, a: NodeId, b: NodeId)
    ensures
        sides_connect(one_side(n), a, b),
{
}

/// Connection has no direction, and every node reaches itself.
pub proof fn connection_is_symmetric(side: Seq<u8>, a: NodeId, b: NodeId)
    ensures
        sides_connect(side, a, b) == sides_connect(side, b, a),
        sides_connect(side, a, a),
{
}

/// The model of a network: its configuration, the side of each node, and the
/// counters.
#[verifier::ext_equal]
pub struct NetState {
    pub config: NetConfig,
    pub side: Seq<u8>,
    pub sent: u64,
    pub dropped: u64,
    pub delivered: u64,
}

impl NetState {
    pub open spec fn init(n_nodes: usize, config: NetConfig) -> NetState {
        NetState { config, side: one_side(n_nodes as nat), sent: 0, dropped: 0, delivered: 0 }
    }

    /// Every message was either dropped or accepted for delivery.
    pub open spec fn balanced(self) -> bool {
        self.sent == self.dropped + self.delivered
    }
}

/// What becomes of a message.
pub enum Fate {
    /// The two nodes are on opposite sides of a partition.
    Cut,
    /// The message is lost at random.
    Lost,
    /// The message arrives this many ticks later.
    Delayed(Tick),
}

/// The fate of a message from `from` to `to` with the generator in state `rng`.
pub open spec fn fate(net: NetState, rng: u64, from: NodeId, to: NodeId) -> Fate {
    if !sides_connect(net.side, from, to) {
        Fate::Cut
    } else if happens(rng, net.config.drop_prob) {
        Fate::Lost
    } else {
        Fate::Delayed(net.config.delay_from(advance(rng)))
    }
}

/// The part of the simulated world that a message passes through: the network,
/// the pending deliveries and the state of the generator.
#[verifier::ext_equal]
pub struct Wire<M> {
    pub net: NetState,
    pub sched: SchedState<Deliver<M>>,
    pub rng: u64,
}

impl<M> Wire<M> {
    /// The wire after one message was handed to it.
    pub open spec fn sent(self, from: NodeId, to: NodeId, msg: M) -> Wire<M> {
        let count = NetState { sent: (self.net.sent + 1) as u64, ..self.net };
        match fate(self.net, self.rng, from, to) {
            Fate::Cut => Wire {
                net: NetState { dropped: (self.net.dropped + 1) as u64, ..count },
                ..self
            },
            Fate::Lost => Wire {
                net: NetState { dropped: (self.net.dropped + 1) as u64, ..count },
                rng: advance(self.rng),
                ..self
            },
            Fate::Delayed(delay) => Wire {
                net: NetState { delivered: (self.net.delivered + 1) as u64, ..count },
                sched: self.sched.scheduled(delay, Deliver { from, to, msg }),
                rng: after_below(advance(self.rng), self.net.config.delays() as u64),
            },
        }
    }

    /// The wire after the messages of an outbox were handed to it in order.
    pub open spec fn sent_all(self, from: NodeId, outbox: Seq<(NodeId, M)>) -> Wire<M>
        decreases outbox.len(),
    {
        if outbox.len() == 0 {
            self
        } else {
            self.sent_all(from, outbox.drop_last()).sent(
                from,
                outbox.last().0,
                outbox.last().1,
            )
        }
    }

    /// The wire with each message in flight replaced by its image under `f`.
    pub open spec fn map_messages<N>(self, f: spec_fn(M) -> N) -> Wire<N> {
        Wire { net: self.net, sched: self.sched.map_payloads(relabel(f)), rng: self.rng }
    }

    /// The books are in order: every message was either dropped or scheduled.
    pub open spec fn audited(self) -> bool {
        &&& self.net.balanced()
        &&& self.sched.next_seq == self.net.delivered
    }

    /// There is room for `k` more messages in the counters, in the event ids and
    /// on the clock.
    pub open spec fn has_room(self, k: nat) -> bool {
        &&& self.net.sent + k <= u64::MAX
        &&& self.net.dropped + k <= u64::MAX
        &&& self.net.delivered + k <= u64::MAX
        &&& self.sched.next_seq + k <= u64::MAX
        &&& self.net.config.delays() <= u64::MAX
        &&& self.sched.now + self.net.config.longest_delay() <= u64::MAX
    }
}

/// The packet with its message replaced by its image under `f`.
pub open spec fn relabel<M, N>(f: spec_fn(M) -> N) -> spec_fn(Deliver<M>) -> Deliver<N> {
    |d: Deliver<M>| Deliver { from: d.from, to: d.to, msg: f(d.msg) }
}

/// What happens to a message does not depend on what it says.
pub proof fn send_commutes_with_map<M, N>(
    w: Wire<M>,
    f: spec_fn(M) -> N,
    from: NodeId,
    to: NodeId,
    msg: M,
)
    ensures
        w.sent(from, to, msg).map_messages(f) == w.map_messages(f).sent(from, to, f(msg)),
{
    if let Fate::Delayed(delay) = fate(w.net, w.rng, from, to) {
        schedule_commutes_with_map(w.sched, relabel(f), delay, Deliver { from, to, msg });
    }
}

/// An outbox with each message replaced by its image under `f`.
pub open spec fn map_outbox<M, N>(outbox: Seq<(NodeId, M)>, f: spec_fn(M) -> N) -> Seq<
    (NodeId, N),
> {
    outbox.map_values(|p: (NodeId, M)| (p.0, f(p.1)))
}

/// As `send_commutes_with_map`, for a whole outbox.
pub proof fn send_all_commutes_with_map<M, N>(
    w: Wire<M>,
    f: spec_fn(M) -> N,
    from: NodeId,
    outbox: Seq<(NodeId, M)>,
)
    ensures
        w.sent_all(from, outbox).map_messages(f) == w.map_messages(f).sent_all(
            from,
            map_outbox(outbox, f),
        ),
    decreases outbox.len(),
{
    if outbox.len() > 0 {
        let rest = outbox.drop_last();
        send_all_commutes_with_map(w, f, from, rest);
        send_commutes_with_map(
            w.sent_all(from, rest),
            f,
            from,
            outbox.last().0,
            outbox.last().1,
        );
        assert(map_outbox(outbox, f).drop_last() =~= map_outbox(rest, f));
    }
}

/// Every message is either dropped or accepted: the counters stay balanced.
pub proof fn send_keeps_the_balance<M>(w: Wire<M>, from: NodeId, to: NodeId, msg: M)
    requires
        w.net.balanced(),
        w.net.sent < u64::MAX,
    ensures
        w.sent(from, to, msg).net.balanced(),
{
}

/// A message between connected nodes arrives if nothing is ever lost.
pub proof fn lossless_send_is_accepted<M>(w: Wire<M>, from: NodeId, to: NodeId)
    requires
        w.net.config.drop_prob.threshold == 0,
        sides_connect(w.net.side, from, to),
    ensures
        fate(w.net, w.rng, from, to) is Delayed,
{
}

/// A message across a partition never arrives.
pub proof fn partition_stops_messages<M>(w: Wire<M>, from: NodeId, to: NodeId, msg: M)
    requires
        !sides_connect(w.net.side, from, to),
    ensures
        w.sent(from, to, msg).sched == w.sched,
        w.sent(from, to, msg).rng == w.rng,
{
}

/// A delay lies between the configured bounds.
pub proof fn delay_is_bounded(c: NetConfig, s: u64)
    requires
        c.delays() <= u64::MAX,
    ensures
        c.min_delay <= c.delay_from(s) <= c.longest_delay(),
{
    let d = draw_below(s, c.delays() as u64);
    assert(d < c.delays());
}

/// What a send leaves as it was, and what it uses up.
pub proof fn send_uses_room<M>(w: Wire<M>, from: NodeId, to: NodeId, msg: M, k: nat)
    requires
        k > 0,
        w.has_room(k),
        w.sched.wf(),
    ensures
        w.sent(from, to, msg).has_room((k - 1) as nat),
        w.sent(from, to, msg).sched.wf(),
        w.sent(from, to, msg).sched.now == w.sched.now,
        w.sent(from, to, msg).net.config == w.net.config,
        w.sent(from, to, msg).net.side == w.net.side,
        w.sent(from, to, msg).sched.next_seq <= w.sched.next_seq + 1,
{
    if let Fate::Delayed(delay) = fate(w.net, w.rng, from, to) {
        delay_is_bounded(w.net.config, advance(w.rng));
        scheduled_is_wf(w.sched, delay, Deliver { from, to, msg });
    }
}

/// As `send_uses_room`, for a whole outbox.
pub proof fn send_all_uses_room<M>(w: Wire<M>, from: NodeId, outbox: Seq<(NodeId, M)>, k: nat)
    requires
        k >= outbox.len(),
        w.has_room(k),
        w.sched.wf(),
    ensures
        w.sent_all(from, outbox).has_room((k - outbox.len()) as nat),
        w.sent_all(from, outbox).sched.wf(),
        w.sent_all(from, outbox).sched.now == w.sched.now,
        w.sent_all(from, outbox).net.config == w.net.config,
        w.sent_all(from, outbox).net.side == w.net.side,
        w.sent_all(from, outbox).sched.next_seq <= w.sched.next_seq + outbox.len(),
    decreases outbox.len(),
{
    if outbox.len() > 0 {
        let rest = outbox.drop_last();
        send_all_uses_room(w, from, rest, k);
        send_uses_room(
            w.sent_all(from, rest),
            from,
            outbox.last().0,
            outbox.last().1,
            (k - rest.len()) as nat,
        );
    }
}

/// Sending keeps the books in order and the clock paced.
pub proof fn send_keeps_books<M>(w: Wire<M>, from: NodeId, to: NodeId, msg: M)
    requires
        w.has_room(1),
        w.sched.wf(),
        w.audited(),
        w.sched.paced(w.net.config.longest_delay()),
    ensures
        w.sent(from, to, msg).audited(),
        w.sent(from, to, msg).sched.paced(w.net.config.longest_delay()),
        w.sent(from, to, msg).sched.fired() == w.sched.fired(),
        w.sent(from, to, msg).net.sent == w.net.sent + 1,
{
    if let Fate::Delayed(delay) = fate(w.net, w.rng, from, to) {
        delay_is_bounded(w.net.config, advance(w.rng));
        scheduled_is_paced(
            w.sched,
            w.net.config.longest_delay(),
            delay,
            Deliver { from, to, msg },
        );
    }
}

/// As `send_keeps_books`, for a whole outbox.
pub proof fn send_all_keeps_books<M>(w: Wire<M>, from: NodeId, outbox: Seq<(NodeId, M)>)
    requires
        w.has_room(outbox.len()),
        w.sched.wf(),
        w.audited(),
        w.sched.paced(w.net.config.longest_delay()),
    ensures
        w.sent_all(from, outbox).audited(),
        w.sent_all(from, outbox).sched.paced(w.net.config.longest_delay()),
        w.sent_all(from, outbox).sched.fired() == w.sched.fired(),
        w.sent_all(from, outbox).net.sent == w.net.sent + outbox.len(),
    decreases outbox.len(),
{
    if outbox.len() > 0 {
        let rest = outbox.drop_last();
        send_all_uses_room(w, from, rest, outbox.len());
        send_all_keeps_books(w, from, rest);
        send_keeps_books(w.sent_all(from, rest), from, outbox.last().0, outbox.last().1);
    }
}

pub struct Network {
    pub config: NetConfig,
    pub partition: Partition,
    // Stats for the run summary.
    pub sent: u64,
    pub dropped: u64,
    pub delivered: u64,
}

impl View for Network {
    type V = NetState;

    open spec fn view(&self) -> NetState {
        NetState {
            config: self.config,
            side: self.partition@,
            sent: self.sent,
            dropped: self.dropped,
            delivered: self.delivered,
        }
    }
}

/// The wire that a network, a scheduler and a generator make up.
pub open spec fn wire<M>(net: Network, sched: Scheduler<Deliver<M>>, rng: Rng) -> Wire<M> {
    Wire { net: net@, sched: sched@, rng: rng@ }
}

impl Network {
    pub fn new(n_nodes: usize, config: NetConfig) -> (net: Self)
        ensures
            net@ == NetState::init(n_nodes, config),
    {
        Network { config, partition: Partition::none(n_nodes), sent: 0, dropped: 0, delivered: 0 }
    }

    /// Attempt to send `msg` from `from` to `to`. Decides drop/delay using
    /// `rng`, and on success schedules a `Deliver` event on `sched`. Returns
    /// true if the message was accepted for (eventual) delivery.
    pub fn send<M>(
        &mut self,
        sched: &mut Scheduler<Deliver<M>>,
        rng: &mut Rng,
        from: NodeId,
        to: NodeId,
        msg: M,
    ) -> (accepted: bool)
        requires
            old(sched).wf(),
            old(self).sent < u64::MAX,
            !(fate(old(self)@, old(rng)@, from, to) is Delayed) ==> old(self).dropped < u64::MAX,
            fate(old(self)@, old(rng)@, from, to) matches Fate::Delayed(delay) ==> {
                &&& old(self).delivered < u64::MAX
                &&& old(self).config.delays() <= u64::MAX
                &&& old(sched)@.next_seq < u64::MAX
                &&& old(sched)@.now + delay <= u64::MAX
            },
        ensures
            final(sched).wf(),
            wire(*final(self), *final(sched), *final(rng)) == wire(
                *old(self),
                *old(sched),
                *old(rng),
            ).sent(from, to, msg),
            accepted == (fate(old(self)@, old(rng)@, from, to) is Delayed),
    {
        self.sent = self.sent + 1;

        // Partitioned peers cannot communicate.
        if !self.partition.connected(from, to) {
            self.dropped = self.dropped + 1;
            return false;
        }
        // Random loss.

        if rng.chance(self.config.drop_prob) {
            self.dropped = self.dropped + 1;
            return false;
        }
        // Random delay -> out-of-order arrival is possible and deterministic.

        let span = self.config.max_delay.saturating_sub(self.config.min_delay) + 1;
        proof {
            delay_is_bounded(self.config, rng@);
        }
        let delay = self.config.min_delay + rng.below(span);
        sched.schedule(delay, Deliver { from, to, msg });
        self.delivered = self.delivered + 1;
        true
    }

    /// Send every message of an outbox, in order.
    pub fn send_all<M>(
        &mut self,
        sched: &mut Scheduler<Deliver<M>>,
        rng: &mut Rng,
        from: NodeId,
        outbox: Vec<(NodeId, M)>,
    )
        requires
            old(sched).wf(),
            wire(*old(self), *old(sched), *old(rng)).has_room(outbox@.len()),
        ensures
            final(sched).wf(),
            wire(*final(self), *final(sched), *final(rng)) == wire(
                *old(self),
                *old(sched),
                *old(rng),
            ).sent_all(from, outbox@),
    {
        let ghost w0 = wire(*self, *sched, *rng);
        proof {
            sched.view_is_wf();
        }
        let ghost all = outbox@;
        let ghost mut k: nat = 0;
        assert(all.take(0) =~= Seq::empty());
        for item in iter: outbox
            invariant
                sched.wf(),
                iter.seq() == all,
                k == iter.index(),
                w0.has_room(all.len()),
                w0.sched.wf(),
                wire(*self, *sched, *rng) == w0.sent_all(from, all.take(k as int)),
        {
            proof {
                send_all_uses_room(w0, from, all.take(k as int), all.len());
                delay_is_bounded(self.config, advance(rng@));
                assert(all.take((k + 1) as int).drop_last() =~= all.take(k as int));
            }
            let (dst, m) = item;
            self.send(sched, rng, from, dst, m);
            proof {
                k = k + 1;
            }
        }
        assert(all.take(all.len() as int) =~= all);
    }
}

/// A node that no side holds is connected to everyone, and two nodes that have sides
/// are connected exactly if they are on the same one.
pub proof fn connection_goes_by_side(side: Seq<u8>, a: NodeId, b: NodeId)
    ensures
        a >= side.len() || b >= side.len() ==> sides_connect(side, a, b),
        a < side.len() && b < side.len() ==> (sides_connect(side, a, b) <==> side[a as int]
            == side[b as int]),
{
}

/// A split gives every node a side, and only the isolated nodes are set apart.
pub proof fn splits_cover_every_node(n: usize, group_a: Seq<NodeId>, i: NodeId)
    requires
        i < n,
    ensures
        split_sides(n, group_a).len() == n,
        one_side(n as nat).len() == n,
        one_side(n as nat)[i as int] == 0,
        split_sides(n, group_a)[i as int] == if group_a.contains(i) {
            1u8
        } else {
            0u8
        },
{
}

/// What a send does. A message across a partition is dropped, and draws nothing. Of
/// the others, those that the first draw says are lost are dropped too. What is left
/// is scheduled once, as it is, after a delay that the second draw picks between the
/// bounds. Each message is counted once as sent and once as dropped or delivered, and
/// what was already in flight stays as it was.
pub proof fn sends_drop_or_deliver_once<M>(
    w: Wire<M>,
    from: NodeId,
    to: NodeId,
    msg: M,
    id: EventId,
)
    requires
        w.has_room(1),
        w.sched.wf(),
    ensures
        ({
            let t = w.sent(from, to, msg);
            let cut = from < w.net.side.len() && to < w.net.side.len() && w.net.side[from as int]
                != w.net.side[to as int];
            let lost = !cut && draw(w.rng) < w.net.config.drop_prob.threshold * 2048;
            let new = w.sched.next_seq;
            &&& t.net.sent == w.net.sent + 1
            &&& t.net.side == w.net.side
            &&& t.net.config == w.net.config
            &&& t.sched.now == w.sched.now
            &&& w.sched.queue.contains_key(id) ==> t.sched.queue.contains_key(id)
                && t.sched.queue[id] == w.sched.queue[id]
            &&& cut ==> t.rng == w.rng
            &&& lost ==> t.rng == advance(w.rng)
            &&& cut || lost ==> {
                &&& t.net.dropped == w.net.dropped + 1
                &&& t.net.delivered == w.net.delivered
                &&& t.sched == w.sched
            }
            &&& !cut && !lost ==> {
                &&& t.net.dropped == w.net.dropped
                &&& t.net.delivered == w.net.delivered + 1
                &&& t.rng == advance(advance(w.rng))
                &&& t.sched.next_seq == new + 1
                &&& t.sched.queue.contains_key(new)
                &&& t.sched.queue[new].1 == Deliver { from, to, msg }
                &&& t.sched.queue[new].0 == w.sched.now + w.net.config.min_delay + draw(
                    advance(w.rng),
                ) % (w.net.config.delays() as u64)
                &&& id != new && t.sched.queue.contains_key(id) ==> w.sched.queue.contains_key(id)
            }
        }),
{
    chance_is_a_fraction(w.rng, w.net.config.drop_prob);
    delay_is_bounded(w.net.config, advance(w.rng));
}

/// The delays are those from the least to the greatest, or the least alone if the
/// bounds cross.
pub proof fn delays_span_the_bounds(c: NetConfig)
    ensures
        c.min_delay <= c.max_delay ==> c.delays() == c.max_delay - c.min_delay + 1
            && c.longest_delay() == c.max_delay,
        c.min_delay > c.max_delay ==> c.delays() == 1 && c.longest_delay() == c.min_delay,
{
}

/// Sending an outbox is sending its messages one after the other.
pub proof fn outboxes_are_sent_in_order<M>(
    w: Wire<M>,
    from: NodeId,
    first: Seq<(NodeId, M)>,
    to: NodeId,
    msg: M,
)
    ensures
        w.sent_all(from, Seq::empty()) == w,
        w.sent_all(from, first.push((to, msg))) == w.sent_all(from, first).sent(from, to, msg),
{
    assert(first.push((to, msg)).drop_last() =~= first);
}

/// A new network is whole and has counted nothing.
pub proof fn new_networks_are_whole(n_nodes: usize, config: NetConfig, a: NodeId, b: NodeId)
    ensures
        ({
            let net = NetState::init(n_nodes, config);
            &&& sides_connect(net.side, a, b)
            &&& net.side.len() == n_nodes
            &&& net.config == config
            &&& net.sent == 0 && net.dropped == 0 && net.delivered == 0
        }),
{
}

/// By default one message in twenty is lost, to within one part in 2^53, and the others
/// take one to twenty ticks.
pub proof fn default_networks_are_lively()
    ensures
        ({
            let c = NetConfig::spec_default();
            let loss: int = 20 * c.drop_prob.threshold;
            &&& 0x20_0000_0000_0000 <= loss < 0x20_0000_0000_0000 + 20
            &&& c.min_delay == 1
            &&& c.max_delay == 20
        }),
{
}

} // verus!
