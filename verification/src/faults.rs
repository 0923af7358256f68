//! The faults that the runners inject, drawn from the seeded generator.

use crate::net::NodeId;
use crate::sim::rng::{advance, after_below, after_index, draw, draw_below, draw_index};
use crate::sim::Rng;
use vstd::prelude::*;

verus! {

/// One injected fault.
#[derive(Debug, Clone, Copy, PartialEq, Eq, Structural)]
pub enum Fault {
    /// Partition one node off from the rest.
    Isolate(NodeId),
    /// Heal the network.
    Heal,
    /// Crash one node.
    Crash(NodeId),
    /// Restart one node.
    Restart(NodeId),
    /// There is no node to pick.
    Nothing,
}

/// The fault that draws from generator state `s` give for a cluster of `n`: each
/// kind with the same chance, the victim uniformly.
pub open spec fn fault_from(s: u64, n: usize) -> Fault {
    let kind = draw_below(s, 4);
    let victim = draw_index(after_below(s, 4), n);
    if kind == 1 {
        Fault::Heal
    } else {
        match victim {
            None => Fault::Nothing,
            Some(v) => if kind == 0 {
                Fault::Isolate(v)
            } else if kind == 2 {
                Fault::Crash(v)
            } else {
                Fault::Restart(v)
            },
        }
    }
}

/// The generator state after those draws. A heal needs no victim.
pub open spec fn after_fault(s: u64, n: usize) -> u64 {
    if draw_below(s, 4) == 1 {
        after_below(s, 4)
    } else {
        after_index(after_below(s, 4), n)
    }
}

/// Draw a fault for a cluster of `n` nodes.
pub fn draw_fault(rng: &mut Rng, n: usize) -> (f: Fault)
    ensures
        f == fault_from(old(rng)@, n),
        final(rng)@ == after_fault(old(rng)@, n),
        f matches Fault::Isolate(v) ==> v < n,
        f matches Fault::Crash(v) ==> v < n,
        f matches Fault::Restart(v) ==> v < n,
{
    let kind = rng.below(4);
    if kind == 1 {
        return Fault::Heal;
    }
    match rng.index(n) {
        None => Fault::Nothing,
        Some(v) => if kind == 0 {
            Fault::Isolate(v)
        } else if kind == 2 {
            Fault::Crash(v)
        } else {
            Fault::Restart(v)
        },
    }
}

/// Each residue of the first draw modulo 4 stands for one kind of fault, the second
/// draw modulo `n` picks the victim, and a heal draws no victim.
pub proof fn faults_follow_the_draws(s: u64, n: usize)
    requires
        n > 0,
    ensures
        ({
            let kind = draw(s) % 4;
            let victim = (draw(advance(s)) % (n as u64)) as usize;
            &&& victim < n
            &&& kind == 0 ==> fault_from(s, n) == Fault::Isolate(victim)
            &&& kind == 1 ==> fault_from(s, n) == Fault::Heal
            &&& kind == 2 ==> fault_from(s, n) == Fault::Crash(victim)
            &&& kind == 3 ==> fault_from(s, n) == Fault::Restart(victim)
            &&& kind == 1 ==> after_fault(s, n) == advance(s)
            &&& kind != 1 ==> after_fault(s, n) == advance(advance(s))
        }),
{
}

/// Without nodes there is nobody to pick: only a heal is possible, and nothing is
/// drawn for a victim.
pub proof fn faults_without_nodes(s: u64)
    ensures
        fault_from(s, 0) == if draw(s) % 4 == 1 {
            Fault::Heal
        } else {
            Fault::Nothing
        },
        after_fault(s, 0) == advance(s),
{
}

} // verus!
