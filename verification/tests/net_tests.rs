//! The simulated network.

use faultline::faults::{draw_fault, Fault};
use faultline::net::{Deliver, NetConfig, Network, Partition};
use faultline::sim::{Prob, Rng, Scheduler};

/// The threshold of a probability given as a fraction.
fn prob(p: f64) -> Prob {
    Prob { threshold: (p.clamp(0.0, 1.0) * (1u64 << 53) as f64).ceil() as u64 }
}

#[test]
fn partition_blocks_cross_side() {
    let p = Partition::split(4, &[0, 1]); // {0,1} | {2,3}
    assert!(p.connected(0, 1));
    assert!(p.connected(2, 3));
    assert!(!p.connected(0, 2));
    assert!(!p.connected(1, 3));
}

#[test]
fn heal_reconnects() {
    let mut p = Partition::split(3, &[0]);
    assert!(!p.connected(0, 1));
    p.heal();
    assert!(p.connected(0, 1));
}

#[test]
fn zero_drop_always_delivers_when_connected() {
    let cfg = NetConfig { drop_prob: prob(0.0), min_delay: 1, max_delay: 1 };
    let mut net = Network::new(2, cfg);
    let mut sched: Scheduler<Deliver<u32>> = Scheduler::new();
    let mut rng = Rng::new(7);
    for _ in 0..100 {
        assert!(net.send(&mut sched, &mut rng, 0, 1, 42));
    }
    assert_eq!(net.dropped, 0);
    assert_eq!(net.delivered, 100);
}

#[test]
fn deterministic_drop_pattern() {
    // Same seed -> identical drop decisions.
    let run = || {
        let cfg = NetConfig { drop_prob: prob(0.5), min_delay: 1, max_delay: 5 };
        let mut net = Network::new(2, cfg);
        let mut sched: Scheduler<Deliver<u32>> = Scheduler::new();
        let mut rng = Rng::new(99);
        for _ in 0..200 {
            net.send(&mut sched, &mut rng, 0, 1, 1);
        }
        (net.dropped, net.delivered)
    };
    assert_eq!(run(), run(), "same seed must reproduce the same drops");
}

#[test]
fn nodes_outside_the_partition_are_connected() {
    let p = Partition::split(2, &[0, 7]);
    assert!(!p.connected(0, 1));
    assert!(p.connected(0, 2));
    assert!(p.connected(9, 1));
    assert!(Partition::none(3).connected(0, 2));
    assert!(Partition::default().connected(0, 1));
}

#[test]
fn cut_messages_are_counted_and_draw_nothing() {
    let cfg = NetConfig { drop_prob: prob(0.5), min_delay: 1, max_delay: 5 };
    let mut net = Network::new(2, cfg);
    net.partition = Partition::split(2, &[1]);
    let mut sched: Scheduler<Deliver<u32>> = Scheduler::new();
    let mut rng = Rng::new(4);
    let mut untouched = Rng::new(4);
    for _ in 0..10 {
        assert!(!net.send(&mut sched, &mut rng, 0, 1, 1));
    }
    assert_eq!((net.sent, net.dropped, net.delivered), (10, 10, 0));
    assert!(sched.is_empty());
    assert_eq!(rng.next_u64(), untouched.next_u64());
}

#[test]
fn counters_balance_and_delays_stay_in_bounds() {
    let cfg = NetConfig { drop_prob: prob(0.25), min_delay: 3, max_delay: 9 };
    let mut net = Network::new(3, cfg);
    let mut sched: Scheduler<Deliver<u32>> = Scheduler::new();
    let mut rng = Rng::new(12);
    for m in 0..300u32 {
        net.send(&mut sched, &mut rng, 0, 2, m);
    }
    assert_eq!(net.sent, 300);
    assert_eq!(net.sent, net.dropped + net.delivered);
    assert!(net.dropped > 0);
    assert_eq!(sched.pending() as u64, net.delivered);
    while let Some(ev) = sched.step() {
        assert!(3 <= ev.tick && ev.tick <= 9);
        assert_eq!((ev.payload.from, ev.payload.to), (0, 2));
    }
}

#[test]
fn crossed_delay_bounds_give_the_minimum() {
    let cfg = NetConfig { drop_prob: prob(0.0), min_delay: 8, max_delay: 2 };
    let mut net = Network::new(2, cfg);
    let mut sched: Scheduler<Deliver<u32>> = Scheduler::new();
    let mut rng = Rng::new(1);
    assert!(net.send(&mut sched, &mut rng, 0, 1, 5));
    assert_eq!(sched.step().unwrap().tick, 8);
}

#[test]
fn send_all_is_send_in_order() {
    let cfg = NetConfig { drop_prob: prob(0.3), min_delay: 1, max_delay: 20 };
    let mut one = Network::new(4, cfg);
    let mut all = Network::new(4, cfg);
    let mut s1: Scheduler<Deliver<u32>> = Scheduler::new();
    let mut s2: Scheduler<Deliver<u32>> = Scheduler::new();
    let mut r1 = Rng::new(31);
    let mut r2 = Rng::new(31);
    for m in 0..40u32 {
        one.send(&mut s1, &mut r1, 0, (m % 4) as usize, m);
    }
    all.send_all(&mut s2, &mut r2, 0, (0..40u32).map(|m| ((m % 4) as usize, m)).collect());
    assert_eq!((one.sent, one.dropped), (all.sent, all.dropped));
    assert_eq!(r1.next_u64(), r2.next_u64());
    loop {
        match (s1.step(), s2.step()) {
            (Some(a), Some(b)) => {
                assert_eq!((a.tick, a.seq, a.payload.msg), (b.tick, b.seq, b.payload.msg));
            }
            (None, None) => return,
            _ => panic!("the two queues differ"),
        }
    }
}

#[test]
fn default_net_config_values() {
    let c = NetConfig::default();
    assert_eq!(c.drop_prob, prob(0.05));
    assert_eq!((c.min_delay, c.max_delay), (1, 20));
}

#[test]
fn faults_of_every_kind_are_drawn() {
    let mut rng = Rng::new(8);
    let mut seen = [false; 4];
    for _ in 0..200 {
        match draw_fault(&mut rng, 3) {
            Fault::Isolate(v) => {
                assert!(v < 3);
                seen[0] = true;
            }
            Fault::Heal => seen[1] = true,
            Fault::Crash(v) => {
                assert!(v < 3);
                seen[2] = true;
            }
            Fault::Restart(v) => {
                assert!(v < 3);
                seen[3] = true;
            }
            Fault::Nothing => panic!("there are nodes to pick from"),
        }
    }
    assert_eq!(seen, [true; 4]);
    for _ in 0..20 {
        assert!(matches!(draw_fault(&mut rng, 0), Fault::Heal | Fault::Nothing));
    }
}
