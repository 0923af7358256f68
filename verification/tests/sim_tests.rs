//! The generator and the scheduler.

use faultline::sim::{Event, Prob, Rng, Scheduler};

#[test]
fn same_seed_same_sequence() {
    let mut a = Rng::new(42);
    let mut b = Rng::new(42);
    for _ in 0..1000 {
        assert_eq!(a.next_u64(), b.next_u64());
    }
}

#[test]
fn different_seed_diverges() {
    let mut a = Rng::new(1);
    let mut b = Rng::new(2);
    assert_ne!(a.next_u64(), b.next_u64());
}

#[test]
fn splitmix_reference_values() {
    let mut r = Rng::new(0);
    assert_eq!(r.next_u64(), 0xE220_A839_7B1D_CDAF);
    assert_eq!(r.next_u64(), 0x6E78_9E6A_A1B9_65F4);
    assert_eq!(r.next_u64(), 0x06C4_5D18_8009_454F);
    let mut s = Rng::new(1234567);
    assert_eq!(s.next_u64(), 6457827717110365317);
    assert_eq!(s.next_u64(), 3203168211198807973);
}

#[test]
fn below_and_index_stay_in_range() {
    let mut a = Rng::new(9);
    let mut b = Rng::new(9);
    assert_eq!(a.below(0), 0);
    assert_eq!(a.index(0), None);
    for n in 1..200u64 {
        let d = b.next_u64();
        let x = a.below(n);
        assert!(x < n);
        assert_eq!(x, d % n);
    }
    for n in 1..200usize {
        let d = b.next_u64();
        assert_eq!(a.index(n), Some((d % n as u64) as usize));
    }
}

/// The fraction that the threshold stands for.
fn fraction(d: u64) -> f64 {
    (d >> 11) as f64 / (1u64 << 53) as f64
}

#[test]
fn chance_compares_the_top_bits_with_the_probability() {
    for p in [0.0f64, 0.02, 0.05, 0.1, 0.15, 0.3, 0.5, 0.999, 1.0] {
        let threshold = (p * (1u64 << 53) as f64).ceil() as u64;
        let mut a = Rng::new(77);
        let mut b = Rng::new(77);
        for _ in 0..2000 {
            let expected = fraction(b.next_u64()) < p;
            assert_eq!(a.chance(Prob { threshold }), expected);
        }
    }
}

#[test]
fn chance_ends_of_the_scale() {
    let mut r = Rng::new(3);
    for _ in 0..500 {
        assert!(!r.chance(Prob { threshold: 0 }));
        assert!(r.chance(Prob { threshold: 1 << 53 }));
    }
}

#[test]
fn fires_in_time_order() {
    let mut s: Scheduler<&str> = Scheduler::new();
    s.schedule(5, "late");
    s.schedule(1, "early");
    s.schedule(3, "mid");
    let order: Vec<_> = std::iter::from_fn(|| s.step().map(|e| e.payload)).collect();
    assert_eq!(order, vec!["early", "mid", "late"]);
}

#[test]
fn same_tick_breaks_by_insertion_order() {
    let mut s: Scheduler<u32> = Scheduler::new();
    s.schedule(2, 1);
    s.schedule(2, 2);
    s.schedule(2, 3);
    let order: Vec<_> = std::iter::from_fn(|| s.step().map(|e| e.payload)).collect();
    assert_eq!(order, vec![1, 2, 3], "ties must break deterministically by seq");
}

#[test]
fn now_advances_monotonically() {
    let mut s: Scheduler<()> = Scheduler::new();
    s.schedule(10, ());
    s.schedule(3, ());
    let a = s.step().unwrap().tick;
    let b = s.step().unwrap().tick;
    assert!(a <= b);
    assert_eq!(s.now(), 10);
}

#[test]
fn zero_delay_fires_after_what_is_pending_now() {
    let mut s: Scheduler<u32> = Scheduler::default();
    s.schedule(4, 0);
    s.schedule(4, 1);
    assert_eq!(s.step().unwrap().payload, 0);
    assert_eq!(s.schedule(0, 2), 2);
    let next = s.step().unwrap();
    assert_eq!((next.tick, next.seq, next.payload), (4, 1, 1));
    let last = s.step().unwrap();
    assert_eq!((last.tick, last.seq, last.payload), (4, 2, 2));
    assert!(s.step().is_none());
}

#[test]
fn many_events_come_out_sorted() {
    let mut rng = Rng::new(5);
    let mut s: Scheduler<u64> = Scheduler::new();
    let mut keys: Vec<(u64, u64)> = Vec::new();
    for _ in 0..1000 {
        let d = rng.below(50);
        let id = s.schedule(d, d);
        keys.push((d, id));
    }
    assert_eq!(s.pending(), 1000);
    assert!(!s.is_empty());
    keys.sort();
    let mut out: Vec<(u64, u64)> = Vec::new();
    while let Some(ev) = s.step() {
        assert_eq!(ev.tick, ev.payload);
        out.push((ev.tick, ev.seq));
    }
    assert_eq!(out, keys);
    assert!(s.is_empty());
    assert_eq!(s.pending(), 0);
}

#[test]
fn earlier_events_compare_greater() {
    let early = Event { tick: 1, seq: 5, payload: 'a' };
    let late = Event { tick: 2, seq: 0, payload: 'b' };
    let tie = Event { tick: 1, seq: 6, payload: 'a' };
    let same = Event { tick: 1, seq: 5, payload: 'z' };
    assert!(early > late);
    assert!(early > tie);
    assert!(early == same);
    assert!(early != late);
}
