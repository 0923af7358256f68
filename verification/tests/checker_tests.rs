//! The monotonic-read checker and the shrinker.

use faultline::checker::{check_linearizability, Op};
use faultline::shrink::shrink;

fn w(value: u64, seq: u64) -> Op {
    Op::Write { value, seq, tick: seq }
}

fn r(value: Option<u64>, seq: u64) -> Op {
    Op::Read { value, node: 1, seq, tick: seq }
}

#[test]
fn consistent_history_passes() {
    let h = vec![
        Op::Write { value: 1, seq: 0, tick: 1 },
        Op::Read { value: Some(1), node: 1, seq: 1, tick: 2 },
        Op::Write { value: 2, seq: 2, tick: 3 },
        Op::Read { value: Some(2), node: 0, seq: 3, tick: 4 },
    ];
    assert!(check_linearizability(&h).is_none());
}

#[test]
fn stale_read_is_caught() {
    let h = vec![
        Op::Write { value: 1, seq: 0, tick: 1 },
        Op::Write { value: 2, seq: 1, tick: 2 },
        Op::Read { value: Some(2), node: 0, seq: 2, tick: 3 }, // sees 2
        Op::Read { value: Some(1), node: 2, seq: 3, tick: 4 }, // back to 1 -- BUG
    ];
    let v = check_linearizability(&h).expect("should catch the stale read");
    assert_eq!(v.kind, "stale_read");
    assert_eq!(v.at_tick, 4);
}

#[test]
fn lost_value_is_caught() {
    let h = vec![
        Op::Write { value: 5, seq: 0, tick: 1 },
        Op::Read { value: Some(5), node: 1, seq: 1, tick: 2 },
        Op::Read { value: None, node: 2, seq: 2, tick: 3 }, // value vanished -- BUG
    ];
    let v = check_linearizability(&h).expect("should catch the lost value");
    assert_eq!(v.kind, "lost_value");
}

#[test]
fn reads_before_any_write_are_fine() {
    let h = vec![
        Op::Read { value: None, node: 1, seq: 0, tick: 1 },
        Op::Write { value: 1, seq: 1, tick: 2 },
        Op::Read { value: Some(1), node: 0, seq: 2, tick: 3 },
    ];
    assert!(check_linearizability(&h).is_none());
}

#[test]
fn stale_read_report_text() {
    let h = vec![
        Op::Write { value: 4, seq: 3, tick: 10 },
        Op::Write { value: 5, seq: 5, tick: 12 },
        Op::Read { value: Some(5), node: 0, seq: 6, tick: 13 },
        Op::Read { value: Some(4), node: 2, seq: 8, tick: 120 },
    ];
    let v = check_linearizability(&h).unwrap();
    assert_eq!(
        v.detail,
        "op #8: node 2 read value 4 (tick 120), but value 5 was already observed by op #6 \
         (read went backwards in time)"
    );
}

#[test]
fn lost_value_report_text() {
    let h = vec![w(7, 0), r(None, 10)];
    let v = check_linearizability(&h).unwrap();
    assert_eq!(
        v.detail,
        "op #10: node 1 read empty (tick 10), but value 7 was already observed by op #0 \
         (committed value disappeared)"
    );
    assert_eq!(v.at_tick, 10);
}

#[test]
fn the_write_that_showed_the_value_is_named() {
    let h = vec![
        Op::Write { value: 3, seq: 7, tick: 7 },
        Op::Read { value: Some(2), node: 1, seq: 20, tick: 20 },
    ];
    assert_eq!(
        check_linearizability(&h).unwrap().detail,
        "op #20: node 1 read value 2 (tick 20), but value 3 was already observed by op #7 \
         (read went backwards in time)"
    );
    // A smaller write in between shows nothing greater, and a read of an older
    // value is where the report ends.
    let h = vec![w(3, 1), r(Some(3), 2), w(5, 4), w(4, 6), r(None, 9)];
    assert_eq!(
        check_linearizability(&h).unwrap().detail,
        "op #9: node 1 read empty (tick 9), but value 5 was already observed by op #4 \
         (committed value disappeared)"
    );
}

#[test]
fn first_violation_is_reported() {
    let h = vec![w(3, 0), r(Some(2), 1), r(Some(1), 2), r(None, 3)];
    let v = check_linearizability(&h).unwrap();
    assert_eq!((v.kind.as_str(), v.at_tick), ("stale_read", 1));
}

#[test]
fn value_zero_is_not_lost() {
    assert!(check_linearizability(&[w(0, 0), r(None, 1)]).is_none());
    assert!(check_linearizability(&[]).is_none());
}

#[test]
fn operations_describe_themselves() {
    assert_eq!(Op::Write { value: 288, seq: 404, tick: 1 }.describe(), "#404 WRITE 288");
    assert_eq!(r(Some(286), 406).describe(), "#406 READ=286 (node 1)");
    assert_eq!(r(None, 0).describe(), "#0 READ=none (node 1)");
    let top = Op::Write { value: u64::MAX, seq: 10, tick: 0 };
    assert_eq!(top.describe(), "#10 WRITE 18446744073709551615");
}

#[test]
fn shrinks_to_minimal_stale_read() {
    // A long history with lots of consistent noise around one stale read.
    let mut h = vec![w(1, 0), r(Some(1), 1), w(2, 2), w(3, 3), r(Some(3), 4)];
    // ... more consistent ops ...
    for s in 5..30 {
        h.push(r(Some(3), s));
    }
    // The bug: a read goes back to 2 after 3 was observed.
    h.push(r(Some(2), 30));
    // ... trailing noise ...
    for s in 31..40 {
        h.push(r(Some(3), s));
    }

    let (min, v) = shrink(&h);
    assert!(v.is_some(), "shrunk history must still violate");
    // The minimal case needs only: something establishing 3 was observed,
    // then the read of 2. That's far smaller than the history.
    assert!(min.len() < h.len(), "shrinking should reduce the history");
    assert!(min.len() <= 4, "minimal stale-read case is tiny, got {}", min.len());
}

#[test]
fn consistent_history_is_unchanged() {
    let h = vec![w(1, 0), r(Some(1), 1), w(2, 2), r(Some(2), 3)];
    let (out, v) = shrink(&h);
    assert!(v.is_none());
    assert_eq!(out.len(), h.len(), "a passing history is returned unchanged");
}

#[test]
fn shrinking_keeps_the_last_pair() {
    let h = vec![
        w(5, 0),
        r(Some(4), 1),
        w(9, 2),
        r(Some(9), 3),
        r(Some(6), 4),
        r(Some(7), 5),
        w(10, 6),
    ];
    let (min, v) = shrink(&h);
    let text: Vec<String> = min.iter().map(|op| op.describe()).collect();
    assert_eq!(text, vec!["#3 READ=9 (node 1)", "#5 READ=7 (node 1)"]);
    assert_eq!(v.unwrap().kind, "stale_read");
    for k in 0..min.len() {
        let mut smaller = min.clone();
        smaller.remove(k);
        assert!(check_linearizability(&smaller).is_none());
    }
    let (again, _) = shrink(&min);
    assert_eq!(again.len(), 2);
}

#[test]
fn shrinking_twice_changes_nothing() {
    let h = vec![w(1, 0), w(4, 1), r(Some(3), 2), r(Some(2), 3), r(Some(4), 4)];
    let (once, v) = shrink(&h);
    let (twice, u) = shrink(&once);
    assert_eq!(once.len(), 2);
    let text = |ops: &[Op]| ops.iter().map(|op| op.describe()).collect::<Vec<_>>();
    assert_eq!(text(&once), text(&twice));
    assert_eq!(v.unwrap().detail, u.unwrap().detail);
}
