//! The full linearizability checker.

use faultline::linearizability::{is_linearizable, HistoryOp};

fn w(value: u64, inv: u64, res: u64) -> HistoryOp {
    HistoryOp::Write { value, inv, res }
}

fn r(value: Option<u64>, inv: u64, res: u64) -> HistoryOp {
    HistoryOp::Read { value, inv, res }
}

#[test]
fn empty_history_is_linearizable() {
    assert!(is_linearizable(&[], None));
}

#[test]
fn simple_sequential_history_ok() {
    // W(1) then R->1 then W(2) then R->2, all non-overlapping.
    let h = vec![w(1, 0, 1), r(Some(1), 2, 3), w(2, 4, 5), r(Some(2), 6, 7)];
    assert!(is_linearizable(&h, None));
}

#[test]
fn read_of_stale_value_after_write_completes_is_not_linearizable() {
    // W(1) completes at t=1; then W(2) completes at t=3; then a read that
    // starts at t=4 (after both) returns 1. No valid order allows that.
    let h = vec![w(1, 0, 1), w(2, 2, 3), r(Some(1), 4, 5)];
    assert!(!is_linearizable(&h, None));
}

#[test]
fn concurrent_read_can_pick_either_order() {
    // W(1) and W(2) overlap; a read overlapping both returns 1. Linearizable
    // by ordering W(2) then W(1) then read... but then a later read of 2
    // would fail. Here just the single read of 1 during concurrency is fine.
    let h = vec![w(1, 0, 10), w(2, 0, 10), r(Some(1), 1, 9)];
    assert!(is_linearizable(&h, None));
}

#[test]
fn concurrent_writes_both_readable_in_some_order() {
    // Two concurrent writes, then two sequential reads returning 2 then...2.
    // Order W(1),W(2) makes both reads see 2. Linearizable.
    let h = vec![w(1, 0, 5), w(2, 0, 5), r(Some(2), 6, 7), r(Some(2), 8, 9)];
    assert!(is_linearizable(&h, None));
}

#[test]
fn impossible_read_pair_is_rejected() {
    // Sequential reads that go 2 then 1 with no write between, after W(1),W(2):
    // once 2 is observed, 1 can never be observed again. Not linearizable.
    let h = vec![w(1, 0, 1), w(2, 2, 3), r(Some(2), 4, 5), r(Some(1), 6, 7)];
    assert!(!is_linearizable(&h, None));
}

#[test]
fn primary_backup_stale_read_is_not_linearizable() {
    // The essence of the bug faultline finds: value 2 is written and observed,
    // then a stale backup serves 1 afterwards. As a concurrent register history
    // with these (non-overlapping) intervals, this is not linearizable.
    let h = vec![
        HistoryOp::Write { value: 1, inv: 0, res: 1 },
        HistoryOp::Write { value: 2, inv: 2, res: 3 },
        HistoryOp::Read { value: Some(2), inv: 4, res: 5 },
        HistoryOp::Read { value: Some(1), inv: 6, res: 7 }, // stale -> illegal
    ];
    assert!(!is_linearizable(&h, None), "stale backup read must be non-linearizable");
}

#[test]
fn correct_primary_reads_are_linearizable() {
    // The corrected design (always read latest) yields a monotonic history,
    // which the full checker confirms is linearizable.
    let h = vec![
        HistoryOp::Write { value: 1, inv: 0, res: 1 },
        HistoryOp::Read { value: Some(1), inv: 2, res: 3 },
        HistoryOp::Write { value: 2, inv: 4, res: 5 },
        HistoryOp::Read { value: Some(2), inv: 6, res: 7 },
        HistoryOp::Read { value: Some(2), inv: 8, res: 9 },
    ];
    assert!(is_linearizable(&h, None));
}

#[test]
fn initial_value_counts() {
    assert!(is_linearizable(&[r(Some(3), 0, 1)], Some(3)));
    assert!(!is_linearizable(&[r(Some(3), 0, 1)], None));
    assert!(is_linearizable(&[r(None, 0, 1)], None));
    assert!(!is_linearizable(&[r(None, 2, 3), w(1, 0, 1)], None));
}

#[test]
fn touching_intervals_may_be_reordered() {
    // A response at the very time of an invocation does not order the two.
    assert!(is_linearizable(&[w(1, 0, 5), r(None, 5, 6)], None));
    assert!(!is_linearizable(&[w(1, 0, 5), r(None, 6, 7)], None));
}

#[test]
fn an_operation_that_ends_before_it_starts_is_never_linearizable() {
    assert!(!is_linearizable(&[w(1, 5, 2)], None));
}

#[test]
fn long_histories_are_decided_exactly() {
    // 70 sequential writes, then two concurrent reads of which one sees the last
    // value; flags beyond the 64th operation matter.
    let mut h: Vec<HistoryOp> = (0..70u64).map(|i| w(i + 1, 4 * i, 4 * i + 1)).collect();
    h.push(r(Some(70), 400, 401));
    h.push(w(71, 500, 510));
    h.push(w(72, 500, 510));
    h.push(r(Some(71), 501, 509));
    h.push(r(Some(72), 520, 521));
    assert!(is_linearizable(&h, None));
    h.push(r(Some(71), 530, 531));
    assert!(!is_linearizable(&h, None));
}

#[test]
fn backtracking_tries_every_order() {
    // Ten overlapping writes; the reads afterwards pin the last one.
    let mut h: Vec<HistoryOp> = (0..10u64).map(|i| w(i, 0, 100)).collect();
    h.push(r(Some(0), 200, 201));
    assert!(is_linearizable(&h, None));
    h.push(r(Some(1), 300, 301));
    assert!(!is_linearizable(&h, None));
}
