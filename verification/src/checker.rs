//! The consistency checker -- decides whether a run exposed a bug.
//!
//! We record every client operation in a history and then check a consistency
//! property over it. Full linearizability checking is NP-hard in general, so we
//! check a strong, cheap-to-verify *necessary condition* that any linearizable
//! register must satisfy:
//!
//!   **Monotonic reads / no stale-back-in-time reads.** Values written to the
//!   primary carry strictly increasing versions (1, 2, 3, ...). Once any client
//!   has observed value `v`, no later read may return a value older than `v`.
//!   A linearizable store can never travel backwards in time like that.
//!
//! Primary-backup replication with local reads on backups *violates* this: under
//! a partition or reordering, a client can read a backup that is behind, seeing
//! an older value after a newer one was already visible elsewhere. When that
//! happens, the checker reports the exact operations involved -- and because the
//! run is deterministic, the seed reproduces it.

use crate::linearizability::{
    is_legal, linearizable, linearizes, nothing_done, register_after, HistoryOp,
};
use crate::net::NodeId;
use crate::sim::Tick;
use crate::text::{append_decimal, decimal};
use vstd::prelude::*;
use vstd::string::*;

verus! {

/// One recorded client operation. `seq` is a strictly-increasing operation
/// index giving a total, unambiguous order (two ops never share a `seq`, unlike
/// logical ticks which several ops can share). `tick` is kept for reporting.
#[derive(Debug, Clone, Copy)]
#[allow(inconsistent_fields)]
pub enum Op {
    Write { value: u64, seq: u64, tick: Tick },
    Read { value: Option<u64>, node: NodeId, seq: u64, tick: Tick },
}

impl Op {
    /// The value that this operation makes visible.
    pub open spec fn shows(self) -> Option<u64> {
        match self {
            Op::Write { value, .. } => Some(value),
            Op::Read { value, .. } => value,
        }
    }

    /// The operation on one line.
    pub open spec fn text(self) -> Seq<char> {
        match self {
            Op::Write { value, seq, .. } => {
                "#"@ + decimal(seq as nat) + " WRITE "@ + decimal(value as nat)
            },
            Op::Read { value: Some(v), node, seq, .. } => {
                "#"@ + decimal(seq as nat) + " READ="@ + decimal(v as nat) + " (node "@ + decimal(
                    node as nat,
                ) + ")"@
            },
            Op::Read { value: None, node, seq, .. } => {
                "#"@ + decimal(seq as nat) + " READ=none (node "@ + decimal(node as nat) + ")"@
            },
        }
    }

    /// The operation on one line, for reports.
    pub fn describe(&self) -> (s: String)
        ensures
            s@ == self.text(),
    {
        let mut s = String::new();
        s.append("#");
        match self {
            Op::Write { value, seq, .. } => {
                append_decimal(&mut s, *seq);
                s.append(" WRITE ");
                append_decimal(&mut s, *value);
            },
            Op::Read { value, node, seq, .. } => {
                append_decimal(&mut s, *seq);
                match value {
                    Some(v) => {
                        s.append(" READ=");
                        append_decimal(&mut s, *v);
                        s.append(" (node ");
                    },
                    None => {
                        s.append(" READ=none (node ");
                    },
                }
                append_decimal(&mut s, *node as u64);
                s.append(")");
            },
        }
        assert(s@ =~= self.text());
        s
    }
}

/// The read `b` cannot come after `a`: it returned an older value than `a` showed,
/// or nothing although `a` showed a value.
pub open spec fn contradicts(a: Op, b: Op) -> bool {
    match (a.shows(), b) {
        (Some(seen), Op::Read { value: Some(v), .. }) => seen > v,
        (Some(seen), Op::Read { value: None, .. }) => seen > 0,
        _ => false,
    }
}

/// Operation `j` contradicts an earlier one.
pub open spec fn goes_backwards(history: Seq<Op>, j: int) -> bool {
    exists|i: int| 0 <= i < j && #[trigger] contradicts(history[i], history[j])
}

/// No operation contradicts an earlier one.
pub open spec fn consistent(history: Seq<Op>) -> bool {
    forall|j: int| 0 <= j < history.len() ==> !#[trigger] goes_backwards(history, j)
}

/// `j` is the first operation that contradicts an earlier one.
pub open spec fn is_first_bad(history: Seq<Op>, j: int) -> bool {
    &&& 0 <= j < history.len()
    &&& goes_backwards(history, j)
    &&& forall|k: int| 0 <= k < j ==> !#[trigger] goes_backwards(history, k)
}

/// The greatest value shown by the first `n` operations; 0 if none was.
pub open spec fn greatest_shown(history: Seq<Op>, n: int) -> u64
    decreases n,
{
    if n <= 0 {
        0
    } else {
        let rest = greatest_shown(history, n - 1);
        match history[n - 1].shows() {
            Some(v) => if v > rest {
                v
            } else {
                rest
            },
            None => rest,
        }
    }
}

/// The `seq` of the operation that showed the greatest value among the first `n`:
/// the write that first made it visible, or the last read that returned it since;
/// 0 if no value above 0 was written and none was read.
pub open spec fn greatest_shown_by(history: Seq<Op>, n: int) -> u64
    decreases n,
{
    if n <= 0 {
        0
    } else {
        let greatest = greatest_shown(history, n - 1);
        match history[n - 1] {
            Op::Write { value, seq, .. } if value > greatest => seq,
            Op::Read { value: Some(v), seq, .. } if v >= greatest => seq,
            _ => greatest_shown_by(history, n - 1),
        }
    }
}

/// A detected consistency violation, with enough detail to explain it.
#[derive(Debug, Clone)]
pub struct Violation {
    pub kind: String,
    pub detail: String,
    pub at_tick: Tick,
}

/// The model of a violation.
#[verifier::ext_equal]
pub struct Finding {
    pub kind: Seq<char>,
    pub detail: Seq<char>,
    pub at_tick: Tick,
}

impl View for Violation {
    type V = Finding;

    open spec fn view(&self) -> Finding {
        Finding { kind: self.kind@, detail: self.detail@, at_tick: self.at_tick }
    }
}

/// The model of an optional violation.
pub open spec fn finding_of(v: Option<Violation>) -> Option<Finding> {
    match v {
        Some(v) => Some(v@),
        None => None,
    }
}

/// The report on a read that returned an older value.
pub open spec fn stale_read(
    seq: u64,
    node: NodeId,
    v: u64,
    tick: Tick,
    max_observed: u64,
    observed_seq: u64,
) -> Finding {
    Finding {
        kind: "stale_read"@,
        detail: "op #"@ + decimal(seq as nat) + ": node "@ + decimal(node as nat)
            + " read value "@ + decimal(v as nat) + " (tick "@ + decimal(tick as nat)
            + "), but value "@ + decimal(max_observed as nat) + " was already observed by op #"@
            + decimal(observed_seq as nat) + " (read went backwards in time)"@,
        at_tick: tick,
    }
}

/// The report on a read that returned nothing.
pub open spec fn lost_value(
    seq: u64,
    node: NodeId,
    tick: Tick,
    max_observed: u64,
    observed_seq: u64,
) -> Finding {
    Finding {
        kind: "lost_value"@,
        detail: "op #"@ + decimal(seq as nat) + ": node "@ + decimal(node as nat)
            + " read empty (tick "@ + decimal(tick as nat) + "), but value "@ + decimal(
            max_observed as nat,
        ) + " was already observed by op #"@ + decimal(observed_seq as nat)
            + " (committed value disappeared)"@,
        at_tick: tick,
    }
}

/// The report on operation `j`, which contradicts an earlier one.
pub open spec fn report(history: Seq<Op>, j: int) -> Finding {
    match history[j] {
        Op::Read { value: Some(v), node, seq, tick } => stale_read(
            seq,
            node,
            v,
            tick,
            greatest_shown(history, j),
            greatest_shown_by(history, j),
        ),
        Op::Read { value: None, node, seq, tick } => lost_value(
            seq,
            node,
            tick,
            greatest_shown(history, j),
            greatest_shown_by(history, j),
        ),
        Op::Write { tick, .. } => Finding { kind: ""@, detail: ""@, at_tick: tick },
    }
}

/// The verdict on a history: the report on the first operation that contradicts
/// an earlier one.
pub open spec fn verdict(history: Seq<Op>) -> Option<Finding> {
    if consistent(history) {
        None
    } else {
        Some(report(history, choose|j: int| is_first_bad(history, j)))
    }
}

/// `greatest_shown` is an upper bound that is reached, or 0.
proof fn greatest_shown_is_greatest(history: Seq<Op>, n: int)
    requires
        0 <= n <= history.len(),
    ensures
        forall|i: int|
            0 <= i < n ==> ((#[trigger] history[i]).shows() matches Some(v) ==> v
                <= greatest_shown(history, n)),
        greatest_shown(history, n) > 0 ==> exists|i: int|
            0 <= i < n && (#[trigger] history[i]).shows() == Some(greatest_shown(history, n)),
    decreases n,
{
    if n > 0 {
        greatest_shown_is_greatest(history, n - 1);
        if greatest_shown(history, n) == greatest_shown(history, n - 1) {
            if greatest_shown(history, n) > 0 {
                let i = choose|i: int|
                    0 <= i < n - 1 && (#[trigger] history[i]).shows() == Some(
                        greatest_shown(history, n - 1),
                    );
                assert(history[i].shows() == Some(greatest_shown(history, n)));
            }
        } else {
            assert(history[n - 1].shows() == Some(greatest_shown(history, n)));
        }
    }
}

/// Going backwards is a matter of the greatest value shown so far.
pub proof fn goes_backwards_by_greatest(history: Seq<Op>, j: int)
    requires
        0 <= j < history.len(),
    ensures
        goes_backwards(history, j) <==> match history[j] {
            Op::Read { value: Some(v), .. } => greatest_shown(history, j) > v,
            Op::Read { value: None, .. } => greatest_shown(history, j) > 0,
            Op::Write { .. } => false,
        },
{
    greatest_shown_is_greatest(history, j);
    if goes_backwards(history, j) {
        let i = choose|i: int| 0 <= i < j && #[trigger] contradicts(history[i], history[j]);
        assert(history[i].shows() is Some);
    }
    if greatest_shown(history, j) > 0 {
        let i = choose|i: int|
            0 <= i < j && (#[trigger] history[i]).shows() == Some(greatest_shown(history, j));
        if history[j] is Read {
            assert(match history[j] {
                Op::Read { value: Some(v), .. } => greatest_shown(history, j) > v,
                _ => true,
            } ==> contradicts(history[i], history[j]));
        }
    }
}

/// One more operation leaves what came before as it was.
pub proof fn greatest_shown_of_push(history: Seq<Op>, op: Op, n: int)
    requires
        0 <= n <= history.len(),
    ensures
        greatest_shown(history.push(op), n) == greatest_shown(history, n),
    decreases n,
{
    if n > 0 {
        greatest_shown_of_push(history, op, n - 1);
    }
}

/// A consistent history stays so with one more operation that does not go
/// backwards.
pub proof fn consistent_push(history: Seq<Op>, op: Op)
    requires
        consistent(history),
        match op {
            Op::Read { value: Some(v), .. } => greatest_shown(history, history.len() as int) <= v,
            Op::Read { value: None, .. } => greatest_shown(history, history.len() as int) == 0,
            Op::Write { .. } => true,
        },
    ensures
        consistent(history.push(op)),
{
    let longer = history.push(op);
    assert forall|j: int| 0 <= j < longer.len() implies !#[trigger] goes_backwards(longer, j) by {
        if j < history.len() {
            if goes_backwards(longer, j) {
                let i = choose|i: int| 0 <= i < j && #[trigger] contradicts(longer[i], longer[j]);
                assert(contradicts(history[i], history[j]));
                assert(goes_backwards(history, j));
            }
        } else {
            greatest_shown_of_push(history, op, j);
            goes_backwards_by_greatest(longer, j);
        }
    }
}

/// The first bad operation decides the verdict.
proof fn verdict_at(history: Seq<Op>, j: int)
    requires
        is_first_bad(history, j),
    ensures
        verdict(history) == Some(report(history, j)),
{
    let k = choose|k: int| is_first_bad(history, k);
    assert(is_first_bad(history, k));
    if k < j {
        assert(!goes_backwards(history, k));
    } else if j < k {
        assert(!goes_backwards(history, j));
    }
    assert(!consistent(history));
}

fn stale_read_violation(
    seq: u64,
    node: NodeId,
    v: u64,
    tick: Tick,
    max_observed: u64,
    observed_seq: u64,
) -> (r: Violation)
    ensures
        r@ == stale_read(seq, node, v, tick, max_observed, observed_seq),
{
    let mut detail = String::new();
    detail.append("op #");
    append_decimal(&mut detail, seq);
    detail.append(": node ");
    append_decimal(&mut detail, node as u64);
    detail.append(" read value ");
    append_decimal(&mut detail, v);
    detail.append(" (tick ");
    append_decimal(&mut detail, tick);
    detail.append("), but value ");
    append_decimal(&mut detail, max_observed);
    detail.append(" was already observed by op #");
    append_decimal(&mut detail, observed_seq);
    detail.append(" (read went backwards in time)");
    let r = Violation { kind: String::from_str("stale_read"), detail, at_tick: tick };
    assert(r@ =~= stale_read(seq, node, v, tick, max_observed, observed_seq));
    r
}

fn lost_value_violation(
    seq: u64,
    node: NodeId,
    tick: Tick,
    max_observed: u64,
    observed_seq: u64,
) -> (r: Violation)
    ensures
        r@ == lost_value(seq, node, tick, max_observed, observed_seq),
{
    let mut detail = String::new();
    detail.append("op #");
    append_decimal(&mut detail, seq);
    detail.append(": node ");
    append_decimal(&mut detail, node as u64);
    detail.append(" read empty (tick ");
    append_decimal(&mut detail, tick);
    detail.append("), but value ");
    append_decimal(&mut detail, max_observed);
    detail.append(" was already observed by op #");
    append_decimal(&mut detail, observed_seq);
    detail.append(" (committed value disappeared)");
    let r = Violation { kind: String::from_str("lost_value"), detail, at_tick: tick };
    assert(r@ =~= lost_value(seq, node, tick, max_observed, observed_seq));
    r
}

/// Check the monotonic-read property over the operation history. Returns the
/// first violation found, or `None` if the run stayed consistent.
pub fn check_linearizability(history: &[Op]) -> (r: Option<Violation>)
    ensures
        finding_of(r) == verdict(history@),
        r is None <==> consistent(history@),
{
    // The greatest value any client has observed so far, and the op `seq` at
    // which it was observed. Ordering is by position (a total order), so a
    // flagged read genuinely happened *after* the observation -- not merely at
    // the same logical tick.
    let mut max_observed: u64 = 0;
    let mut observed_seq: u64 = 0;
    let mut i: usize = 0;
    while i < history.len()
        invariant
            i <= history@.len(),
            max_observed == greatest_shown(history@, i as int),
            observed_seq == greatest_shown_by(history@, i as int),
            forall|j: int| 0 <= j < i ==> !#[trigger] goes_backwards(history@, j),
        decreases history@.len() - i,
    {
        proof {
            goes_backwards_by_greatest(history@, i as int);
            if goes_backwards(history@, i as int) {
                verdict_at(history@, i as int);
            }
        }
        match &history[i] {
            Op::Write { value, seq, .. } => {
                if *value > max_observed {
                    max_observed = *value;
                    observed_seq = *seq;
                }
            },
            Op::Read { value, node, seq, tick } => {
                if let Some(v) = value {
                    if *v >= max_observed {
                        max_observed = *v;
                        observed_seq = *seq;
                    } else {
                        // A later op returned an older value: a real
                        // backwards-in-time read.
                        return Some(
                            stale_read_violation(
                                *seq,
                                *node,
                                *v,
                                *tick,
                                max_observed,
                                observed_seq,
                            ),
                        );
                    }
                } else if max_observed > 0 {
                    return Some(
                        lost_value_violation(*seq, *node, *tick, max_observed, observed_seq),
                    );
                }
            },
        }
        i = i + 1;
    }
    assert(consistent(history@));
    None
}

/// The same operation, with a time span.
pub open spec fn same_op(op: Op, timed: HistoryOp) -> bool {
    match (op, timed) {
        (Op::Write { value: a, .. }, HistoryOp::Write { value: b, .. }) => a == b,
        (Op::Read { value: a, .. }, HistoryOp::Read { value: b, .. }) => a == b,
        _ => false,
    }
}

/// The same operations, with time spans.
pub open spec fn same_ops(history: Seq<Op>, timed: Seq<HistoryOp>) -> bool {
    &&& timed.len() == history.len()
    &&& forall|i: int| 0 <= i < history.len() ==> #[trigger] same_op(history[i], timed[i])
}

/// Each operation completes before the next one is invoked.
pub open spec fn sequential(timed: Seq<HistoryOp>) -> bool {
    forall|i: int, j: int|
        0 <= i < j < timed.len() ==> (#[trigger] timed[i]).spec_res()
            < (#[trigger] timed[j]).spec_inv()
}

/// The operation writes `v`.
pub open spec fn writes(op: Op, v: u64) -> bool {
    op matches Op::Write { value, .. } && value == v
}

/// Each write carries a greater value than the writes before it.
pub open spec fn writes_increase(history: Seq<Op>) -> bool {
    forall|i: int, j: int, a: u64, b: u64|
        0 <= i < j < history.len() && #[trigger] writes(history[i], a) && #[trigger] writes(
            history[j],
            b,
        ) ==> a < b
}

/// A strictly increasing list of all numbers below `n` is the list of them in
/// order.
proof fn increasing_order_is_identity(order: Seq<int>, n: int, k: int)
    requires
        0 <= k < order.len(),
        n >= 0,
        forall|p: int| 0 <= p < order.len() ==> 0 <= #[trigger] order[p] < n,
        forall|p: int, q: int|
            0 <= p < q < order.len() ==> #[trigger] order[p] < #[trigger] order[q],
        forall|i: int| 0 <= i < n ==> #[trigger] order.contains(i),
    ensures
        order[k] == k,
    decreases k,
{
    if k > 0 {
        increasing_order_is_identity(order, n, k - 1);
        assert(order[k - 1] < order[k]);
    }
    assert(order.contains(k)) by {
        assert(k <= order[k]);
        assert(0 <= k < n);
    }
    let p = choose|p: int| 0 <= p < order.len() && order[p] == k;
    if p > k {
        assert(order[k] < order[p]);
    } else if p < k {
        increasing_order_is_identity(order, n, p);
    }
}

/// In a sequential history whose writes increase, the register holds the
/// greatest value shown so far.
proof fn register_holds_greatest(history: Seq<Op>, timed: Seq<HistoryOp>, order: Seq<int>, n: int)
    requires
        same_ops(history, timed),
        writes_increase(history),
        0 <= n <= history.len(),
        order.len() == history.len(),
        forall|k: int| 0 <= k < order.len() ==> #[trigger] order[k] == k,
        is_legal(timed, order, None),
    ensures
        register_after(timed, order, None, n) matches Some(v) ==> v == greatest_shown(history, n)
            && exists|i: int| 0 <= i < n && #[trigger] writes(history[i], v),
        register_after(timed, order, None, n) is None ==> greatest_shown(history, n) == 0,
    decreases n,
{
    if n > 0 {
        register_holds_greatest(history, timed, order, n - 1);
        assert(order[n - 1] == n - 1);
        let before = register_after(timed, order, None, n - 1);
        assert(timed[order[n - 1]].fits(before));
        assert(same_op(history[n - 1], timed[n - 1]));
        match history[n - 1] {
            Op::Write { value, .. } => {
                assert(writes(history[n - 1], value));
                if let Some(v) = before {
                    let i = choose|i: int| 0 <= i < n - 1 && #[trigger] writes(history[i], v);
                    assert(v < value);
                }
            },
            Op::Read { value, .. } => {
                if let Some(v) = before {
                    let i = choose|i: int| 0 <= i < n - 1 && #[trigger] writes(history[i], v);
                    assert(writes(history[i], v));
                }
            },
        }
    }
}

/// One after the other leaves no choice: a linearization lists the operations in their
/// order.
proof fn sequential_order_is_identity(timed: Seq<HistoryOp>) -> (order: Seq<int>)
    requires
        sequential(timed),
        linearizable(timed, None),
    ensures
        linearizes(timed, nothing_done(timed.len()), None, order),
        order.len() == timed.len(),
        forall|k: int| 0 <= k < order.len() ==> #[trigger] order[k] == k,
{
    let n = timed.len() as int;
    let order = choose|order: Seq<int>| linearizes(timed, nothing_done(timed.len()), None, order);
    assert forall|p: int, q: int| 0 <= p < q < order.len() implies #[trigger] order[p]
        < #[trigger] order[q] by {
        if order[q] < order[p] {
            assert(timed[order[q]].spec_res() < timed[order[p]].spec_inv());
        }
    }
    assert forall|i: int| 0 <= i < n implies #[trigger] order.contains(i) by {
        assert(!nothing_done(timed.len())[i]);
    }
    assert forall|k: int| 0 <= k < order.len() implies #[trigger] order[k] == k by {
        increasing_order_is_identity(order, n, k);
    }
    assert(order.len() == n) by {
        if order.len() < n {
            let m = order.len() as int;
            assert(order.contains(m));
        }
        if order.len() > n {
            assert(order[n] == n);
        }
    }
    order
}

/// The monotonic-read check is a necessary condition for linearizability: if the
/// operations of a history, carried out one after the other by a client whose
/// writes carry increasing values, can be linearized as a register that starts
/// out empty, then the check passes.
pub proof fn linearizable_histories_pass(history: Seq<Op>, timed: Seq<HistoryOp>)
    requires
        same_ops(history, timed),
        sequential(timed),
        writes_increase(history),
        linearizable(timed, None),
    ensures
        consistent(history),
        verdict(history) is None,
{
    let n = history.len() as int;
    let order = sequential_order_is_identity(timed);
    assert forall|j: int| 0 <= j < n implies !#[trigger] goes_backwards(history, j) by {
        goes_backwards_by_greatest(history, j);
        register_holds_greatest(history, timed, order, j);
        assert(order[j] == j);
        assert(timed[order[j]].fits(register_after(timed, order, None, j)));
        assert(same_op(history[j], timed[j]));
    }
}

/// The value of the last write among the first `n` operations.
pub open spec fn last_written(history: Seq<Op>, n: int) -> Option<u64>
    decreases n,
{
    if n <= 0 {
        None
    } else {
        match history[n - 1] {
            Op::Write { value, .. } => Some(value),
            Op::Read { .. } => last_written(history, n - 1),
        }
    }
}

/// The read returned what was written last before it.
pub open spec fn reads_latest_at(history: Seq<Op>, j: int) -> bool {
    match history[j] {
        Op::Read { value, .. } => value == last_written(history, j),
        Op::Write { .. } => true,
    }
}

/// Every read returned what was written last before it.
pub open spec fn reads_latest(history: Seq<Op>) -> bool {
    forall|j: int| 0 <= j < history.len() ==> #[trigger] reads_latest_at(history, j)
}

/// No operation completes before it is invoked.
pub open spec fn spans_are_proper(timed: Seq<HistoryOp>) -> bool {
    forall|i: int|
        0 <= i < timed.len() ==> (#[trigger] timed[i]).spec_inv() <= timed[i].spec_res()
}

/// Carried out in their order, the operations leave what was written last.
proof fn register_holds_last_written(
    history: Seq<Op>,
    timed: Seq<HistoryOp>,
    order: Seq<int>,
    n: int,
)
    requires
        same_ops(history, timed),
        0 <= n <= history.len(),
        order.len() == history.len(),
        forall|k: int| 0 <= k < order.len() ==> #[trigger] order[k] == k,
    ensures
        register_after(timed, order, None, n) == last_written(history, n),
    decreases n,
{
    if n > 0 {
        register_holds_last_written(history, timed, order, n - 1);
        assert(order[n - 1] == n - 1);
        assert(same_op(history[n - 1], timed[n - 1]));
    }
}

/// A history in which every read returned what was written last, carried out one
/// operation after the other, is linearizable.
pub proof fn latest_reads_linearize(history: Seq<Op>, timed: Seq<HistoryOp>)
    requires
        same_ops(history, timed),
        sequential(timed),
        spans_are_proper(timed),
        reads_latest(history),
    ensures
        linearizable(timed, None),
{
    let n = history.len();
    let order = Seq::new(n, |i: int| i);
    assert forall|i: int| 0 <= i < n implies #[trigger] order.contains(i) by {
        assert(order[i] == i);
    }
    assert forall|p: int, q: int|
        #![trigger order[p], order[q]]
        0 <= p <= q < order.len() implies timed[order[p]].spec_inv()
        <= timed[order[q]].spec_res() by {
        assert(timed[p].spec_inv() <= timed[p].spec_res());
        assert(timed[q].spec_inv() <= timed[q].spec_res());
    }
    assert forall|k: int| 0 <= k < order.len() implies (#[trigger] timed[order[k]]).fits(
        register_after(timed, order, None, k),
    ) by {
        register_holds_last_written(history, timed, order, k);
        assert(reads_latest_at(history, k));
        assert(same_op(history[k], timed[k]));
    }
    assert(linearizes(timed, nothing_done(timed.len()), None, order));
}

/// An operation `b` may come after `a`: a read returns a value at least as great as the
/// one that `a` wrote or returned, and returns nothing only if that was nothing or 0.
pub open spec fn may_follow(a: Op, b: Op) -> bool {
    match (a, b) {
        (_, Op::Write { .. }) => true,
        (Op::Write { value: u, .. }, Op::Read { value: Some(v), .. }) => u <= v,
        (Op::Write { value: u, .. }, Op::Read { value: None, .. }) => u == 0,
        (Op::Read { value: Some(u), .. }, Op::Read { value: Some(v), .. }) => u <= v,
        (Op::Read { value: Some(u), .. }, Op::Read { value: None, .. }) => u == 0,
        (Op::Read { value: None, .. }, Op::Read { .. }) => true,
    }
}

/// The check passes exactly if every operation may follow every one before it: once a
/// value was seen, no later read returns an older one or nothing.
pub proof fn reads_never_go_back(history: Seq<Op>)
    ensures
        verdict(history) is None <==> forall|i: int, j: int|
            0 <= i < j < history.len() ==> #[trigger] may_follow(history[i], history[j]),
{
    if verdict(history) is None {
        assert forall|i: int, j: int| 0 <= i < j < history.len() implies #[trigger] may_follow(
            history[i],
            history[j],
        ) by {
            assert(!goes_backwards(history, j));
            assert(!contradicts(history[i], history[j]));
        }
    } else {
        let j = choose|j: int| 0 <= j < history.len() && #[trigger] goes_backwards(history, j);
        let i = choose|i: int| 0 <= i < j && #[trigger] contradicts(history[i], history[j]);
        assert(!may_follow(history[i], history[j]));
    }
}

/// Of the operations before `n` that showed the greatest value above 0, the one that is
/// named is the last read that returned it, or the write that first showed it if no read
/// has returned it since.
proof fn greatest_is_shown_by(history: Seq<Op>, n: int) -> (i: int)
    requires
        0 <= n <= history.len(),
        greatest_shown(history, n) > 0,
    ensures
        0 <= i < n,
        history[i].shows() == Some(greatest_shown(history, n)),
        greatest_shown_by(history, n) == match history[i] {
            Op::Write { seq, .. } => seq,
            Op::Read { seq, .. } => seq,
        },
        forall|k: int|
            i < k < n ==> ((#[trigger] history[k]) matches Op::Read { value: Some(v), .. } ==> v
                < greatest_shown(history, n)),
        history[i] is Write ==> forall|k: int|
            0 <= k < i ==> ((#[trigger] history[k]).shows() matches Some(v) ==> v < greatest_shown(
                history,
                n,
            )),
    decreases n,
{
    greatest_shown_is_greatest(history, n - 1);
    match history[n - 1] {
        Op::Write { value, .. } if value > greatest_shown(history, n - 1) => n - 1,
        Op::Read { value: Some(v), .. } if v >= greatest_shown(history, n - 1) => n - 1,
        _ => greatest_is_shown_by(history, n - 1),
    }
}

/// What a report says. It is about the first operation `j` that may not follow all those
/// before it, a read, and is dated by it. It names that read, and the operation `i`
/// before it that had shown the greatest value: the last read that returned it, or the
/// write that first showed it if no read has returned it since.
pub proof fn reports_name_both_operations(history: Seq<Op>, j: int) -> (i: int)
    requires
        0 <= j < history.len(),
        forall|a: int, b: int|
            0 <= a < b < j ==> #[trigger] may_follow(history[a], history[b]),
        exists|a: int| 0 <= a < j && !#[trigger] may_follow(history[a], history[j]),
    ensures
        0 <= i < j,
        history[j] is Read,
        ({
            let f = verdict(history)->0;
            let read = history[j];
            let (u, u_seq) = match history[i] {
                Op::Write { value, seq, .. } => (value, seq),
                Op::Read { value, seq, .. } => (value->0, seq),
            };
            &&& verdict(history) is Some
            &&& history[i] matches Op::Read { value, .. } ==> value is Some
            &&& u > 0
            &&& f.at_tick == read->Read_tick
            &&& read->Read_value matches Some(v) ==> {
                &&& f.kind == "stale_read"@
                &&& f.detail == "op #"@ + decimal(read->Read_seq as nat) + ": node "@ + decimal(
                    read->Read_node as nat,
                ) + " read value "@ + decimal(v as nat) + " (tick "@ + decimal(
                    read->Read_tick as nat,
                ) + "), but value "@ + decimal(u as nat) + " was already observed by op #"@
                    + decimal(u_seq as nat) + " (read went backwards in time)"@
            }
            &&& read->Read_value is None ==> {
                &&& f.kind == "lost_value"@
                &&& f.detail == "op #"@ + decimal(read->Read_seq as nat) + ": node "@ + decimal(
                    read->Read_node as nat,
                ) + " read empty (tick "@ + decimal(read->Read_tick as nat) + "), but value "@
                    + decimal(u as nat) + " was already observed by op #"@ + decimal(u_seq as nat)
                    + " (committed value disappeared)"@
            }
            &&& forall|k: int|
                0 <= k < j ==> match #[trigger] history[k] {
                    Op::Write { value, .. } => value <= u,
                    Op::Read { value: Some(v), .. } => v <= u && (i < k ==> v < u),
                    Op::Read { value: None, .. } => true,
                }
            &&& history[i] is Write ==> forall|k: int|
                0 <= k < i ==> match #[trigger] history[k] {
                    Op::Write { value, .. } => value < u,
                    Op::Read { value: Some(v), .. } => v < u,
                    Op::Read { value: None, .. } => true,
                }
        }),
{
    let a = choose|a: int| 0 <= a < j && !#[trigger] may_follow(history[a], history[j]);
    assert(contradicts(history[a], history[j]));
    assert forall|k: int| 0 <= k < j implies !#[trigger] goes_backwards(history, k) by {
        if goes_backwards(history, k) {
            let b = choose|b: int| 0 <= b < k && #[trigger] contradicts(history[b], history[k]);
            assert(may_follow(history[b], history[k]));
        }
    }
    assert(is_first_bad(history, j));
    verdict_at(history, j);
    goes_backwards_by_greatest(history, j);
    greatest_shown_is_greatest(history, j);
    let i = greatest_is_shown_by(history, j);
    assert forall|k: int| 0 <= k < j implies match #[trigger] history[k] {
        Op::Write { value, .. } => value <= greatest_shown(history, j),
        Op::Read { value: Some(v), .. } => v <= greatest_shown(history, j) && (i < k ==> v
            < greatest_shown(history, j)),
        Op::Read { value: None, .. } => true,
    } by {
        assert(history[k].shows() matches Some(v) ==> v <= greatest_shown(history, j));
    }
    i
}

/// Carried out one after the other, the operations of a history are linearizable
/// exactly if every read returned what was written last before it.
pub proof fn sequential_histories_linearize_iff_reads_are_latest(
    history: Seq<Op>,
    timed: Seq<HistoryOp>,
)
    requires
        same_ops(history, timed),
        sequential(timed),
        spans_are_proper(timed),
    ensures
        linearizable(timed, None) <==> reads_latest(history),
{
    if reads_latest(history) {
        latest_reads_linearize(history, timed);
    }
    if linearizable(timed, None) {
        let order = sequential_order_is_identity(timed);
        assert forall|j: int| 0 <= j < history.len() implies #[trigger] reads_latest_at(
            history,
            j,
        ) by {
            register_holds_last_written(history, timed, order, j);
            assert(order[j] == j);
            assert(timed[order[j]].fits(register_after(timed, order, None, j)));
            assert(same_op(history[j], timed[j]));
        }
    }
}

/// The last write among the first `n` operations is operation `i`.
pub open spec fn is_last_write(history: Seq<Op>, n: int, i: int) -> bool {
    &&& 0 <= i < n
    &&& history[i] is Write
    &&& forall|k: int| i < k < n ==> (#[trigger] history[k]) is Read
}

/// What was written last is the value of the last write, and nothing if there is none.
pub proof fn last_written_is_the_last_write(history: Seq<Op>, n: int, i: int)
    requires
        0 <= n <= history.len(),
    ensures
        (forall|k: int| 0 <= k < n ==> (#[trigger] history[k]) is Read) ==> last_written(
            history,
            n,
        ) is None,
        is_last_write(history, n, i) ==> last_written(history, n) == Some(
            history[i]->Write_value,
        ),
    decreases n,
{
    if n > 0 {
        last_written_is_the_last_write(history, n - 1, i);
    }
}

/// What a description says: the number of the operation, whether it is a write or a
/// read, the value, and for a read the node that served it.
pub proof fn descriptions_tell_all(value: u64, node: NodeId, seq: u64, tick: Tick)
    ensures
        ({
            let number = "#"@ + decimal(seq as nat);
            let by = " (node "@ + decimal(node as nat) + ")"@;
            let write = Op::Write { value, seq, tick };
            let read = Op::Read { value: Some(value), node, seq, tick };
            &&& write.text() == number + " WRITE "@ + decimal(value as nat)
            &&& read.text() =~= number + " READ="@ + decimal(value as nat) + by
        }),
{
}

} // verus!
