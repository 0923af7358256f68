//! A real linearizability checker (Wing & Gong, 1993), the algorithm Jepsen's
//! Knossos and Elle descend from.
//!
//! The monotonic-read check in `checker` is a cheap *necessary* condition: it
//! catches reads that go backwards, but it can't decide full linearizability for
//! arbitrary concurrent histories. This module does the real thing for a
//! read/write register: given operations with concurrency (each has an
//! invocation time and a response time, so operations can overlap), it decides
//! whether there exists a total order that (a) respects real-time precedence -
//! if op A completed before op B started, A comes first - and (b) is a legal
//! register history (every read returns the most recently written value).
//!
//! Algorithm (Wing-Gong depth-first search with the standard memoization):
//!   - Consider the set of currently-*minimal* operations: those whose
//!     invocation is not preceded by an un-linearized operation's response.
//!   - Try to linearize each minimal op next: apply it to the model; if it's a
//!     read, it must match the model's current value.
//!   - Recurse on the remaining ops. If a branch dead-ends, backtrack (undo the
//!     op) and try the next candidate.
//!   - Memoize visited (remaining-set, model-value) states to prune the search,
//!     which is what makes it tractable in practice despite the worst-case
//!     exponential blowup.
//!
//! For a single register the "model" is just the current value, so state is
//! cheap and the search is fast for the history sizes a per-run check produces.

use crate::counting::{tally, tally_bounds, tally_of_none, tally_of_set};
use std::collections::HashMap;
use vstd::prelude::*;

verus! {

broadcast use vstd::std_specs::hash::group_hash_axioms;

/// One operation in a concurrent history over a single register.
/// `inv` = invocation time (logical), `res` = response time. `inv < res`.
#[derive(Debug, Clone, Copy)]
#[allow(inconsistent_fields)]
pub enum HistoryOp {
    Write { value: u64, inv: u64, res: u64 },
    /// A read that returned `value` (None = key absent / read of "nothing").
    Read { value: Option<u64>, inv: u64, res: u64 },
}

impl HistoryOp {
    pub open spec fn spec_inv(self) -> u64 {
        match self {
            HistoryOp::Write { inv, .. } => inv,
            HistoryOp::Read { inv, .. } => inv,
        }
    }

    pub open spec fn spec_res(self) -> u64 {
        match self {
            HistoryOp::Write { res, .. } => res,
            HistoryOp::Read { res, .. } => res,
        }
    }

    /// The register after this operation.
    pub open spec fn leaves(self, value: Option<u64>) -> Option<u64> {
        match self {
            HistoryOp::Write { value: v, .. } => Some(v),
            HistoryOp::Read { .. } => value,
        }
    }

    /// Whether this operation can happen while the register holds `value`: a read
    /// must have returned it.
    pub open spec fn fits(self, value: Option<u64>) -> bool {
        match self {
            HistoryOp::Write { .. } => true,
            HistoryOp::Read { value: v, .. } => v == value,
        }
    }

    fn inv(&self) -> (t: u64)
        ensures
            t == self.spec_inv(),
    {
        match self {
            HistoryOp::Write { inv, .. } => *inv,
            HistoryOp::Read { inv, .. } => *inv,
        }
    }

    fn res(&self) -> (t: u64)
        ensures
            t == self.spec_res(),
    {
        match self {
            HistoryOp::Write { res, .. } => *res,
            HistoryOp::Read { res, .. } => *res,
        }
    }
}

/// `order` lists exactly the operations that are not done, each once.
pub open spec fn lists_the_rest(history: Seq<HistoryOp>, done: Seq<bool>, order: Seq<int>) -> bool {
    &&& order.no_duplicates()
    &&& forall|k: int|
        0 <= k < order.len() ==> 0 <= #[trigger] order[k] < history.len() && !done[order[k]]
    &&& forall|i: int| 0 <= i < history.len() && !#[trigger] done[i] ==> order.contains(i)
}

/// No operation comes after one that was invoked only once it had completed.
pub open spec fn respects_time(history: Seq<HistoryOp>, order: Seq<int>) -> bool {
    forall|p: int, q: int|
        #![trigger order[p], order[q]]
        0 <= p <= q < order.len() ==> history[order[p]].spec_inv() <= history[order[q]].spec_res()
}

/// What the register holds after the first `k` operations of `order`.
pub open spec fn register_after(
    history: Seq<HistoryOp>,
    order: Seq<int>,
    initial: Option<u64>,
    k: int,
) -> Option<u64>
    decreases k,
{
    if k <= 0 {
        initial
    } else {
        history[order[k - 1]].leaves(register_after(history, order, initial, k - 1))
    }
}

/// Every read returns the most recently written value.
pub open spec fn is_legal(history: Seq<HistoryOp>, order: Seq<int>, initial: Option<u64>) -> bool {
    forall|k: int|
        0 <= k < order.len() ==> (#[trigger] history[order[k]]).fits(
            register_after(history, order, initial, k),
        )
}

/// `order` linearizes the operations that are not done, from a register that
/// holds `value`.
pub open spec fn linearizes(
    history: Seq<HistoryOp>,
    done: Seq<bool>,
    value: Option<u64>,
    order: Seq<int>,
) -> bool {
    &&& lists_the_rest(history, done, order)
    &&& respects_time(history, order)
    &&& is_legal(history, order, value)
}

/// The operations that are not done can be linearized from a register that holds
/// `value`.
#[verifier::opaque]
spec fn completable(history: Seq<HistoryOp>, done: Seq<bool>, value: Option<u64>) -> bool {
    exists|order: Seq<int>| #[trigger] linearizes(history, done, value, order)
}

/// Nothing is done.
pub open spec fn nothing_done(n: nat) -> Seq<bool> {
    Seq::new(n, |i: int| false)
}

/// Some total order of all operations respects real-time precedence and is a
/// legal history of a register that starts out holding `initial`.
pub open spec fn linearizable(history: Seq<HistoryOp>, initial: Option<u64>) -> bool {
    exists|order: Seq<int>| #[trigger]
        linearizes(history, nothing_done(history.len()), initial, order)
}

/// Nothing that is not done completed before operation `i` was invoked.
spec fn is_minimal(history: Seq<HistoryOp>, done: Seq<bool>, i: int) -> bool {
    forall|j: int|
        0 <= j < history.len() && !#[trigger] done[j] ==> history[i].spec_inv()
            <= history[j].spec_res()
}

/// `t` is the earliest response time among the operations that are not done.
spec fn is_earliest_response(history: Seq<HistoryOp>, done: Seq<bool>, t: u64) -> bool {
    &&& forall|j: int|
        0 <= j < history.len() && !#[trigger] done[j] ==> t <= history[j].spec_res()
    &&& exists|j: int|
        0 <= j < history.len() && !#[trigger] done[j] && t == history[j].spec_res()
}

/// Being minimal is a matter of the earliest response alone.
proof fn minimal_by_earliest_response(
    history: Seq<HistoryOp>,
    done: Seq<bool>,
    t: u64,
    i: int,
)
    requires
        is_earliest_response(history, done, t),
    ensures
        is_minimal(history, done, i) <==> history[i].spec_inv() <= t,
{
    let j = choose|j: int|
        0 <= j < history.len() && !#[trigger] done[j] && t == history[j].spec_res();
    assert(!done[j]);
}

/// Operation `i` can come next, and the rest can follow it.
#[verifier::opaque]
spec fn next_works(
    history: Seq<HistoryOp>,
    done: Seq<bool>,
    value: Option<u64>,
    i: int,
) -> bool {
    &&& 0 <= i < history.len()
    &&& !done[i]
    &&& is_minimal(history, done, i)
    &&& history[i].fits(value)
    &&& completable(history, done.update(i, true), history[i].leaves(value))
}

/// The register after the first operation and `k` more.
proof fn register_after_cons(
    history: Seq<HistoryOp>,
    order: Seq<int>,
    initial: Option<u64>,
    k: int,
)
    requires
        order.len() > 0,
        0 <= k < order.len(),
    ensures
        register_after(history, order, initial, k + 1) == register_after(
            history,
            order.skip(1),
            history[order[0]].leaves(initial),
            k,
        ),
    decreases k,
{
    if k > 0 {
        register_after_cons(history, order, initial, k - 1);
        assert(order.skip(1)[k - 1] == order[k]);
    } else {
        assert(register_after(history, order, initial, 0) == initial);
    }
}

/// A linearization gives a first operation that works.
proof fn linearization_has_a_first(
    history: Seq<HistoryOp>,
    done: Seq<bool>,
    value: Option<u64>,
    order: Seq<int>,
)
    requires
        done.len() == history.len(),
        linearizes(history, done, value, order),
        order.len() > 0,
    ensures
        next_works(history, done, value, order[0]),
{
    reveal(next_works);
    reveal(completable);
    let i = order[0];
    let rest = order.skip(1);
    let done2 = done.update(i, true);
    let value2 = history[i].leaves(value);
    assert forall|j: int| 0 <= j < history.len() && !#[trigger] done[j] implies history[i].spec_inv()
        <= history[j].spec_res() by {
        let q = choose|q: int| 0 <= q < order.len() && order[q] == j;
        assert(order[0] == i && order[q] == j);
    }
    assert(lists_the_rest(history, done2, rest)) by {
        assert forall|k: int| 0 <= k < rest.len() implies 0 <= #[trigger] rest[k] < history.len()
            && !done2[rest[k]] by {
            assert(rest[k] == order[k + 1]);
            assert(order[k + 1] != order[0]);
        }
        assert forall|j: int| 0 <= j < history.len() && !#[trigger] done2[j] implies rest.contains(
            j,
        ) by {
            assert(!done[j]);
            let q = choose|q: int| 0 <= q < order.len() && order[q] == j;
            assert(rest[q - 1] == j);
        }
        assert forall|a: int, b: int|
            0 <= a < rest.len() && 0 <= b < rest.len() && a != b implies rest[a] != rest[b] by {
            assert(rest[a] == order[a + 1] && rest[b] == order[b + 1]);
        }
    }
    assert(respects_time(history, rest)) by {
        assert forall|p: int, q: int|
            #![trigger rest[p], rest[q]]
            0 <= p <= q < rest.len() implies history[rest[p]].spec_inv()
            <= history[rest[q]].spec_res() by {
            assert(rest[p] == order[p + 1] && rest[q] == order[q + 1]);
        }
    }
    assert(is_legal(history, rest, value2)) by {
        assert forall|k: int| 0 <= k < rest.len() implies (#[trigger] history[rest[k]]).fits(
            register_after(history, rest, value2, k),
        ) by {
            register_after_cons(history, order, value, k);
            assert(rest[k] == order[k + 1]);
            assert(history[order[k + 1]].fits(register_after(history, order, value, k + 1)));
        }
    }
    assert(linearizes(history, done2, value2, rest));
    assert(history[order[0]].fits(register_after(history, order, value, 0)));
}

/// A first operation that works can be put in front of a linearization of the
/// rest.
proof fn first_extends_linearization(
    history: Seq<HistoryOp>,
    done: Seq<bool>,
    value: Option<u64>,
    i: int,
)
    requires
        done.len() == history.len(),
        next_works(history, done, value, i),
    ensures
        completable(history, done, value),
{
    reveal(next_works);
    reveal(completable);
    let done2 = done.update(i, true);
    let value2 = history[i].leaves(value);
    let rest = choose|order: Seq<int>| linearizes(history, done2, value2, order);
    let order = seq![i] + rest;
    assert(order.skip(1) =~= rest);
    assert forall|k: int| 0 <= k < rest.len() implies #[trigger] order[k + 1] == rest[k] by {}
    assert(lists_the_rest(history, done, order)) by {
        assert forall|k: int| 0 <= k < order.len() implies 0 <= #[trigger] order[k] < history.len()
            && !done[order[k]] by {
            if k > 0 {
                assert(order[k] == rest[k - 1]);
                assert(!done2[rest[k - 1]]);
            }
        }
        assert forall|j: int| 0 <= j < history.len() && !#[trigger] done[j] implies order.contains(
            j,
        ) by {
            if j == i {
                assert(order[0] == j);
            } else {
                assert(!done2[j]);
                let q = choose|q: int| 0 <= q < rest.len() && rest[q] == j;
                assert(order[q + 1] == j);
            }
        }
        assert forall|a: int, b: int|
            0 <= a < order.len() && 0 <= b < order.len() && a != b implies order[a]
            != order[b] by {
            if a > 0 {
                assert(order[a] == rest[a - 1]);
                assert(!done2[rest[a - 1]]);
            }
            if b > 0 {
                assert(order[b] == rest[b - 1]);
                assert(!done2[rest[b - 1]]);
            }
        }
    }
    assert(respects_time(history, order)) by {
        assert forall|p: int, q: int|
            #![trigger order[p], order[q]]
            0 <= p <= q < order.len() implies history[order[p]].spec_inv()
            <= history[order[q]].spec_res() by {
            if p > 0 {
                assert(order[p] == rest[p - 1] && order[q] == rest[q - 1]);
            } else {
                assert(!done[order[q]]);
            }
        }
    }
    assert(is_legal(history, order, value)) by {
        assert forall|k: int| 0 <= k < order.len() implies (#[trigger] history[order[k]]).fits(
            register_after(history, order, value, k),
        ) by {
            if k > 0 {
                register_after_cons(history, order, value, k - 1);
                assert(history[rest[k - 1]].fits(register_after(history, rest, value2, k - 1)));
            }
        }
    }
    assert(linearizes(history, done, value, order));
}

proof fn next_works_unfolds(
    history: Seq<HistoryOp>,
    done: Seq<bool>,
    value: Option<u64>,
    i: int,
)
    requires
        0 <= i < history.len(),
    ensures
        next_works(history, done, value, i) <==> !done[i] && is_minimal(history, done, i)
            && history[i].fits(value) && completable(
            history,
            done.update(i, true),
            history[i].leaves(value),
        ),
{
    reveal(next_works);
}

proof fn next_works_in_range(
    history: Seq<HistoryOp>,
    done: Seq<bool>,
    value: Option<u64>,
)
    ensures
        forall|i: int|
            #[trigger] next_works(history, done, value, i) ==> 0 <= i < history.len(),
{
    reveal(next_works);
}

/// What is left can be linearized exactly if nothing is left, or some operation
/// can come next.
proof fn completable_unfolds(history: Seq<HistoryOp>, done: Seq<bool>, value: Option<u64>)
    requires
        done.len() == history.len(),
    ensures
        tally(done) == history.len() ==> completable(history, done, value),
        tally(done) < history.len() ==> (completable(history, done, value) <==> exists|i: int|
            next_works(history, done, value, i)),
{
    reveal(completable);
    tally_bounds(done);
    if tally(done) == history.len() {
        assert(linearizes(history, done, value, Seq::empty()));
    } else {
        if completable(history, done, value) {
            let order = choose|order: Seq<int>| linearizes(history, done, value, order);
            let open = choose|i: int| 0 <= i < done.len() && !#[trigger] done[i];
            assert(order.contains(open));
            linearization_has_a_first(history, done, value, order);
        }
        if exists|i: int| next_works(history, done, value, i) {
            let i = choose|i: int| next_works(history, done, value, i);
            first_extends_linearization(history, done, value, i);
        }
    }
}

/// The states that the search has found to be dead ends, in buckets by the
/// bitmask of the first 64 flags.
type Memo = HashMap<u64, Vec<(Vec<bool>, Option<u64>)>>;

/// The model of a bucket: each state as its flags and the value of the register.
spec fn bucket_view(bucket: Seq<(Vec<bool>, Option<u64>)>) -> Seq<(Seq<bool>, Option<u64>)> {
    bucket.map_values(|e: (Vec<bool>, Option<u64>)| (e.0@, e.1))
}

/// The states in the bucket for `key`, in the order in which they were found.
spec fn dead_ends(memo: Map<u64, Vec<(Vec<bool>, Option<u64>)>>, key: u64) -> Seq<
    (Seq<bool>, Option<u64>),
> {
    if memo.contains_key(key) {
        bucket_view(memo[key]@)
    } else {
        Seq::empty()
    }
}

/// Every state in the memo is a dead end.
spec fn memo_ok(memo: Map<u64, Vec<(Vec<bool>, Option<u64>)>>, history: Seq<HistoryOp>) -> bool {
    forall|key: u64, k: int|
        0 <= k < dead_ends(memo, key).len() ==> !completable(
            history,
            (#[trigger] dead_ends(memo, key)[k]).0,
            dead_ends(memo, key)[k].1,
        )
}

/// Nothing that was known to be a dead end is forgotten.
spec fn memo_grows(
    before: Map<u64, Vec<(Vec<bool>, Option<u64>)>>,
    after: Map<u64, Vec<(Vec<bool>, Option<u64>)>>,
) -> bool {
    forall|key: u64| dead_ends(before, key).is_prefix_of(#[trigger] dead_ends(after, key))
}

/// `m` holds the flags of the first 64 operations.
pub open spec fn is_mask(m: u64, done: Seq<bool>) -> bool {
    forall|i: u64| i < 64 ==> (#[trigger] bit(m, i) <==> i < done.len() && done[i as int])
}

/// Bit `i` of `m`.
pub open spec fn bit(m: u64, i: u64) -> bool {
    (m >> i) & 1 == 1
}

/// Decide whether `history` is linearizable as a single read/write register.
/// The register starts holding `initial` (None = empty). Returns true iff some
/// valid linearization exists.
pub fn is_linearizable(history: &[HistoryOp], initial: Option<u64>) -> (r: bool)
    ensures
        r == linearizable(history@, initial),
{
    let n = history.len();
    let mut done: Vec<bool> = vec![false; n];
    let mut memo: Memo = HashMap::new();
    proof {
        assert(done@ =~= nothing_done(n as nat));
        tally_of_none(done@);
        reveal(completable);
    }
    search(history, &mut done, initial, 0, &mut memo)
}

/// The flags of the first 64 operations as a bitmask.
fn mask(done: &Vec<bool>) -> (m: u64)
    ensures
        is_mask(m, done@),
{
    let mut m: u64 = 0;
    let n = if done.len() < 64 {
        done.len() as u64
    } else {
        64
    };
    let mut i: u64 = 0;
    assert forall|j: u64| j < 64 implies !#[trigger] bit(m, j) by {
        assert((0u64 >> j) & 1 == 0) by (bit_vector);
    }
    while i < n
        invariant
            i <= n <= 64,
            n <= done@.len(),
            n < 64 ==> n == done@.len(),
            forall|j: u64| j < 64 ==> (#[trigger] bit(m, j) <==> j < i && done@[j as int]),
        decreases n - i,
    {
        if done[i as usize] {
            let ghost before = m;
            m = m | (1u64 << i);
            assert forall|j: u64| j < 64 implies (#[trigger] bit(m, j) <==> j < i + 1
                && done@[j as int]) by {
                assert(bit(before, j) <==> j < i && done@[j as int]);
                assert(i < 64 && j < 64 ==> (((before | (1u64 << i)) >> j) & 1 == 1 <==> (before
                    >> j) & 1 == 1 || i == j)) by (bit_vector);
            }
        }
        i = i + 1;
    }
    m
}

fn same_flags(a: &Vec<bool>, b: &Vec<bool>) -> (r: bool)
    ensures
        r == (a@ == b@),
{
    if a.len() != b.len() {
        return false;
    }
    let mut i: usize = 0;
    while i < a.len()
        invariant
            i <= a@.len(),
            a@.len() == b@.len(),
            forall|j: int| 0 <= j < i ==> a@[j] == b@[j],
        decreases a@.len() - i,
    {
        if a[i] != b[i] {
            assert(a@[i as int] != b@[i as int]);
            return false;
        }
        i = i + 1;
    }
    assert(a@ =~= b@);
    true
}

/// Whether a state is known to be a dead end.
fn is_dead_end(memo: &Memo, key: u64, done: &Vec<bool>, value: Option<u64>) -> (r: bool)
    ensures
        r == dead_ends(memo@, key).contains((done@, value)),
{
    match memo.get(&key) {
        None => false,
        Some(bucket) => {
            let ghost known = dead_ends(memo@, key);
            let mut k: usize = 0;
            while k < bucket.len()
                invariant
                    k <= bucket@.len(),
                    known == bucket_view(bucket@),
                    known == dead_ends(memo@, key),
                    forall|j: int| 0 <= j < k ==> #[trigger] known[j] != (done@, value),
                decreases bucket@.len() - k,
            {
                let entry = &bucket[k];
                assert(known[k as int] == (entry.0@, entry.1));
                if entry.1 == value && same_flags(&entry.0, done) {
                    return true;
                }
                k = k + 1;
            }
            false
        },
    }
}

/// Remember a dead end: it joins the others in the bucket for `key`.
fn remember(memo: &mut Memo, key: u64, done: &Vec<bool>, value: Option<u64>)
    ensures
        dead_ends(final(memo)@, key) == dead_ends(old(memo)@, key).push((done@, value)),
        forall|other: u64|
            other != key ==> #[trigger] dead_ends(final(memo)@, other) == dead_ends(
                old(memo)@,
                other,
            ),
{
    let mut bucket = match memo.remove(&key) {
        None => Vec::new(),
        Some(b) => b,
    };
    let ghost before = bucket@;
    assert(bucket_view(before) =~= dead_ends(old(memo)@, key));
    let copy = done.clone();
    assert(copy@ =~= done@);
    bucket.push((copy, value));
    assert(bucket_view(bucket@) =~= bucket_view(before).push((done@, value)));
    memo.insert(key, bucket);
}

/// The earliest response time among not-yet-linearized ops.
fn earliest_response(history: &[HistoryOp], done: &Vec<bool>) -> (t: u64)
    requires
        done@.len() == history@.len(),
        tally(done@) < history@.len(),
    ensures
        is_earliest_response(history@, done@, t),
{
    let mut best: Option<u64> = None;
    let mut i: usize = 0;
    while i < history.len()
        invariant
            i <= history@.len(),
            done@.len() == history@.len(),
            best is None ==> forall|j: int| 0 <= j < i ==> #[trigger] done@[j],
            best matches Some(t) ==> {
                &&& forall|j: int| 0 <= j < i && !#[trigger] done@[j] ==> t <= history@[j].spec_res()
                &&& exists|j: int| 0 <= j < i && !#[trigger] done@[j] && t == history@[j].spec_res()
            },
        decreases history@.len() - i,
    {
        if !done[i] {
            let r = history[i].res();
            best = match best {
                Some(t) => if t <= r {
                    Some(t)
                } else {
                    Some(r)
                },
                None => Some(r),
            };
            assert(!done@[i as int]);
        }
        i = i + 1;
    }
    proof {
        tally_bounds(done@);
    }
    match best {
        Some(t) => t,
        None => 0,
    }
}

/// Whether what is left can be linearized from a register that holds `value`.
fn search(
    history: &[HistoryOp],
    done: &mut Vec<bool>,
    value: Option<u64>,
    completed: usize,
    memo: &mut Memo,
) -> (r: bool)
    requires
        old(done)@.len() == history@.len(),
        completed == tally(old(done)@),
        memo_ok(old(memo)@, history@),
    ensures
        r == completable(history@, old(done)@, value),
        final(done)@ == old(done)@,
        memo_ok(final(memo)@, history@),
        memo_grows(old(memo)@, final(memo)@),
        !r ==> exists|key: u64|
            is_mask(key, old(done)@) && #[trigger] dead_ends(final(memo)@, key).contains(
                (old(done)@, value),
            ),
    decreases history@.len() - completed,
{
    let ghost done0 = done@;
    proof {
        completable_unfolds(history@, done0, value);
        tally_bounds(done0);
    }
    if completed == history.len() {
        return true;  // linearized everything
    }
    let key = mask(done);
    if is_dead_end(memo, key, done, value) {
        proof {
            let known = dead_ends(memo@, key);
            let k = choose|k: int| 0 <= k < known.len() && known[k] == (done@, value);
            assert(!completable(history@, known[k].0, known[k].1));
        }
        return false;  // already explored this (remaining-set, value) - dead end
    }
    // Any op whose invocation is <= the earliest pending response is "minimal"
    // (nothing forces it to come later), so it's a legal next candidate. This
    // enforces real-time precedence: an op that finished before another started
    // must be linearized first.

    let min_res = earliest_response(history, done);
    let mut i: usize = 0;
    while i < history.len()
        invariant
            i <= history@.len(),
            done@ == done0,
            done0 == old(done)@,
            done0.len() == history@.len(),
            completed == tally(done0),
            completed < history@.len(),
            memo_ok(memo@, history@),
            memo_grows(old(memo)@, memo@),
            completable(history@, done0, value) <==> exists|j: int|
                next_works(history@, done0, value, j),
            is_earliest_response(history@, done0, min_res),
            forall|j: int| 0 <= j < i ==> !next_works(history@, done0, value, j),
        decreases history@.len() - i,
    {
        proof {
            minimal_by_earliest_response(history@, done0, min_res, i as int);
            next_works_unfolds(history@, done0, value, i as int);
        }
        // Candidate must be pending and minimal.
        if !done[i] && history[i].inv() <= min_res {
            // Apply op i to the model.
            let next_value = match &history[i] {
                HistoryOp::Write { value: v, .. } => Some(Some(*v)),
                HistoryOp::Read { value: v, .. } => if *v == value {
                    Some(value)
                } else {
                    None  // read doesn't match current model value -> illegal here
                },
            };
            if let Some(next) = next_value {
                proof {
                    tally_of_set(done0, i as int);
                }
                done[i] = true;
                if search(history, done, next, completed + 1, memo) {
                    done[i] = false;
                    assert(done@ =~= done0);
                    assert(next_works(history@, done0, value, i as int));
                    return true;
                }
                done[i] = false;  // backtrack
                assert(done@ =~= done0);
            }
        }
        i = i + 1;
    }
    proof {
        next_works_in_range(history@, done0, value);
    }
    assert(!completable(history@, done0, value));
    let ghost before = memo@;
    remember(memo, key, done, value);
    proof {
        let known = dead_ends(memo@, key);
        assert(known.last() == (done0, value));
        assert(known.contains((done0, value)));
        assert forall|other: u64, k: int|
            0 <= k < dead_ends(memo@, other).len() implies !completable(
            history@,
            (#[trigger] dead_ends(memo@, other)[k]).0,
            dead_ends(memo@, other)[k].1,
        ) by {
            if other != key || k < known.len() - 1 {
                assert(dead_ends(memo@, other)[k] == dead_ends(before, other)[k]);
            }
        }
    }
    false
}

// ---- What linearizability means ----

/// The write at position `p` of `order` is the last one before position `k`.
pub open spec fn is_last_write_before(
    history: Seq<HistoryOp>,
    order: Seq<int>,
    k: int,
    p: int,
) -> bool {
    &&& 0 <= p < k
    &&& history[order[p]] is Write
    &&& forall|q: int| p < q < k ==> history[#[trigger] order[q]] is Read
}

/// If the operation at position `k` of `order` is a read, it returned the value of the
/// last write before it, or what the register held at first if there is none.
pub open spec fn is_explained(
    history: Seq<HistoryOp>,
    order: Seq<int>,
    initial: Option<u64>,
    k: int,
) -> bool {
    history[order[k]] matches HistoryOp::Read { value, .. } ==> {
        ||| value == initial && forall|q: int|
            0 <= q < k ==> history[#[trigger] order[q]] is Read
        ||| exists|p: int| #[trigger]
            is_last_write_before(history, order, k, p) && value == Some(
                history[order[p]]->Write_value,
            )
    }
}

/// `order` explains the history: it lists every operation once, no operation in it
/// completed before one that comes earlier began, and every read is explained.
pub open spec fn explains(history: Seq<HistoryOp>, order: Seq<int>, initial: Option<u64>) -> bool {
    &&& forall|k: int| 0 <= k < order.len() ==> 0 <= #[trigger] order[k] < history.len()
    &&& forall|i: int| 0 <= i < history.len() ==> #[trigger] order.contains(i)
    &&& forall|p: int, q: int|
        0 <= p < q < order.len() ==> #[trigger] order[p] != #[trigger] order[q]
    &&& forall|p: int, q: int|
        #![trigger order[p], order[q]]
        0 <= p < q < order.len() ==> !(history[order[q]].spec_res() < history[order[p]].spec_inv())
    &&& forall|k: int| 0 <= k < order.len() ==> #[trigger] is_explained(history, order, initial, k)
}

/// An operation spans the time from its invocation to its response.
pub proof fn operations_span_their_times(value: u64, read: Option<u64>, inv: u64, res: u64)
    ensures
        ({
            let w = HistoryOp::Write { value, inv, res };
            let r = HistoryOp::Read { value: read, inv, res };
            &&& w.spec_inv() == inv && w.spec_res() == res
            &&& r.spec_inv() == inv && r.spec_res() == res
        }),
{
}

/// The register holds the value of the last write, or what it held at first.
proof fn register_holds_the_last_write(
    history: Seq<HistoryOp>,
    order: Seq<int>,
    initial: Option<u64>,
    k: int,
    p: int,
)
    requires
        0 <= k,
    ensures
        is_last_write_before(history, order, k, p) ==> register_after(history, order, initial, k)
            == Some(history[order[p]]->Write_value),
        (forall|q: int| 0 <= q < k ==> history[#[trigger] order[q]] is Read) ==> register_after(
            history,
            order,
            initial,
            k,
        ) == initial,
    decreases k,
{
    if k > 0 {
        register_holds_the_last_write(history, order, initial, k - 1, p);
        if is_last_write_before(history, order, k, p) && p < k - 1 {
            assert(history[order[k - 1]] is Read);
        }
        if forall|q: int| 0 <= q < k ==> history[#[trigger] order[q]] is Read {
            assert(history[order[k - 1]] is Read);
        }
    }
}

/// Before any position there is a last write, or no write at all.
proof fn some_write_is_last(history: Seq<HistoryOp>, order: Seq<int>, k: int)
    requires
        0 <= k,
    ensures
        (forall|q: int| 0 <= q < k ==> history[#[trigger] order[q]] is Read) || exists|p: int|
            is_last_write_before(history, order, k, p),
    decreases k,
{
    if k > 0 {
        let j = k - 1;
        some_write_is_last(history, order, j);
        if history[order[j]] is Write {
            assert(is_last_write_before(history, order, k, j));
        } else if exists|p: int| is_last_write_before(history, order, j, p) {
            let p = choose|p: int| is_last_write_before(history, order, j, p);
            assert(is_last_write_before(history, order, k, p));
        }
    }
}

/// A read fits what the register holds exactly if it is explained.
proof fn fitting_is_being_explained(
    history: Seq<HistoryOp>,
    order: Seq<int>,
    initial: Option<u64>,
    k: int,
)
    requires
        0 <= k,
    ensures
        history[order[k]].fits(register_after(history, order, initial, k)) <==> is_explained(
            history,
            order,
            initial,
            k,
        ),
{
    some_write_is_last(history, order, k);
    if forall|q: int| 0 <= q < k ==> history[#[trigger] order[q]] is Read {
        register_holds_the_last_write(history, order, initial, k, 0);
        assert forall|p: int| !is_last_write_before(history, order, k, p) by {
            if 0 <= p < k {
                assert(history[order[p]] is Read);
            }
        }
    } else {
        let p = choose|p: int| is_last_write_before(history, order, k, p);
        register_holds_the_last_write(history, order, initial, k, p);
        assert forall|o: int| is_last_write_before(history, order, k, o) implies o == p by {
            if o < p {
                assert(history[order[p]] is Read);
            } else if p < o {
                assert(history[order[o]] is Read);
            }
        }
        assert(exists|q: int| 0 <= q < k && !(history[#[trigger] order[q]] is Read));
    }
}

/// A history is linearizable exactly if no operation completes before it is invoked and
/// some order explains it.
pub proof fn linearizable_means_some_order_explains(history: Seq<HistoryOp>, initial: Option<u64>)
    ensures
        linearizable(history, initial) <==> {
            &&& forall|i: int|
                0 <= i < history.len() ==> (#[trigger] history[i]).spec_inv()
                    <= history[i].spec_res()
            &&& exists|order: Seq<int>| explains(history, order, initial)
        },
{
    let none = nothing_done(history.len());
    if linearizable(history, initial) {
        let order = choose|order: Seq<int>| #[trigger] linearizes(history, none, initial, order);
        assert forall|i: int| 0 <= i < history.len() implies #[trigger] order.contains(i) by {
            assert(!none[i]);
        }
        assert forall|i: int| 0 <= i < history.len() implies (#[trigger] history[i]).spec_inv()
            <= history[i].spec_res() by {
            assert(order.contains(i));
            let k = choose|k: int| 0 <= k < order.len() && order[k] == i;
            assert(order[k] == i);
        }
        assert forall|k: int| 0 <= k < order.len() implies #[trigger] is_explained(
            history,
            order,
            initial,
            k,
        ) by {
            fitting_is_being_explained(history, order, initial, k);
            assert(history[order[k]].fits(register_after(history, order, initial, k)));
        }
        assert(explains(history, order, initial));
    }
    if {
        &&& forall|i: int|
            0 <= i < history.len() ==> (#[trigger] history[i]).spec_inv() <= history[i].spec_res()
        &&& exists|order: Seq<int>| explains(history, order, initial)
    } {
        let order = choose|order: Seq<int>| explains(history, order, initial);
        assert(respects_time(history, order)) by {
            assert forall|p: int, q: int|
                #![trigger order[p], order[q]]
                0 <= p <= q < order.len() implies history[order[p]].spec_inv()
                <= history[order[q]].spec_res() by {
                assert(history[order[p]].spec_inv() <= history[order[p]].spec_res());
            }
        }
        assert forall|k: int| 0 <= k < order.len() implies (#[trigger] history[order[k]]).fits(
            register_after(history, order, initial, k),
        ) by {
            assert(is_explained(history, order, initial, k));
            fitting_is_being_explained(history, order, initial, k);
        }
        assert forall|k: int| 0 <= k < order.len() implies 0 <= #[trigger] order[k]
            < history.len() && !none[order[k]] by {}
        assert(linearizes(history, none, initial, order));
    }
}

/// Reads make nothing up: in a linearizable history a read returned what the register
/// held at first, or the value of a write that began before the read completed.
pub proof fn reads_return_what_was_written(
    history: Seq<HistoryOp>,
    initial: Option<u64>,
    i: int,
)
    requires
        linearizable(history, initial),
        0 <= i < history.len(),
        history[i] is Read,
    ensures
        history[i]->Read_value == initial || exists|j: int|
            0 <= j < history.len() && (#[trigger] history[j]) is Write
                && history[i]->Read_value == Some(history[j]->Write_value)
                && history[j].spec_inv() <= history[i].spec_res(),
{
    linearizable_means_some_order_explains(history, initial);
    let order = choose|order: Seq<int>| explains(history, order, initial);
    assert(order.contains(i));
    let k = choose|k: int| 0 <= k < order.len() && order[k] == i;
    assert(is_explained(history, order, initial, k));
    if history[i]->Read_value != initial {
        let p = choose|p: int| #[trigger]
            is_last_write_before(history, order, k, p) && history[i]->Read_value == Some(
                history[order[p]]->Write_value,
            );
        assert(!(history[order[k]].spec_res() < history[order[p]].spec_inv()));
        assert(history[order[p]] is Write);
    }
}

/// Completed writes are not overlooked: in a linearizable history a read that began after
/// some write had completed does not return what the register held at first, unless some
/// write wrote just that.
pub proof fn completed_writes_are_seen(
    history: Seq<HistoryOp>,
    initial: Option<u64>,
    w: int,
    i: int,
)
    requires
        linearizable(history, initial),
        0 <= w < history.len(),
        0 <= i < history.len(),
        history[w] is Write,
        history[i] is Read,
        history[w].spec_res() < history[i].spec_inv(),
    ensures
        exists|j: int|
            0 <= j < history.len() && (#[trigger] history[j]) is Write
                && history[i]->Read_value == Some(history[j]->Write_value)
                && history[j].spec_inv() <= history[i].spec_res() && history[w].spec_inv()
                <= history[j].spec_res(),
{
    linearizable_means_some_order_explains(history, initial);
    let order = choose|order: Seq<int>| explains(history, order, initial);
    assert(order.contains(i));
    assert(order.contains(w));
    let k = choose|k: int| 0 <= k < order.len() && order[k] == i;
    let m = choose|m: int| 0 <= m < order.len() && order[m] == w;
    if k < m {
        assert(!(history[order[m]].spec_res() < history[order[k]].spec_inv()));
    }
    assert(m < k);
    assert(is_explained(history, order, initial, k));
    assert(!(history[order[m]] is Read));
    let p = choose|p: int| #[trigger]
        is_last_write_before(history, order, k, p) && history[i]->Read_value == Some(
            history[order[p]]->Write_value,
        );
    assert(!(history[order[k]].spec_res() < history[order[p]].spec_inv()));
    if m < p {
        assert(!(history[order[p]].spec_res() < history[order[m]].spec_inv()));
    } else if p < m {
        assert(history[order[m]] is Read);
    }
    assert(history[order[p]] is Write);
    assert(history[w].spec_inv() <= history[w].spec_res());
}

/// The same operation with a wider span.
pub open spec fn widens(narrow: HistoryOp, wide: HistoryOp) -> bool {
    &&& wide.spec_inv() <= narrow.spec_inv()
    &&& narrow.spec_res() <= wide.spec_res()
    &&& match (narrow, wide) {
        (HistoryOp::Write { value: a, .. }, HistoryOp::Write { value: b, .. }) => a == b,
        (HistoryOp::Read { value: a, .. }, HistoryOp::Read { value: b, .. }) => a == b,
        _ => false,
    }
}

/// More overlap never hurts: if a history is linearizable, so is one in which the same
/// operations span more time.
pub proof fn wider_spans_stay_linearizable(
    narrow: Seq<HistoryOp>,
    wide: Seq<HistoryOp>,
    initial: Option<u64>,
)
    requires
        narrow.len() == wide.len(),
        forall|i: int| 0 <= i < narrow.len() ==> #[trigger] widens(narrow[i], wide[i]),
        linearizable(narrow, initial),
    ensures
        linearizable(wide, initial),
{
    let none = nothing_done(narrow.len());
    let order = choose|order: Seq<int>| #[trigger] linearizes(narrow, none, initial, order);
    assert forall|p: int, q: int|
        #![trigger order[p], order[q]]
        0 <= p <= q < order.len() implies wide[order[p]].spec_inv()
        <= wide[order[q]].spec_res() by {
        assert(widens(narrow[order[p]], wide[order[p]]));
        assert(widens(narrow[order[q]], wide[order[q]]));
        assert(narrow[order[p]].spec_inv() <= narrow[order[q]].spec_res());
    }
    assert forall|k: int| 0 <= k < order.len() implies (#[trigger] wide[order[k]]).fits(
        register_after(wide, order, initial, k),
    ) by {
        same_values_same_register(narrow, wide, order, initial, k);
        assert(widens(narrow[order[k]], wide[order[k]]));
        assert(narrow[order[k]].fits(register_after(narrow, order, initial, k)));
    }
    assert(linearizes(wide, none, initial, order));
}

proof fn same_values_same_register(
    narrow: Seq<HistoryOp>,
    wide: Seq<HistoryOp>,
    order: Seq<int>,
    initial: Option<u64>,
    k: int,
)
    requires
        forall|i: int| 0 <= i < narrow.len() ==> #[trigger] widens(narrow[i], wide[i]),
        0 <= k <= order.len(),
        forall|q: int| 0 <= q < order.len() ==> 0 <= #[trigger] order[q] < narrow.len(),
    ensures
        register_after(narrow, order, initial, k) == register_after(wide, order, initial, k),
    decreases k,
{
    if k > 0 {
        same_values_same_register(narrow, wide, order, initial, k - 1);
        assert(widens(narrow[order[k - 1]], wide[order[k - 1]]));
    }
}

} // verus!
