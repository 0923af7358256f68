//! Shrinking: reduce a failing operation history to a minimal one that still
//! violates. A raw failing run has hundreds of ops; the essential story is the
//! operation that showed a value and the read that went back behind it.
//! Minimizing it is what makes a failure *debuggable*.
//!
//! Algorithm (greedy delta debugging, "ddmin"-lite): repeatedly pass over the
//! history trying to delete each operation; keep any deletion that preserves the
//! violation. Repeat until a full pass removes nothing (a local minimum). The
//! result is a subsequence of the history that still fails the checker.
//!
//! A history violates exactly if some read contradicts an earlier operation, so
//! what is left is one such pair: the last operation that a later read
//! contradicts, and the last read that contradicts it.

use crate::checker::{
    check_linearizability, consistent, contradicts, finding_of, goes_backwards, may_follow,
    reads_never_go_back, verdict, Op, Violation,
};
use vstd::prelude::*;

verus! {

/// Some later operation contradicts operation `i`.
pub open spec fn is_contradicted(history: Seq<Op>, i: int) -> bool {
    exists|j: int| i < j < history.len() && #[trigger] contradicts(history[i], history[j])
}

/// `i` is the last operation that a later one contradicts.
pub open spec fn is_last_cause(history: Seq<Op>, i: int) -> bool {
    &&& 0 <= i < history.len()
    &&& is_contradicted(history, i)
    &&& forall|k: int| i < k < history.len() ==> !#[trigger] is_contradicted(history, k)
}

/// `j` is the last operation that contradicts operation `i`.
pub open spec fn is_last_effect(history: Seq<Op>, i: int, j: int) -> bool {
    &&& i < j < history.len()
    &&& contradicts(history[i], history[j])
    &&& forall|k: int| j < k < history.len() ==> !#[trigger] contradicts(history[i], history[k])
}

/// The last operation that a later one contradicts.
pub open spec fn last_cause(history: Seq<Op>) -> int {
    choose|i: int| is_last_cause(history, i)
}

/// The last operation that contradicts it.
pub open spec fn last_effect(history: Seq<Op>) -> int {
    choose|j: int| is_last_effect(history, last_cause(history), j)
}

/// What is left of a history after shrinking.
pub open spec fn shrunk(history: Seq<Op>) -> Seq<Op> {
    if consistent(history) {
        history
    } else {
        seq![history[last_cause(history)], history[last_effect(history)]]
    }
}

/// A violating history has a last cause and a last effect of it.
proof fn essential_pair_exists(history: Seq<Op>)
    requires
        !consistent(history),
    ensures
        is_last_cause(history, last_cause(history)),
        is_last_effect(history, last_cause(history), last_effect(history)),
{
    let j = choose|j: int| 0 <= j < history.len() && #[trigger] goes_backwards(history, j);
    let i = choose|i: int| 0 <= i < j && #[trigger] contradicts(history[i], history[j]);
    assert(is_contradicted(history, i));
    last_cause_from(history, i);
    let c = last_cause(history);
    let e = choose|e: int| c < e < history.len() && #[trigger] contradicts(history[c], history[e]);
    last_effect_from(history, c, e);
}

proof fn last_cause_from(history: Seq<Op>, i: int)
    requires
        0 <= i < history.len(),
        is_contradicted(history, i),
    ensures
        exists|c: int| is_last_cause(history, c),
    decreases history.len() - i,
{
    if forall|k: int| i < k < history.len() ==> !#[trigger] is_contradicted(history, k) {
        assert(is_last_cause(history, i));
    } else {
        let k = choose|k: int| i < k < history.len() && #[trigger] is_contradicted(history, k);
        last_cause_from(history, k);
    }
}

proof fn last_effect_from(history: Seq<Op>, i: int, j: int)
    requires
        i < j < history.len(),
        contradicts(history[i], history[j]),
    ensures
        exists|e: int| is_last_effect(history, i, e),
    decreases history.len() - j,
{
    if forall|k: int| j < k < history.len() ==> !#[trigger] contradicts(history[i], history[k]) {
        assert(is_last_effect(history, i, j));
    } else {
        let k = choose|k: int|
            j < k < history.len() && #[trigger] contradicts(history[i], history[k]);
        last_effect_from(history, i, k);
    }
}

/// A history violates exactly if some read contradicts an earlier operation.
proof fn violation_is_a_pair(history: Seq<Op>)
    ensures
        !consistent(history) <==> exists|i: int, j: int|
            0 <= i < j < history.len() && #[trigger] contradicts(history[i], history[j]),
{
    if !consistent(history) {
        let j = choose|j: int| 0 <= j < history.len() && #[trigger] goes_backwards(history, j);
        let i = choose|i: int| 0 <= i < j && #[trigger] contradicts(history[i], history[j]);
        assert(contradicts(history[i], history[j]));
    }
    if exists|i: int, j: int|
        0 <= i < j < history.len() && #[trigger] contradicts(history[i], history[j]) {
        let (i, j) = choose|i: int, j: int|
            0 <= i < j < history.len() && #[trigger] contradicts(history[i], history[j]);
        assert(goes_backwards(history, j));
    }
}

/// What a pass keeps of the first `p` operations.
spec fn kept(history: Seq<Op>, p: int) -> Seq<Op> {
    let c = last_cause(history);
    let e = last_effect(history);
    if p <= c {
        Seq::empty()
    } else if p <= e {
        seq![history[c]]
    } else {
        seq![history[c], history[e]]
    }
}

/// The history in the middle of a pass, with `p` operations behind it.
spec fn midway(history: Seq<Op>, p: int) -> Seq<Op> {
    kept(history, p) + history.skip(p)
}

/// What becomes of operation `p`: it stays exactly if it is one of the pair.
proof fn pass_step(history: Seq<Op>, p: int)
    requires
        !consistent(history),
        0 <= p < history.len(),
    ensures
        ({
            let i = kept(history, p).len() as int;
            let rest = midway(history, p).remove(i);
            let stays = p == last_cause(history) || p == last_effect(history);
            &&& i < midway(history, p).len()
            &&& consistent(rest) <==> stays
            &&& stays ==> midway(history, p + 1) == midway(history, p) && kept(
                history,
                p + 1,
            ).len() == i + 1
            &&& !stays ==> midway(history, p + 1) == rest && kept(history, p + 1).len() == i
        }),
{
    essential_pair_exists(history);
    let c = last_cause(history);
    let e = last_effect(history);
    let i = kept(history, p).len() as int;
    let now = midway(history, p);
    let rest = now.remove(i);
    assert(rest =~= kept(history, p) + history.skip(p + 1));
    violation_is_a_pair(rest);
    if p == c || p == e {
        assert(midway(history, p + 1) =~= now);
        if !consistent(rest) {
            let (a, b) = choose|a: int, b: int|
                0 <= a < b < rest.len() && #[trigger] contradicts(rest[a], rest[b]);
            if p == c {
                let x = a + p + 1;
                let y = b + p + 1;
                assert(contradicts(history[x], history[y]));
                assert(is_contradicted(history, x));
            } else {
                let y = b - 1 + p + 1;
                assert(rest[b] == history[y]);
                if a == 0 {
                    assert(contradicts(history[c], history[y]));
                } else {
                    let x = a - 1 + p + 1;
                    assert(rest[a] == history[x]);
                    assert(contradicts(history[x], history[y]));
                    assert(is_contradicted(history, x));
                }
            }
            assert(false);
        }
    } else {
        assert(midway(history, p + 1) =~= rest);
        if p < c {
            let a = c - p - 1;
            let b = e - p - 1;
            assert(rest[a] == history[c] && rest[b] == history[e]);
            assert(contradicts(rest[a], rest[b]));
        } else if p < e {
            let b = 1 + e - p - 1;
            assert(rest[0] == history[c] && rest[b] == history[e]);
            assert(contradicts(rest[0], rest[b]));
        } else {
            assert(rest[0] == history[c] && rest[1] == history[e]);
            assert(contradicts(rest[0], rest[1]));
        }
    }
}

/// A pair that violates is its own essential pair.
proof fn pair_is_essential(a: Op, b: Op)
    requires
        contradicts(a, b),
    ensures
        !consistent(seq![a, b]),
        shrunk(seq![a, b]) == seq![a, b],
{
    let h = seq![a, b];
    violation_is_a_pair(h);
    assert(contradicts(h[0], h[1]));
    essential_pair_exists(h);
    assert(last_effect(h) == 1);
    assert(shrunk(h) =~= h);
}

/// One pass over the history: try to delete each operation, and keep any deletion
/// that preserves the violation. Says whether anything was deleted.
fn pass(current: &mut Vec<Op>) -> (removed_any: bool)
    requires
        !consistent(old(current)@),
    ensures
        final(current)@ == shrunk(old(current)@),
        removed_any == (old(current)@.len() > 2),
{
    let ghost h = current@;
    let ghost mut p: int = 0;
    let mut removed_any: bool = false;
    let mut i: usize = 0;
    proof {
        essential_pair_exists(h);
        assert(midway(h, 0) =~= h);
    }
    while i < current.len()
        invariant
            !consistent(h),
            0 <= last_cause(h) < last_effect(h) < h.len(),
            0 <= p <= h.len(),
            current@ == midway(h, p),
            i == kept(h, p).len(),
            removed_any == (i < p),
        decreases h.len() - p,
    {
        proof {
            if p == h.len() {
                assert(h.skip(p) =~= Seq::empty());
            }
            pass_step(h, p);
        }
        // Try deleting op i.
        let mut candidate = current.clone();
        assert(candidate@ =~= current@);
        candidate.remove(i);
        if check_linearizability(candidate.as_slice()).is_some() {
            // Still fails without op i -> op i was inessential; drop it.
            *current = candidate;
            removed_any = true;
            // Don't advance i: the next op shifted into this slot.
        } else {
            i = i + 1;
        }
        proof {
            p = p + 1;
        }
    }
    proof {
        assert(p == h.len());
        assert(h.skip(p) =~= Seq::empty());
        assert(current@ =~= shrunk(h));
    }
    removed_any
}

/// Reduce `history` to a minimal subsequence that still violates. Returns the
/// minimized history and its violation. If `history` doesn't violate, returns it
/// unchanged with `None`.
pub fn shrink(history: &[Op]) -> (r: (Vec<Op>, Option<Violation>))
    ensures
        r.0@ == shrunk(history@),
        finding_of(r.1) == verdict(shrunk(history@)),
        r.1 is None <==> consistent(history@),
{
    let mut current: Vec<Op> = vstd::slice::slice_to_vec(history);
    if check_linearizability(history).is_none() {
        return (current, None);
    }
    proof {
        essential_pair_exists(history@);
        pair_is_essential(
            history@[last_cause(history@)],
            history@[last_effect(history@)],
        );
    }
    loop
        invariant
            !consistent(history@),
            !consistent(current@),
            shrunk(current@) == shrunk(history@),
            shrunk(shrunk(history@)) == shrunk(history@),
            shrunk(history@).len() == 2,
            !consistent(shrunk(history@)),
        ensures
            current@ == shrunk(history@),
        decreases current@.len(),
    {
        if !pass(&mut current) {
            break ;  // local minimum: nothing else can be removed
        }
    }
    let v = check_linearizability(current.as_slice());
    (current, v)
}

/// What is left of a violating history is a subsequence of it: two of its
/// operations, in their order.
pub proof fn shrunk_is_a_subsequence(history: Seq<Op>)
    requires
        !consistent(history),
    ensures
        ({
            let i = last_cause(history);
            let j = last_effect(history);
            &&& 0 <= i < j < history.len()
            &&& shrunk(history) == seq![history[i], history[j]]
        }),
{
    essential_pair_exists(history);
}

/// The shrunk history of a violating one still violates, and is minimal: no
/// operation of it can be deleted without losing the violation.
pub proof fn shrunk_is_minimal(history: Seq<Op>, k: int)
    requires
        !consistent(history),
        0 <= k < shrunk(history).len(),
    ensures
        !consistent(shrunk(history)),
        shrunk(history).len() == 2,
        consistent(shrunk(history).remove(k)),
{
    essential_pair_exists(history);
    pair_is_essential(history[last_cause(history)], history[last_effect(history)]);
    violation_is_a_pair(shrunk(history).remove(k));
}

/// Shrinking a shrunk history changes nothing.
pub proof fn shrinking_is_idempotent(history: Seq<Op>)
    ensures
        shrunk(shrunk(history)) == shrunk(history),
{
    if !consistent(history) {
        essential_pair_exists(history);
        pair_is_essential(history[last_cause(history)], history[last_effect(history)]);
    }
}

/// What shrinking leaves. A history without a violation stays as it is. Of any other the
/// last pair is left: `i` is the last operation that some later one may not follow, and
/// `j` the last one that may not follow it.
pub proof fn shrinking_leaves_the_last_pair(history: Seq<Op>, i: int, j: int)
    ensures
        (forall|a: int, b: int|
            0 <= a < b < history.len() ==> #[trigger] may_follow(history[a], history[b]))
            ==> shrunk(history) == history,
        ({
            &&& 0 <= i < j < history.len()
            &&& !may_follow(history[i], history[j])
            &&& forall|a: int, b: int|
                i < a < b < history.len() ==> #[trigger] may_follow(history[a], history[b])
            &&& forall|b: int|
                j < b < history.len() ==> #[trigger] may_follow(history[i], history[b])
        }) ==> shrunk(history) =~= seq![history[i], history[j]],
{
    reads_never_go_back(history);
    if {
        &&& 0 <= i < j < history.len()
        &&& !may_follow(history[i], history[j])
        &&& forall|a: int, b: int|
            i < a < b < history.len() ==> #[trigger] may_follow(history[a], history[b])
        &&& forall|b: int| j < b < history.len() ==> #[trigger] may_follow(history[i], history[b])
    } {
        assert(contradicts(history[i], history[j]));
        assert(goes_backwards(history, j));
        essential_pair_exists(history);
        let c = last_cause(history);
        let e = last_effect(history);
        assert(is_contradicted(history, i));
        assert(!may_follow(history[c], history[e]));
        if c > i {
            assert(may_follow(history[c], history[e]));
        }
        assert(c == i);
        if e > j {
            assert(may_follow(history[i], history[e]));
        }
    }
}

} // verus!
