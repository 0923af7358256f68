//! Counting flags: how many of a sequence of booleans are set, and what that
//! says about majorities.

use vstd::prelude::*;

verus! {

/// The number of `true`s.
pub open spec fn tally(flags: Seq<bool>) -> nat
    decreases flags.len(),
{
    if flags.len() == 0 {
        0
    } else {
        tally(flags.drop_last()) + if flags.last() {
            1nat
        } else {
            0nat
        }
    }
}

/// The count lies between 0 and the length, and reaches the length exactly when
/// every flag is set.
pub proof fn tally_bounds(flags: Seq<bool>)
    ensures
        tally(flags) <= flags.len(),
        tally(flags) == flags.len() <==> (forall|i: int|
            0 <= i < flags.len() ==> #[trigger] flags[i]),
    decreases flags.len(),
{
    if flags.len() > 0 {
        let rest = flags.drop_last();
        tally_bounds(rest);
        assert(forall|i: int| 0 <= i < rest.len() ==> rest[i] == flags[i]);
        if tally(flags) == flags.len() {
            assert forall|i: int| 0 <= i < flags.len() implies #[trigger] flags[i] by {
                if i < rest.len() {
                    assert(rest[i]);
                }
            }
        }
        if forall|i: int| 0 <= i < flags.len() ==> #[trigger] flags[i] {
            assert forall|i: int| 0 <= i < rest.len() implies #[trigger] rest[i] by {
                assert(flags[i]);
            }
            assert(flags[flags.len() - 1]);
        }
    }
}

/// No flag set, nothing counted.
pub proof fn tally_of_none(flags: Seq<bool>)
    requires
        forall|i: int| 0 <= i < flags.len() ==> !#[trigger] flags[i],
    ensures
        tally(flags) == 0,
    decreases flags.len(),
{
    if flags.len() > 0 {
        let rest = flags.drop_last();
        assert forall|i: int| 0 <= i < rest.len() implies !#[trigger] rest[i] by {
            assert(!flags[i]);
        }
        tally_of_none(rest);
        assert(!flags[flags.len() - 1]);
    }
}

/// Setting one more flag counts one more.
pub proof fn tally_of_set(flags: Seq<bool>, i: int)
    requires
        0 <= i < flags.len(),
        !flags[i],
    ensures
        tally(flags.update(i, true)) == tally(flags) + 1,
    decreases flags.len(),
{
    let after = flags.update(i, true);
    if i == flags.len() - 1 {
        assert(after.drop_last() =~= flags.drop_last());
    } else {
        assert(after.drop_last() =~= flags.drop_last().update(i, true));
        tally_of_set(flags.drop_last(), i);
    }
}

/// Where every flag of `a` is also set in `b`, `b` counts at least as many.
pub proof fn tally_is_monotonic(a: Seq<bool>, b: Seq<bool>)
    requires
        a.len() == b.len(),
        forall|i: int| 0 <= i < a.len() && #[trigger] a[i] ==> b[i],
    ensures
        tally(a) <= tally(b),
    decreases a.len(),
{
    if a.len() > 0 {
        let ra = a.drop_last();
        let rb = b.drop_last();
        assert forall|i: int| 0 <= i < ra.len() && #[trigger] ra[i] implies rb[i] by {
            assert(a[i]);
        }
        tally_is_monotonic(ra, rb);
        assert(a[a.len() - 1] ==> b[a.len() - 1]);
    }
}

/// Flags that are never set together count no more than there are places.
proof fn disjoint_tallies(a: Seq<bool>, b: Seq<bool>)
    requires
        a.len() == b.len(),
        forall|i: int| 0 <= i < a.len() && #[trigger] a[i] ==> !b[i],
    ensures
        tally(a) + tally(b) <= a.len(),
    decreases a.len(),
{
    if a.len() > 0 {
        let ra = a.drop_last();
        let rb = b.drop_last();
        assert forall|i: int| 0 <= i < ra.len() && #[trigger] ra[i] implies !rb[i] by {
            assert(a[i]);
        }
        disjoint_tallies(ra, rb);
        assert(a[a.len() - 1] ==> !b[a.len() - 1]);
    }
}

/// Two majorities of the same nodes share a node.
pub proof fn majorities_intersect(a: Seq<bool>, b: Seq<bool>) -> (i: int)
    requires
        a.len() == b.len(),
        tally(a) >= a.len() / 2 + 1,
        tally(b) >= a.len() / 2 + 1,
    ensures
        0 <= i < a.len(),
        a[i],
        b[i],
{
    if forall|i: int| 0 <= i < a.len() && #[trigger] a[i] ==> !b[i] {
        disjoint_tallies(a, b);
        assert(false);
    }
    choose|i: int| 0 <= i < a.len() && #[trigger] a[i] && b[i]
}

/// The count is the number of places whose flag is set.
pub proof fn tally_counts_the_set_places(flags: Seq<bool>)
    ensures
        Set::new(|i: int| 0 <= i < flags.len() && flags[i]).finite(),
        Set::new(|i: int| 0 <= i < flags.len() && flags[i]).len() == tally(flags),
    decreases flags.len(),
{
    let places = Set::new(|i: int| 0 <= i < flags.len() && flags[i]);
    if flags.len() == 0 {
        assert(places =~= Set::empty());
    } else {
        let rest = flags.drop_last();
        let fewer = Set::new(|i: int| 0 <= i < rest.len() && rest[i]);
        tally_counts_the_set_places(rest);
        if flags.last() {
            assert(places =~= fewer.insert(flags.len() - 1));
        } else {
            assert(places =~= fewer);
        }
    }
}

} // verus!
