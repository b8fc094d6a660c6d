//! Counting the unset entries of a sequence of flags.

use vstd::prelude::*;

verus! {

/// Number of `false` entries of a sequence of flags.
pub open spec fn count_unvisited(flags: Seq<bool>) -> nat
    decreases flags.len(),
{
    if flags.len() == 0 {
        0
    } else {
        count_unvisited(flags.drop_last()) + if flags.last() { 0nat } else { 1nat }
    }
}

/// Setting a flag lowers the count by one when it was unset, and the count never
/// exceeds the length.
pub proof fn lemma_count_update(flags: Seq<bool>, i: int)
    requires
        0 <= i < flags.len(),
    ensures
        count_unvisited(flags.update(i, true)) == count_unvisited(flags) - (if flags[i] { 0int } else { 1int }),
        count_unvisited(flags) <= flags.len(),
    decreases flags.len(),
{
    let up = flags.update(i, true);
    if i == flags.len() - 1 {
        assert(up.drop_last() =~= flags.drop_last());
        lemma_count_bound(flags.drop_last());
    } else {
        assert(up.drop_last() =~= flags.drop_last().update(i, true));
        lemma_count_update(flags.drop_last(), i);
    }
}

/// The count never exceeds the length.
pub proof fn lemma_count_bound(flags: Seq<bool>)
    ensures
        count_unvisited(flags) <= flags.len(),
    decreases flags.len(),
{
    if flags.len() > 0 {
        lemma_count_bound(flags.drop_last());
    }
}

/// Marking more nodes never raises the number of unmarked ones.
pub proof fn lemma_count_mono(a: Seq<bool>, b: Seq<bool>)
    requires
        a.len() == b.len(),
        forall|k: int| 0 <= k < a.len() && a[k] ==> b[k],
    ensures
        count_unvisited(b) <= count_unvisited(a),
    decreases a.len(),
{
    if a.len() > 0 {
        lemma_count_mono(a.drop_last(), b.drop_last());
    }
}

/// A sequence with an unset entry has one.
pub proof fn lemma_count_positive(flags: Seq<bool>) -> (i: int)
    requires
        count_unvisited(flags) > 0,
    ensures
        0 <= i < flags.len(),
        !flags[i],
    decreases flags.len(),
{
    if flags.last() {
        let j = lemma_count_positive(flags.drop_last());
        j
    } else {
        (flags.len() - 1) as int
    }
}

/// A sequence with no set entry counts its whole length.
pub proof fn lemma_count_all_unset(flags: Seq<bool>)
    requires
        forall|k: int| 0 <= k < flags.len() ==> !flags[k],
    ensures
        count_unvisited(flags) == flags.len(),
    decreases flags.len(),
{
    if flags.len() > 0 {
        lemma_count_all_unset(flags.drop_last());
    }
}

} // verus!
