//! Counting the entries of a label vector that hold no value yet.

use vstd::prelude::*;

verus! {

/// The number of positions of `labels` that hold `None`.
pub open spec fn unset_count(labels: Seq<Option<usize>>) -> nat
    decreases labels.len(),
{
    if labels.len() == 0 {
        0
    } else {
        unset_count(labels.drop_last()) + if labels.last() is None {
            1nat
        } else {
            0nat
        }
    }
}

/// A sequence of `None` alone has every entry unset.
pub proof fn lemma_unset_count_all(labels: Seq<Option<usize>>)
    requires
        forall|i: int| 0 <= i < labels.len() ==> labels[i] is None,
    ensures
        unset_count(labels) == labels.len(),
    decreases labels.len(),
{
    if labels.len() > 0 {
        lemma_unset_count_all(labels.drop_last());
    }
}

/// Giving a value to one position lowers the count by one where the position
/// was unset, and leaves it as it is where the position held a value.
pub proof fn lemma_unset_count_update(labels: Seq<Option<usize>>, i: int, x: usize)
    requires
        0 <= i < labels.len(),
    ensures
        labels[i] is None ==> unset_count(labels.update(i, Some(x))) + 1 == unset_count(labels),
        labels[i] is Some ==> unset_count(labels.update(i, Some(x))) == unset_count(labels),
    decreases labels.len(),
{
    let updated = labels.update(i, Some(x));
    if i == labels.len() - 1 {
        assert(updated.drop_last() == labels.drop_last());
    } else {
        assert(updated.drop_last() == labels.drop_last().update(i, Some(x)));
        lemma_unset_count_update(labels.drop_last(), i, x);
    }
}

} // verus!
