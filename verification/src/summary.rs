//! Whole-number summaries of a vector of counts or distances.

use crate::sorting::{sort_list, sorted_from};
use vstd::prelude::*;

verus! {

/// The sum of the values.
pub open spec fn sum_of(values: Seq<usize>) -> nat
    decreases values.len(),
{
    if values.len() == 0 {
        0
    } else {
        sum_of(values.drop_last()) + values.last() as nat
    }
}

/// The sum of a start of the values is no more than the sum of all.
pub proof fn lemma_sum_of_prefix(values: Seq<usize>, upto: int)
    requires
        0 <= upto <= values.len(),
    ensures
        sum_of(values.take(upto)) <= sum_of(values),
    decreases values.len(),
{
    if upto == values.len() {
        assert(values.take(upto) == values);
    } else {
        lemma_sum_of_prefix(values.drop_last(), upto);
        assert(values.drop_last().take(upto) == values.take(upto));
    }
}

/// `m` is among the values and none is greater.
pub open spec fn is_largest(values: Seq<usize>, m: usize) -> bool {
    &&& values.contains(m)
    &&& forall|i: int| 0 <= i < values.len() ==> values[i] <= m
}

/// `m` is among the values and none is smaller.
pub open spec fn is_smallest(values: Seq<usize>, m: usize) -> bool {
    &&& values.contains(m)
    &&& forall|i: int| 0 <= i < values.len() ==> values[i] >= m
}

/// Adds the values up. Gives nothing where the sum is more than a `usize`
/// holds.
pub fn total(values: &Vec<usize>) -> (sum: Option<usize>)
    ensures
        sum == if sum_of(values@) <= usize::MAX {
            Some(sum_of(values@) as usize)
        } else {
            None
        },
{
    let mut sum: usize = 0;
    for k in 0..values.len()
        invariant
            sum == sum_of(values@.take(k as int)),
    {
        let ghost next = values@.take(k + 1);
        proof {
            assert(next.drop_last() == values@.take(k as int));
        }
        match sum.checked_add(values[k]) {
            Some(more) => {
                sum = more;
            },
            None => {
                proof {
                    lemma_sum_of_prefix(values@, k + 1);
                }
                return None;
            },
        }
    }
    assert(values@.take(values@.len() as int) == values@);
    Some(sum)
}

/// Finds the greatest of the values; nothing where there is no value.
pub fn largest(values: &Vec<usize>) -> (found: Option<usize>)
    ensures
        match found {
            Some(m) => is_largest(values@, m),
            None => values@.len() == 0,
        },
{
    if values.len() == 0 {
        return None;
    }
    let mut best: usize = values[0];
    for k in 1..values.len()
        invariant
            values@.len() > 0,
            values@.contains(best),
            forall|i: int| 0 <= i < k ==> values@[i] <= best,
    {
        if values[k] > best {
            best = values[k];
        }
    }
    Some(best)
}

/// Finds the least of the values; nothing where there is no value.
pub fn smallest(values: &Vec<usize>) -> (found: Option<usize>)
    ensures
        match found {
            Some(m) => is_smallest(values@, m),
            None => values@.len() == 0,
        },
{
    if values.len() == 0 {
        return None;
    }
    let mut best: usize = values[0];
    for k in 1..values.len()
        invariant
            values@.len() > 0,
            values@.contains(best),
            forall|i: int| 0 <= i < k ==> values@[i] >= best,
    {
        if values[k] < best {
            best = values[k];
        }
    }
    Some(best)
}

/// Puts the values in ascending order and gives the one at position `rank`
/// of that order, counted from zero; nothing where there are no more than
/// `rank` values.
pub fn nth_smallest(values: &mut Vec<usize>, rank: usize) -> (found: Option<usize>)
    ensures
        sorted_from(final(values)@, old(values)@),
        found == if rank < old(values)@.len() {
            Some(final(values)@[rank as int])
        } else {
            None
        },
{
    sort_list(values);
    proof {
        values@.to_multiset_ensures();
        old(values)@.to_multiset_ensures();
    }
    if rank < values.len() {
        Some(values[rank])
    } else {
        None
    }
}

/// Keeps the values below `clip`, in their order.
pub fn values_below(data: &Vec<usize>, clip: usize) -> (kept: Vec<usize>)
    ensures
        kept@ == data@.filter(|x: usize| x < clip),
{
    let ghost below = |x: usize| x < clip;
    let mut kept: Vec<usize> = Vec::new();
    for k in 0..data.len()
        invariant
            below == |x: usize| x < clip,
            kept@ == data@.take(k as int).filter(below),
    {
        let x = data[k];
        proof {
            assert(data@.take(k + 1) == data@.take(k as int).push(x));
            data@.take(k as int).lemma_filter_push(x, below);
        }
        if x < clip {
            kept.push(x);
        }
    }
    assert(data@.take(data@.len() as int) == data@);
    kept
}

} // verus!
