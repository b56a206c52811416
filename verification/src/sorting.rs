//! Ascending order of neighbour lists.

use vstd::prelude::*;
use vstd::seq_lib::lemma_sorted_unique;

verus! {

/// The sequence never steps down.
pub open spec fn ascending(s: Seq<usize>) -> bool {
    forall|i: int, j: int| 0 <= i <= j < s.len() ==> s[i] <= s[j]
}

/// `out` holds the items of `src`, each as often as `src` does, in ascending
/// order.
pub open spec fn sorted_from(out: Seq<usize>, src: Seq<usize>) -> bool {
    &&& ascending(out)
    &&& out.to_multiset() == src.to_multiset()
}

/// There is one way only to put the items of a sequence in ascending order:
/// two sequences sorted from the same one are equal.
pub proof fn lemma_sorted_from_unique(a: Seq<usize>, b: Seq<usize>, src: Seq<usize>)
    requires
        sorted_from(a, src),
        sorted_from(b, src),
    ensures
        a == b,
{
    let leq = |x: usize, y: usize| x <= y;
    lemma_sorted_unique(a, b, leq);
}

/// Sorts `list` in place with the standard library's `sort` for slices.
/// Trusted: afterwards the list is in ascending order and holds the same
/// items as before, each as often as before.
#[verifier::external_body]
pub(crate) fn sort_list(list: &mut Vec<usize>)
    ensures
        sorted_from(final(list)@, old(list)@),
{
    list.sort();
}

} // verus!
