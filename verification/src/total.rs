//! Summation of a board's seed counts, and the small arithmetic facts the
//! transition proofs need: how a point update changes the total, and that on a
//! non-negative board any one or two entries are bounded by the total.

use vstd::prelude::*;

verus! {

/// Sum of the entries of `b` from position `lo` (inclusive) to the end.
pub open spec fn sum_from(b: Seq<int>, lo: int) -> int
    decreases b.len() - lo,
{
    if lo >= b.len() {
        0
    } else {
        b[lo] + sum_from(b, lo + 1)
    }
}

/// Sum of all entries of `b`.
pub open spec fn board_total(b: Seq<int>) -> int {
    sum_from(b, 0)
}

/// A tail sum of a non-negative board is non-negative.
pub proof fn lemma_sum_from_nonneg(b: Seq<int>, lo: int)
    requires
        0 <= lo,
        forall|i: int| lo <= i < b.len() ==> 0 <= b[i],
    ensures
        0 <= sum_from(b, lo),
    decreases b.len() - lo,
{
    if lo < b.len() {
        lemma_sum_from_nonneg(b, lo + 1);
    }
}

/// On a non-negative board, each entry is at most the tail sum that covers it.
pub proof fn lemma_elem_le_sum(b: Seq<int>, lo: int, i: int)
    requires
        0 <= lo <= i < b.len(),
        forall|j: int| lo <= j < b.len() ==> 0 <= b[j],
    ensures
        b[i] <= sum_from(b, lo),
    decreases i - lo,
{
    if lo == i {
        lemma_sum_from_nonneg(b, lo + 1);
    } else {
        lemma_elem_le_sum(b, lo + 1, i);
    }
}

/// Updating one entry changes a tail sum by the difference at that entry,
/// when the entry lies inside the summed range.
pub proof fn lemma_sum_from_update(b: Seq<int>, lo: int, i: int, v: int)
    requires
        0 <= lo,
        0 <= i < b.len(),
    ensures
        sum_from(b.update(i, v), lo) == sum_from(b, lo) + (if lo <= i {
            v - b[i]
        } else {
            0
        }),
    decreases b.len() - lo,
{
    if lo < b.len() {
        lemma_sum_from_update(b, lo + 1, i, v);
    }
}

/// On a non-negative board, two distinct entries together are at most the total.
pub proof fn lemma_two_le_total(b: Seq<int>, i: int, j: int)
    requires
        0 <= i < b.len(),
        0 <= j < b.len(),
        i != j,
        forall|k: int| 0 <= k < b.len() ==> 0 <= b[k],
    ensures
        b[i] + b[j] <= board_total(b),
{
    let u = b.update(i, 0);
    assert forall|k: int| 0 <= k < u.len() implies 0 <= u[k] by {
        assert(u[k] == if k == i { 0int } else { b[k] });
    }
    lemma_sum_from_update(b, 0, i, 0);
    lemma_elem_le_sum(u, 0, j);
}

} // verus!
