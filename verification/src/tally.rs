//! Sums over a sequence of counters, and counters that stop at their
//! largest value.

use vstd::prelude::*;

verus! {

/// `amount` as a counter: the largest counter where `amount` is beyond it.
pub open spec fn saturate(amount: int) -> u64 {
    if amount > u64::MAX {
        u64::MAX
    } else if amount < 0 {
        0
    } else {
        amount as u64
    }
}

/// The sum of the counters from index `lo` up to, not including, `hi`.
pub open spec fn sum_between(counts: Seq<u64>, lo: int, hi: int) -> int
    decreases hi - lo,
{
    if hi <= lo {
        0
    } else {
        sum_between(counts, lo, hi - 1) + counts[hi - 1]
    }
}

/// The sum of all counters.
pub open spec fn sum(counts: Seq<u64>) -> int {
    sum_between(counts, 0, counts.len() as int)
}

/// A sum of counters is not negative.
pub proof fn lemma_sum_between_nonnegative(counts: Seq<u64>, lo: int, hi: int)
    ensures
        sum_between(counts, lo, hi) >= 0,
    decreases hi - lo,
{
    if hi > lo {
        lemma_sum_between_nonnegative(counts, lo, hi - 1);
    }
}

/// A sum can be taken from its first counter as well as from its last.
pub proof fn lemma_sum_between_first(counts: Seq<u64>, lo: int, hi: int)
    requires
        lo < hi,
    ensures
        sum_between(counts, lo, hi) == counts[lo] + sum_between(counts, lo + 1, hi),
    decreases hi - lo,
{
    if hi - 1 > lo {
        lemma_sum_between_first(counts, lo, hi - 1);
    } else {
        assert(sum_between(counts, lo, lo) == 0);
    }
}

/// A sum over a range is the sum over its two parts.
pub proof fn lemma_sum_between_split(counts: Seq<u64>, lo: int, mid: int, hi: int)
    requires
        lo <= mid <= hi,
    ensures
        sum_between(counts, lo, hi) == sum_between(counts, lo, mid) + sum_between(counts, mid, hi),
    decreases hi - mid,
{
    if hi > mid {
        lemma_sum_between_split(counts, lo, mid, hi - 1);
    }
}

/// A sum over a part of a range is no larger than the sum over the range.
pub proof fn lemma_sum_between_part(counts: Seq<u64>, lo: int, from: int, to: int, hi: int)
    requires
        lo <= from <= to <= hi,
    ensures
        sum_between(counts, from, to) <= sum_between(counts, lo, hi),
{
    lemma_sum_between_split(counts, lo, from, hi);
    lemma_sum_between_split(counts, from, to, hi);
    lemma_sum_between_nonnegative(counts, lo, from);
    lemma_sum_between_nonnegative(counts, to, hi);
}

/// Two sequences that agree on a range have the same sum over it.
pub proof fn lemma_sum_between_agrees(a: Seq<u64>, b: Seq<u64>, lo: int, hi: int)
    requires
        forall|i: int| lo <= i < hi ==> a[i] == b[i],
    ensures
        sum_between(a, lo, hi) == sum_between(b, lo, hi),
    decreases hi - lo,
{
    if hi > lo {
        lemma_sum_between_agrees(a, b, lo, hi - 1);
    }
}

/// Replacing one counter changes the sum by the difference.
pub proof fn lemma_sum_update(counts: Seq<u64>, index: int, count: u64)
    requires
        0 <= index < counts.len(),
    ensures
        sum(counts.update(index, count)) == sum(counts) - counts[index] + count,
{
    let after = counts.update(index, count);
    let len = counts.len() as int;
    lemma_sum_between_split(counts, 0, index, len);
    lemma_sum_between_split(after, 0, index, len);
    lemma_sum_between_first(counts, index, len);
    lemma_sum_between_first(after, index, len);
    lemma_sum_between_agrees(counts, after, 0, index);
    lemma_sum_between_agrees(counts, after, index + 1, len);
}

/// Counters that are all zero sum to zero.
pub proof fn lemma_sum_zero(counts: Seq<u64>, lo: int, hi: int)
    requires
        forall|i: int| lo <= i < hi ==> counts[i] == 0,
    ensures
        sum_between(counts, lo, hi) == 0,
    decreases hi - lo,
{
    if hi > lo {
        lemma_sum_zero(counts, lo, hi - 1);
    }
}

/// No counter is larger than the sum of all.
pub proof fn lemma_sum_bounds_each(counts: Seq<u64>, index: int)
    requires
        0 <= index < counts.len(),
    ensures
        counts[index] <= sum(counts),
{
    let len = counts.len() as int;
    lemma_sum_between_split(counts, 0, index, len);
    lemma_sum_between_first(counts, index, len);
    lemma_sum_between_nonnegative(counts, 0, index);
    lemma_sum_between_nonnegative(counts, index + 1, len);
}

} // verus!
