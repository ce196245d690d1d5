//! Ranks of percentiles, and the search for the bucket at which the
//! cumulative count reaches a rank.

use vstd::prelude::*;
use vstd::arithmetic::div_mod::{lemma_fundamental_div_mod, lemma_mod_bound};
use crate::rounding::{ceil_div, lemma_ceil_unique};
use crate::tally::{lemma_sum_between_first, lemma_sum_between_part, sum_between};

verus! {

/// How many of `total` entries lie at or below the percentile
/// `numerator / denominator`: that share of `total`, rounded up, and no
/// more than `total`.
pub open spec fn rank(total: u64, numerator: u64, denominator: u64) -> int {
    let exact = ceil_div(total * numerator, 100 * denominator);
    if exact > total {
        total as int
    } else {
        exact
    }
}

/// Whether `numerator / denominator` is a percentage: a fraction from 0 to 100.
pub open spec fn is_percentage(numerator: u64, denominator: u64) -> bool {
    denominator > 0 && numerator <= 100 * denominator
}

/// Whether the percentage `numerator / denominator` lies below 50.
pub open spec fn below_median(numerator: u64, denominator: u64) -> bool {
    numerator < 50 * denominator
}

/// Computes the rank of a percentile among `total` entries.
pub fn rank_of(total: u64, numerator: u64, denominator: u64) -> (need: u64)
    requires
        is_percentage(numerator, denominator),
    ensures
        need == rank(total, numerator, denominator),
        need <= total,
{
    assert(total * numerator <= 0xffff_ffff_ffff_ffff * 0xffff_ffff_ffff_ffff) by (nonlinear_arith)
        requires
            total <= 0xffff_ffff_ffff_ffff,
            numerator <= 0xffff_ffff_ffff_ffff,
    ;
    let share: u128 = (total as u128) * (numerator as u128);
    let whole: u128 = 100 * (denominator as u128);
    let quotient: u128 = share / whole;
    let rest: u128 = share % whole;
    proof {
        lemma_fundamental_div_mod(share as int, whole as int);
        lemma_mod_bound(share as int, whole as int);
        assert(whole * quotient == quotient * whole) by (nonlinear_arith);
        assert(quotient <= total) by (nonlinear_arith)
            requires
                quotient * whole <= share,
                share == total * numerator,
                numerator <= whole,
                whole > 0,
                total >= 0,
        ;
        if rest > 0 {
            assert((quotient + 1) * whole == quotient * whole + whole) by (nonlinear_arith);
            lemma_ceil_unique(share as int, whole as int, quotient + 1);
            assert(quotient < total) by (nonlinear_arith)
                requires
                    quotient * whole < share,
                    share == total * numerator,
                    numerator <= whole,
                    whole > 0,
                    total >= 0,
            ;
        } else {
            lemma_ceil_unique(share as int, whole as int, quotient as int);
        }
    }
    let exact: u128 = if rest > 0 {
        quotient + 1
    } else {
        quotient
    };
    if exact > total as u128 {
        total
    } else {
        exact as u64
    }
}

/// The first bucket at or after `from` at which `have`, increased by the
/// counters from `from` on, reaches `need`; none where the counters run out
/// first.
pub open spec fn climb(counts: Seq<u64>, from: int, have: int, need: int) -> Option<int>
    decreases counts.len() - from,
{
    if from < 0 || from >= counts.len() {
        None
    } else if have + counts[from] >= need {
        Some(from)
    } else {
        climb(counts, from + 1, have + counts[from], need)
    }
}

/// The last bucket at or before `from` at which `have`, increased by the
/// counters from `from` downwards, reaches `need`; none where the counters
/// run out first.
pub open spec fn descend(counts: Seq<u64>, from: int, have: int, need: int) -> Option<int>
    decreases from + 1,
{
    if from < 0 || from >= counts.len() {
        None
    } else if have + counts[from] >= need {
        Some(from)
    } else {
        descend(counts, from - 1, have + counts[from], need)
    }
}

/// What `climb` finds is the one bucket at which the running sum crosses
/// `need`; it finds none exactly where all the counters do not reach it.
pub proof fn lemma_climb_crosses(counts: Seq<u64>, from: int, have: int, need: int)
    requires
        0 <= from <= counts.len(),
        have < need,
    ensures
        match climb(counts, from, have, need) {
            Some(at) => {
                &&& from <= at < counts.len()
                &&& have + sum_between(counts, from, at) < need
                &&& need <= have + sum_between(counts, from, at + 1)
            },
            None => have + sum_between(counts, from, counts.len() as int) < need,
        },
    decreases counts.len() - from,
{
    if from < counts.len() && have + counts[from] < need {
        lemma_climb_crosses(counts, from + 1, have + counts[from], need);
        match climb(counts, from, have, need) {
            Some(at) => {
                lemma_sum_between_first(counts, from, at);
                lemma_sum_between_first(counts, from, at + 1);
            },
            None => {
                lemma_sum_between_first(counts, from, counts.len() as int);
            },
        }
    }
}

/// What `descend` finds is the one bucket at which the running sum, taken
/// from the top, crosses `need`; it finds none exactly where all the
/// counters do not reach it.
pub proof fn lemma_descend_crosses(counts: Seq<u64>, from: int, have: int, need: int)
    requires
        -1 <= from < counts.len(),
        have < need,
    ensures
        match descend(counts, from, have, need) {
            Some(at) => {
                &&& 0 <= at <= from
                &&& have + sum_between(counts, at + 1, from + 1) < need
                &&& need <= have + sum_between(counts, at, from + 1)
            },
            None => have + sum_between(counts, 0, from + 1) < need,
        },
    decreases from + 1,
{
    if from >= 0 {
        if have + counts[from] >= need {
            assert(sum_between(counts, from, from) == 0);
        } else {
            lemma_descend_crosses(counts, from - 1, have + counts[from], need);
        }
    }
}

/// A search from the bottom for a larger count stops no earlier.
pub proof fn lemma_climb_monotonic(counts: Seq<u64>, have: int, low: int, high: int)
    requires
        have < low <= high,
        climb(counts, 0, have, low) is Some,
        climb(counts, 0, have, high) is Some,
    ensures
        climb(counts, 0, have, low).unwrap() <= climb(counts, 0, have, high).unwrap(),
{
    let first = climb(counts, 0, have, low).unwrap();
    let second = climb(counts, 0, have, high).unwrap();
    lemma_climb_crosses(counts, 0, have, low);
    lemma_climb_crosses(counts, 0, have, high);
    if second < first {
        lemma_sum_between_part(counts, 0, 0, second + 1, first);
    }
}

/// A search from the top for a larger count stops no later.
pub proof fn lemma_descend_monotonic(counts: Seq<u64>, have: int, low: int, high: int)
    requires
        have < low <= high,
        descend(counts, counts.len() - 1, have, low) is Some,
        descend(counts, counts.len() - 1, have, high) is Some,
    ensures
        descend(counts, counts.len() - 1, have, low).unwrap() >= descend(
            counts,
            counts.len() - 1,
            have,
            high,
        ).unwrap(),
{
    let top = counts.len() - 1;
    let first = descend(counts, top, have, low).unwrap();
    let second = descend(counts, top, have, high).unwrap();
    lemma_descend_crosses(counts, top, have, low);
    lemma_descend_crosses(counts, top, have, high);
    if second > first {
        lemma_sum_between_part(counts, first + 1, second, top + 1, top + 1);
    }
}

/// Searches upwards from the first bucket for the one at which `have`
/// plus the counters so far reaches `need`.
pub fn first_reaching_up(counts: &Vec<u64>, have: u64, need: u64) -> (found: Option<usize>)
    requires
        have < need,
    ensures
        match found {
            Some(at) => climb(counts@, 0, have as int, need as int) == Some(at as int),
            None => climb(counts@, 0, have as int, need as int) is None,
        },
{
    let mut at: usize = 0;
    let mut seen: u64 = have;
    while at < counts.len()
        invariant
            at <= counts.len(),
            seen < need,
            climb(counts@, 0, have as int, need as int) == climb(
                counts@,
                at as int,
                seen as int,
                need as int,
            ),
        decreases counts.len() - at,
    {
        let count: u64 = counts[at];
        if count >= need - seen {
            return Some(at);
        }
        seen = seen + count;
        at = at + 1;
    }
    None
}

/// Searches downwards from the last bucket for the one at which `have`
/// plus the counters so far reaches `need`.
pub fn first_reaching_down(counts: &Vec<u64>, have: u64, need: u64) -> (found: Option<usize>)
    requires
        have < need,
    ensures
        match found {
            Some(at) => descend(counts@, counts@.len() - 1, have as int, need as int) == Some(
                at as int,
            ),
            None => descend(counts@, counts@.len() - 1, have as int, need as int) is None,
        },
{
    let mut above: usize = counts.len();
    let mut seen: u64 = have;
    while above > 0
        invariant
            above <= counts.len(),
            seen < need,
            descend(counts@, counts@.len() - 1, have as int, need as int) == descend(
                counts@,
                above - 1,
                seen as int,
                need as int,
            ),
        decreases above,
    {
        let at: usize = above - 1;
        let count: u64 = counts[at];
        if count >= need - seen {
            return Some(at);
        }
        seen = seen + count;
        above = at;
    }
    None
}

} // verus!
