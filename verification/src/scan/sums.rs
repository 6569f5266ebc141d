//! Finite sums over index ranges, and saturation.

use vstd::prelude::*;

verus! {

/// `x`, or the largest u64 when `x` does not fit.
pub open spec fn saturated(x: nat) -> u64 {
    if x > u64::MAX {
        u64::MAX
    } else {
        x as u64
    }
}

/// The sum of `f(i)` for `lo <= i < hi`.
pub open spec fn sum(f: spec_fn(int) -> nat, lo: int, hi: int) -> nat
    decreases hi - lo,
{
    if hi <= lo {
        0
    } else {
        sum(f, lo, hi - 1) + f(hi - 1)
    }
}

/// Equal terms, equal sums.
pub proof fn lemma_sum_congruent(f: spec_fn(int) -> nat, g: spec_fn(int) -> nat, lo: int, hi: int)
    requires
        forall|i: int| lo <= i < hi ==> #[trigger] f(i) == g(i),
    ensures
        sum(f, lo, hi) == sum(g, lo, hi),
    decreases hi - lo,
{
    if lo < hi {
        lemma_sum_congruent(f, g, lo, hi - 1);
    }
}

/// A sum of zeros is zero.
pub proof fn lemma_sum_zero(f: spec_fn(int) -> nat, lo: int, hi: int)
    requires
        forall|i: int| lo <= i < hi ==> #[trigger] f(i) == 0,
    ensures
        sum(f, lo, hi) == 0,
    decreases hi - lo,
{
    if lo < hi {
        lemma_sum_zero(f, lo, hi - 1);
    }
}

/// Larger terms, larger sum.
pub proof fn lemma_sum_monotone(f: spec_fn(int) -> nat, g: spec_fn(int) -> nat, lo: int, hi: int)
    requires
        forall|i: int| lo <= i < hi ==> #[trigger] f(i) <= g(i),
    ensures
        sum(f, lo, hi) <= sum(g, lo, hi),
    decreases hi - lo,
{
    if lo < hi {
        lemma_sum_monotone(f, g, lo, hi - 1);
    }
}

/// One term is at most the sum.
pub proof fn lemma_sum_term(f: spec_fn(int) -> nat, lo: int, hi: int, k: int)
    requires
        lo <= k < hi,
    ensures
        f(k) <= sum(f, lo, hi),
    decreases hi - lo,
{
    if k < hi - 1 {
        lemma_sum_term(f, lo, hi - 1, k);
    }
}

/// The first term taken out of a sum.
pub proof fn lemma_sum_first(f: spec_fn(int) -> nat, lo: int, hi: int)
    requires
        lo < hi,
    ensures
        sum(f, lo, hi) == f(lo) + sum(f, lo + 1, hi),
    decreases hi - lo,
{
    if lo + 1 < hi {
        lemma_sum_first(f, lo, hi - 1);
    } else {
        assert(sum(f, lo, lo) == 0);
        assert(sum(f, lo + 1, hi) == 0);
    }
}

/// Changing one term changes the sum by as much.
pub proof fn lemma_sum_change_one(
    f: spec_fn(int) -> nat,
    g: spec_fn(int) -> nat,
    lo: int,
    hi: int,
    k: int,
)
    requires
        lo <= k < hi,
        forall|i: int| lo <= i < hi && i != k ==> #[trigger] f(i) == g(i),
    ensures
        sum(g, lo, hi) + f(k) == sum(f, lo, hi) + g(k),
    decreases hi - lo,
{
    if k < hi - 1 {
        lemma_sum_change_one(f, g, lo, hi - 1, k);
    } else {
        lemma_sum_congruent(f, g, lo, hi - 1);
    }
}

/// Sums add up term by term.
pub proof fn lemma_sum_add(
    f: spec_fn(int) -> nat,
    g: spec_fn(int) -> nat,
    h: spec_fn(int) -> nat,
    lo: int,
    hi: int,
)
    requires
        forall|i: int| lo <= i < hi ==> #[trigger] h(i) == f(i) + g(i),
    ensures
        sum(h, lo, hi) == sum(f, lo, hi) + sum(g, lo, hi),
    decreases hi - lo,
{
    if lo < hi {
        lemma_sum_add(f, g, h, lo, hi - 1);
    }
}

/// Counting the indices of a subrange gives its length.
pub proof fn lemma_sum_range_count(f: spec_fn(int) -> nat, lo: int, hi: int, from: int, to: int)
    requires
        lo <= from <= to <= hi || (to <= from && lo <= hi),
        forall|i: int|
            lo <= i < hi ==> #[trigger] f(i) == if from <= i < to {
                1nat
            } else {
                0
            },
    ensures
        sum(f, lo, hi) == if from <= to {
            to - from
        } else {
            0
        },
    decreases hi - lo,
{
    if from >= to {
        lemma_sum_zero(f, lo, hi);
    } else if to == hi {
        if from == hi - 1 {
            lemma_sum_zero(f, lo, hi - 1);
        } else {
            lemma_sum_range_count(f, lo, hi - 1, from, to - 1);
        }
    } else {
        lemma_sum_range_count(f, lo, hi - 1, from, to);
    }
}

/// A sum with one term that can differ from zero is that term.
pub proof fn lemma_sum_single(f: spec_fn(int) -> nat, lo: int, hi: int, k: int)
    requires
        lo <= k < hi,
        forall|i: int| lo <= i < hi && i != k ==> #[trigger] f(i) == 0,
    ensures
        sum(f, lo, hi) == f(k),
{
    let zero = |i: int| 0nat;
    lemma_sum_zero(zero, lo, hi);
    lemma_sum_change_one(zero, f, lo, hi, k);
}

/// The sums of the rows of `f`.
pub open spec fn row_sums(f: spec_fn(int, int) -> nat, lo: int, hi: int) -> spec_fn(int) -> nat {
    |a: int| sum(|b: int| f(a, b), lo, hi)
}

/// The sums of the columns of `f`.
pub open spec fn column_sums(f: spec_fn(int, int) -> nat, lo: int, hi: int) -> spec_fn(
    int,
) -> nat {
    |b: int| sum(|a: int| f(a, b), lo, hi)
}

/// Summing by rows and summing by columns give the same.
pub proof fn lemma_sum_swap(
    f: spec_fn(int, int) -> nat,
    from: int,
    to: int,
    lo: int,
    hi: int,
)
    ensures
        sum(row_sums(f, lo, hi), from, to) == sum(column_sums(f, from, to), lo, hi),
    decreases to - from,
{
    if to <= from {
        lemma_sum_zero(column_sums(f, from, to), lo, hi);
    } else {
        lemma_sum_swap(f, from, to - 1, lo, hi);
        let last = |b: int| f(to - 1, b);
        let before = column_sums(f, from, to - 1);
        let whole = column_sums(f, from, to);
        assert forall|b: int| lo <= b < hi implies #[trigger] whole(b) == before(b) + last(b) by {
            let column = |a: int| f(a, b);
            assert(sum(column, from, to) == sum(column, from, to - 1) + column(to - 1));
        }
        lemma_sum_add(before, last, whole, lo, hi);
    }
}

/// Saturating the terms does not change a saturated sum.
pub proof fn lemma_sum_saturated(f: spec_fn(int) -> nat, g: spec_fn(int) -> nat, lo: int, hi: int)
    requires
        forall|i: int| lo <= i < hi ==> #[trigger] f(i) == saturated(g(i)),
    ensures
        saturated(sum(f, lo, hi)) == saturated(sum(g, lo, hi)),
    decreases hi - lo,
{
    if lo < hi {
        lemma_sum_saturated(f, g, lo, hi - 1);
        assert(f(hi - 1) == saturated(g(hi - 1)));
    }
}

} // verus!
