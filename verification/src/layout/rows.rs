//! Splitting sizes into rows, as squarified strips do.
//!
//! A row takes one size after the other for as long as the caller finds that
//! its rectangles get no worse; then it is closed and the next one begins.

use crate::scan::listing_laws::law_sums_count_every_term;
use crate::scan::sums::{saturated, sum};
use vstd::prelude::*;

verus! {

/// The sizes by position.
pub open spec fn size_terms(sizes: Seq<u64>) -> spec_fn(int) -> nat {
    |k: int| sizes[k] as nat
}

/// The sizes `from..to` together.
pub open spec fn weight_of(sizes: Seq<u64>, from: int, to: int) -> nat {
    sum(size_terms(sizes), from, to)
}

/// All sizes together; the sum saturates.
pub fn total_weight(sizes: &[u64]) -> (total: u64)
    ensures
        total == saturated(weight_of(sizes@, 0, sizes@.len() as int)),
{
    let mut total: u64 = 0;
    let mut k: usize = 0;
    while k < sizes.len()
        invariant
            k <= sizes@.len(),
            total == saturated(weight_of(sizes@, 0, k as int)),
        decreases sizes@.len() - k,
    {
        total = total.saturating_add(sizes[k]);
        k = k + 1;
    }
    total
}

/// A finished row.
#[derive(Debug, Clone, Copy, PartialEq, Eq, Structural)]
pub struct Row {
    /// Position of its first size.
    pub begin: usize,
    /// Position behind its last size.
    pub end: usize,
    /// Its sizes together; the sum saturates.
    pub weight: u64,
}

/// What a row could take next.
#[derive(Debug, Clone, Copy, PartialEq, Eq, Structural)]
pub enum RowCandidate {
    /// Nothing: the sizes are used up, or the next one is zero.
    Nothing,
    /// The next size.
    Size {
        /// The size.
        size: u64,
        /// The largest size of the row, which is its first one.
        largest: u64,
        /// The row's weight with the size; the sum saturates.
        weight: u64,
    },
}

/// Sizes on their way into rows.
#[derive(Debug, Clone, Copy, PartialEq, Eq, Structural)]
pub struct RowSplit {
    /// Position of the first size of the row that is being filled.
    pub begin: usize,
    /// Position behind its last size.
    pub end: usize,
    /// Its sizes together; the sum saturates.
    pub weight: u64,
}

impl RowSplit {
    /// The row holds the sizes `begin..end`, none of them zero.
    pub open spec fn wf(&self, sizes: Seq<u64>) -> bool {
        &&& self.begin <= self.end <= sizes.len()
        &&& self.weight == saturated(weight_of(sizes, self.begin as int, self.end as int))
        &&& forall|k: int| self.begin <= k < self.end ==> (#[trigger] sizes[k]) > 0
    }

    /// Begin with the first size.
    pub fn start() -> (split: Self)
        ensures
            split == (RowSplit { begin: 0, end: 0, weight: 0 }),
            forall|sizes: Seq<u64>| #[trigger] split.wf(sizes),
    {
        RowSplit { begin: 0, end: 0, weight: 0 }
    }

    /// What the row could take next.
    pub fn candidate(&self, sizes: &[u64]) -> (candidate: RowCandidate)
        requires
            self.wf(sizes@),
        ensures
            candidate == if self.end >= sizes@.len() || sizes@[self.end as int] == 0 {
                RowCandidate::Nothing
            } else {
                RowCandidate::Size {
                    size: sizes@[self.end as int],
                    largest: sizes@[self.begin as int],
                    weight: saturated(weight_of(sizes@, self.begin as int, self.end + 1)),
                }
            },
    {
        if self.end >= sizes.len() || sizes[self.end] == 0 {
            return RowCandidate::Nothing;
        }
        RowCandidate::Size {
            size: sizes[self.end],
            largest: sizes[self.begin],
            weight: self.weight.saturating_add(sizes[self.end]),
        }
    }

    /// Take the next size into the row.
    pub fn accept(&mut self, sizes: &[u64])
        requires
            old(self).wf(sizes@),
            old(self).end < sizes@.len(),
            sizes@[old(self).end as int] > 0,
        ensures
            final(self).wf(sizes@),
            final(self).begin == old(self).begin,
            final(self).end == old(self).end + 1,
    {
        self.weight = self.weight.saturating_add(sizes[self.end]);
        self.end = self.end + 1;
    }

    /// Close the row and begin the next one; nothing where the row is empty.
    pub fn close(&mut self, sizes: &[u64]) -> (row: Option<Row>)
        requires
            old(self).wf(sizes@),
        ensures
            final(self).wf(sizes@),
            match row {
                Some(r) => {
                    &&& old(self).begin < old(self).end
                    &&& r.begin == old(self).begin
                    &&& r.end == old(self).end
                    &&& r.weight == saturated(weight_of(sizes@, r.begin as int, r.end as int))
                    &&& r.weight > 0
                    &&& *final(self) == (RowSplit { begin: r.end, end: r.end, weight: 0 })
                },
                None => old(self).begin == old(self).end && *final(self) == *old(self),
            },
    {
        if self.weight == 0 {
            proof {
                if self.begin < self.end {
                    crate::scan::sums::lemma_sum_term(
                        size_terms(sizes@),
                        self.begin as int,
                        self.end as int,
                        self.begin as int,
                    );
                    assert(sizes@[self.begin as int] > 0);
                }
            }
            return None;
        }
        let row: Row = Row { begin: self.begin, end: self.end, weight: self.weight };
        self.begin = row.end;
        self.weight = 0;
        Some(row)
    }
}

/// Weights add up: over one place there is one size, and over two stretches in a
/// row what they weigh together.
pub proof fn law_row_weights_add_up(sizes: Seq<u64>, from: int, mid: int, to: int)
    requires
        from <= mid <= to,
    ensures
        weight_of(sizes, from, from) == 0,
        weight_of(sizes, from, from + 1) == sizes[from],
        weight_of(sizes, from, to) == weight_of(sizes, from, mid) + weight_of(sizes, mid, to),
{
    law_sums_count_every_term(size_terms(sizes), from, mid, to);
}

} // verus!
