//! Weights of subtrees, and the laws of folder totals.

use crate::scan::ancestry::{
    branch_to, lemma_branch, lemma_removed_below, lemma_under_bound, lemma_under_transitive,
};
use crate::scan::node::{under, Tree};
use crate::scan::sums::{
    column_sums, lemma_sum_change_one, lemma_sum_congruent, lemma_sum_saturated, lemma_sum_single,
    lemma_sum_swap, lemma_sum_term, lemma_sum_zero, row_sums, saturated, sum,
};
use crate::scan::totals::Measure;
use vstd::prelude::*;

verus! {

/// The weights of what is `i` or lies below it.
pub open spec fn weight_at(t: Tree, g: spec_fn(int) -> nat, i: int) -> spec_fn(int) -> nat {
    |x: int|
        if under(t.arena@, x, i) {
            g(x)
        } else {
            0
        }
}

/// The weight of the subtree of `i`.
pub open spec fn weighed(t: Tree, g: spec_fn(int) -> nat, i: int) -> nat {
    sum(weight_at(t, g, i), 0, t.count())
}

/// The weights of the subtrees by id.
pub open spec fn subtree_weights(t: Tree, g: spec_fn(int) -> nat) -> spec_fn(int) -> nat {
    |i: int| weighed(t, g, i)
}

/// A subtree weighs what its root and the subtrees of its children weigh.
pub proof fn lemma_weighed_split(t: Tree, g: spec_fn(int) -> nat, i: int)
    requires
        t.shaped(),
        0 <= i < t.count(),
    ensures
        weighed(t, g, i) == g(i) + sum(
            subtree_weights(t, g),
            t.arena@[i].first_child as int,
            t.arena@[i].first_child + t.arena@[i].child_count,
        ),
{
    assert(t.ranged(i));
    let count = t.count();
    let first = t.arena@[i].first_child as int;
    let past = first + t.arena@[i].child_count;
    let here = weight_at(t, g, i);
    let below = |x: int|
        if x != i && under(t.arena@, x, i) {
            g(x)
        } else {
            0
        };
    assert(under(t.arena@, i, i));
    lemma_sum_change_one(below, here, 0, count, i);
    let cell = |k: int, x: int|
        if under(t.arena@, x, k) {
            g(x)
        } else {
            0
        };
    let columns = column_sums(cell, first, past);
    assert forall|x: int| 0 <= x < count implies #[trigger] below(x) == columns(x) by {
        let column = |k: int| cell(k, x);
        assert(columns(x) == sum(column, first, past));
        if x != i && under(t.arena@, x, i) {
            lemma_branch(t, x, i);
            let branch = branch_to(t.arena@, x, i);
            assert(t.linked(branch));
            assert forall|k: int| first <= k < past && k != branch implies #[trigger] column(k)
                == 0 by {
                assert(t.arena@[k].parent == i);
                assert(t.is_child(i, k));
                assert(under(t.arena@, x, k) <==> k == branch);
            }
            lemma_sum_single(column, first, past, branch);
        } else {
            assert forall|k: int| first <= k < past implies #[trigger] column(k) == 0 by {
                assert(t.arena@[k].parent == i);
                if under(t.arena@, x, k) {
                    assert(under(t.arena@, i, i));
                    assert(under(t.arena@, k, i));
                    lemma_under_transitive(t.arena@, x, k, i);
                    lemma_under_bound(t.arena@, x, k);
                }
            }
            lemma_sum_zero(column, first, past);
        }
    }
    lemma_sum_congruent(below, columns, 0, count);
    lemma_sum_swap(cell, first, past, 0, count);
    let rows = row_sums(cell, 0, count);
    let weights = subtree_weights(t, g);
    assert forall|k: int| first <= k < past implies #[trigger] rows(k) == weights(k) by {
        let row = |x: int| cell(k, x);
        lemma_sum_congruent(row, weight_at(t, g, k), 0, count);
    }
    lemma_sum_congruent(rows, weights, first, past);
}

/// What a node itself adds to the folders above it, leaving out what lies
/// below it; removed nodes add nothing.
pub open spec fn own_share(t: Tree, m: Measure) -> spec_fn(int) -> nat {
    |x: int|
        if t.arena@[x].removed {
            0
        } else if t.arena@[x].dir {
            if m == Measure::Folders {
                1
            } else {
                0
            }
        } else {
            t.share(m, x) as nat
        }
}

/// What the nodes strictly below `i` add.
pub open spec fn share_below(t: Tree, m: Measure, i: int) -> spec_fn(int) -> nat {
    |x: int|
        if x != i && under(t.arena@, x, i) {
            own_share(t, m)(x)
        } else {
            0
        }
}

/// The sum of what everything strictly below `i` adds, node by node.
pub open spec fn subtree_sum(t: Tree, m: Measure, i: int) -> nat {
    sum(share_below(t, m, i), 0, t.count())
}

proof fn lemma_subtree_sum(t: Tree, m: Measure, i: int)
    requires
        t.shaped(),
        0 <= i < t.count(),
    ensures
        weighed(t, own_share(t, m), i) == own_share(t, m)(i) + subtree_sum(t, m, i),
{
    assert(under(t.arena@, i, i));
    lemma_sum_change_one(
        share_below(t, m, i),
        weight_at(t, own_share(t, m), i),
        0,
        t.count(),
        i,
    );
}

/// What lies below a removed node weighs nothing.
proof fn lemma_removed_weight(t: Tree, m: Measure, i: int)
    requires
        t.shaped(),
        t.removal_closed(),
        0 <= i < t.count(),
        t.arena@[i].removed,
    ensures
        weighed(t, own_share(t, m), i) == 0,
{
    let f = weight_at(t, own_share(t, m), i);
    assert forall|x: int| 0 <= x < t.count() implies #[trigger] f(x) == 0 by {
        if under(t.arena@, x, i) {
            lemma_removed_below(t, x, i);
        }
    }
    lemma_sum_zero(f, 0, t.count());
}

/// A rolled-up folder stores the saturated sum of what everything below it
/// adds, node by node: the totals equal independent sums over the subtree.
pub proof fn law_totals_are_subtree_sums(t: Tree, m: Measure, i: int)
    requires
        t.shaped(),
        t.removal_closed(),
        t.rolled_up(),
        m.valid(),
        t.is_live_folder(i),
    ensures
        t.total(m, i) == saturated(subtree_sum(t, m, i)),
    decreases t.count() - i,
{
    let g = own_share(t, m);
    let first = t.arena@[i].first_child as int;
    let past = first + t.arena@[i].child_count;
    assert(t.ranged(i));
    lemma_subtree_sum(t, m, i);
    lemma_weighed_split(t, g, i);
    let weights = subtree_weights(t, g);
    let shares = t.live_share(m);
    assert forall|k: int| first <= k < past implies #[trigger] shares(k) == saturated(
        weights(k),
    ) by {
        assert(t.arena@[k].parent == i);
        if t.arena@[k].removed {
            lemma_removed_weight(t, m, k);
        } else if t.arena@[k].dir {
            law_totals_are_subtree_sums(t, m, k);
            lemma_subtree_sum(t, m, k);
        } else {
            assert(t.ranged(k));
            lemma_weighed_split(t, g, k);
        }
    }
    lemma_sum_saturated(shares, weights, first, past);
    assert(t.total(m, i) == saturated(t.children_sum(m, i)));
}

/// Where the sum of what lies below a folder fits, nothing at or below the
/// folder was saturated.
pub proof fn lemma_nothing_saturated(t: Tree, m: Measure, i: int)
    requires
        t.shaped(),
        t.removal_closed(),
        t.rolled_up(),
        m.valid(),
        t.is_live_folder(i),
        subtree_sum(t, m, i) <= u64::MAX,
    ensures
        t.total(m, i) == t.children_sum(m, i),
        forall|k: int|
            t.is_child(i, k) && #[trigger] t.is_live_folder(k) ==> {
                &&& subtree_sum(t, m, k) <= u64::MAX
                &&& t.share(m, k) == t.total(m, k) + own_share(t, m)(k)
            },
{
    let g = own_share(t, m);
    let first = t.arena@[i].first_child as int;
    let past = first + t.arena@[i].child_count;
    assert(t.ranged(i));
    lemma_subtree_sum(t, m, i);
    lemma_weighed_split(t, g, i);
    let weights = subtree_weights(t, g);
    let shares = t.live_share(m);
    assert(sum(weights, first, past) == subtree_sum(t, m, i));
    assert forall|k: int| first <= k < past implies #[trigger] shares(k) == weights(k) by {
        assert(t.arena@[k].parent == i);
        lemma_sum_term(weights, first, past, k);
        if t.arena@[k].removed {
            lemma_removed_weight(t, m, k);
        } else if t.arena@[k].dir {
            law_totals_are_subtree_sums(t, m, k);
            lemma_subtree_sum(t, m, k);
        } else {
            assert(t.ranged(k));
            lemma_weighed_split(t, g, k);
        }
    }
    lemma_sum_congruent(shares, weights, first, past);
    assert(t.total(m, i) == saturated(t.children_sum(m, i)));
    assert forall|k: int| t.is_child(i, k) && #[trigger] t.is_live_folder(k) implies {
        &&& subtree_sum(t, m, k) <= u64::MAX
        &&& t.share(m, k) == t.total(m, k) + own_share(t, m)(k)
    } by {
        assert(t.linked(k));
        lemma_sum_term(weights, first, past, k);
        law_totals_are_subtree_sums(t, m, k);
        lemma_subtree_sum(t, m, k);
    }
}

} // verus!
