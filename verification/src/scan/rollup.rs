//! Roll-up: the totals of every folder, the latest change below it, and the order
//! of its children.

use crate::scan::dates::{date_folders, dated, lemma_dated_congruent, redated};
use crate::scan::node::Tree;
use crate::scan::order::{
    child_ids, laid_out, lemma_child_ids, lemma_laid_out_slice, lemma_same_shape,
    lemma_slice_ordered, listed, rebuild_order, relisted,
};
use crate::scan::sums::{lemma_sum_congruent, lemma_sum_first, saturated, sum};
use crate::scan::totals::{
    add_to, lemma_retotalled_frame, lemma_same_links_shaped, retotalled, same_links, shares_of,
    Measure, Shares,
};
use vstd::prelude::*;

verus! {

/// Nothing was rolled up or removed yet: the folders' totals and times are zero.
pub open spec fn fresh(t: Tree) -> bool {
    &&& t.shaped()
    &&& forall|i: int| 0 <= i < t.count() ==> !(#[trigger] t.arena@[i]).removed
    &&& forall|i: int, m: Measure|
        #![trigger t.total(m, i)]
        t.is_folder(i) && m.valid() ==> t.total(m, i) == 0
    &&& forall|i: int| #[trigger] t.is_folder(i) ==> t.extra(i).max_descendant_modified == 0
}

/// Files keep their sizes, and nothing is removed or brought back.
pub open spec fn same_files(pre: Tree, post: Tree) -> bool {
    forall|i: int|
        #![trigger post.arena@[i]]
        0 <= i < pre.count() ==> {
            &&& !pre.arena@[i].dir ==> post.arena@[i] == pre.arena@[i]
            &&& post.arena@[i].removed == pre.arena@[i].removed
        }
}

/// The sum of the shares of folder `i`'s children from id `from` on.
spec fn late_children_sum(t: Tree, m: Measure, i: int, from: int) -> nat {
    let first = t.arena@[i].first_child as int;
    sum(
        t.live_share(m),
        if first < from {
            from
        } else {
            first
        },
        first + t.arena@[i].child_count,
    )
}

spec fn rolled_from(t: Tree, from: int) -> bool {
    forall|i: int, m: Measure|
        #![trigger t.total(m, i)]
        t.is_folder(i) && m.valid() ==> t.total(m, i) == saturated(late_children_sum(t, m, i, from))
}

/// Adding node `j` to its parent rolls up one child more.
proof fn lemma_rolled_step(pre: Tree, post: Tree, j: int, shares: Shares)
    requires
        pre.shaped(),
        0 < j < pre.count(),
        forall|i: int| 0 <= i < pre.count() ==> !(#[trigger] pre.arena@[i]).removed,
        rolled_from(pre, j + 1),
        forall|m: Measure| m.valid() ==> #[trigger] shares.of(m) == pre.share(m, j),
        retotalled(pre, post, pre.arena@[j].parent as int),
        forall|m: Measure|
            m.valid() ==> #[trigger] post.total(m, pre.arena@[j].parent as int) == saturated(
                (pre.total(m, pre.arena@[j].parent as int) + shares.of(m)) as nat,
            ),
    ensures
        rolled_from(post, j),
{
    let p = pre.arena@[j].parent as int;
    assert(pre.linked(j));
    assert(pre.is_folder(p));
    assert forall|i: int, m: Measure|
        #![trigger post.total(m, i)]
        post.is_folder(i) && m.valid() implies post.total(m, i) == saturated(
        late_children_sum(post, m, i, j),
    ) by {
        assert(post.arena@[i].dir == pre.arena@[i].dir);
        assert(pre.is_folder(i));
        assert(pre.ranged(i));
        let first = pre.arena@[i].first_child as int;
        let past = first + pre.arena@[i].child_count;
        let lo = if first < j {
            j
        } else {
            first
        };
        let lo1 = if first < j + 1 {
            j + 1
        } else {
            first
        };
        let f = pre.live_share(m);
        let g = post.live_share(m);
        assert forall|k: int| lo <= k < past implies #[trigger] f(k) == g(k) by {
            assert(pre.arena@[k].parent == i);
            lemma_retotalled_frame(pre, post, p, m, k);
            assert(!pre.arena@[k].removed);
        }
        lemma_sum_congruent(f, g, lo, past);
        assert(post.arena@[i].first_child == pre.arena@[i].first_child);
        assert(post.arena@[i].child_count == pre.arena@[i].child_count);
        assert(pre.total(m, i) == saturated(late_children_sum(pre, m, i, j + 1)));
        if i == p {
            lemma_sum_first(f, j, past);
            assert(!pre.arena@[j].removed);
            assert(f(j) == shares.of(m) as nat);
            assert(lo == j && lo1 == j + 1);
        } else {
            lemma_retotalled_frame(pre, post, p, m, i);
            if first <= j < past {
                assert(pre.arena@[j].parent == i);
            }
            assert(sum(f, lo, past) == sum(f, lo1, past));
        }
    }
}

/// Roll up a freshly built tree: date and total every folder from the leaves to
/// the root, then list every folder's children, largest first.
pub fn finalize(tree: &mut Tree)
    requires
        fresh(*old(tree)),
    ensures
        same_links(*old(tree), *final(tree)),
        same_files(*old(tree), *final(tree)),
        final(tree).generation == old(tree).generation,
        final(tree).rolled_up(),
        dated(*final(tree)),
        laid_out(*final(tree), listed(*final(tree), true)),
        final(tree).wf(),
{
    let ghost pre = *tree;
    let count: usize = tree.arena.len();
    let mut i: usize = count;
    date_folders(tree);
    let ghost early = *tree;
    proof {
        lemma_redated_fresh(pre, early);
        assert forall|k: int, m: Measure|
            #![trigger tree.total(m, k)]
            tree.is_folder(k) && m.valid() implies tree.total(m, k) == saturated(
            late_children_sum(*tree, m, k, count as int),
        ) by {
            assert(tree.ranged(k));
            assert(pre.is_folder(k));
        }
    }
    while i > 1
        invariant
            1 <= i <= count,
            count == pre.count(),
            fresh(pre),
            same_links(pre, *tree),
            same_files(pre, *tree),
            tree.generation == pre.generation,
            tree.shaped(),
            rolled_from(*tree, i as int),
            early.shaped(),
            dated(early),
            early.arena@ == pre.arena@,
            same_times(early, *tree),
        decreases i,
    {
        i = i - 1;
        let ghost before = *tree;
        proof {
            assert(tree.linked(i as int));
            assert(tree.arena@[i as int] == tree.arena@[i as int]);
            assert forall|k: int| 0 <= k < tree.count() implies !(
            #[trigger] tree.arena@[k]).removed by {
                assert(!pre.arena@[k].removed);
            }
        }
        let parent: u32 = tree.arena[i].parent;
        let shares: Shares = shares_of(tree, i as u32);
        add_to(tree, parent, &shares);
        proof {
            lemma_rolled_step(before, *tree, i as int, shares);
            assert forall|k: int|
                #![trigger tree.extra(k)]
                early.is_folder(k) implies tree.extra(k).max_descendant_modified == early.extra(
                k,
            ).max_descendant_modified by {
                assert(before.arena@[k] == crate::scan::totals::relinked(
                    pre.arena@[k],
                    before.arena@[k],
                ));
                assert(before.is_folder(k));
                assert(before.extra(k).max_descendant_modified == early.extra(
                    k,
                ).max_descendant_modified);
                if k != parent {
                    lemma_retotalled_frame(before, *tree, parent as int, Measure::Files, k);
                }
            }
            assert forall|k: int| 0 <= k < pre.count() implies (#[trigger] tree.arena@[k])
                == crate::scan::totals::relinked(pre.arena@[k], tree.arena@[k]) by {
                assert(before.arena@[k] == crate::scan::totals::relinked(
                    pre.arena@[k],
                    before.arena@[k],
                ));
            }
            lemma_same_links_shaped(pre, *tree);
        }
    }
    let ghost rolled = *tree;
    rebuild_order(tree, true);
    proof {
        lemma_finalized(pre, rolled, *tree);
        assert forall|k: int|
            #![trigger tree.extra(k)]
            early.is_folder(k) implies tree.extra(k).max_descendant_modified == early.extra(
            k,
        ).max_descendant_modified by {
            assert(rolled.arena@[k] == crate::scan::totals::relinked(
                pre.arena@[k],
                rolled.arena@[k],
            ));
            assert(rolled.slotted(k));
            assert(rolled.extra(k).max_descendant_modified == early.extra(
                k,
            ).max_descendant_modified);
        }
        lemma_dated_congruent(early, *tree);
    }
}

/// The folders store the same latest changes.
spec fn same_times(a: Tree, b: Tree) -> bool {
    forall|k: int|
        #![trigger b.extra(k)]
        a.is_folder(k) ==> b.extra(k).max_descendant_modified == a.extra(k).max_descendant_modified
}

/// Storing the latest changes leaves the totals zero.
proof fn lemma_redated_fresh(pre: Tree, post: Tree)
    requires
        fresh(pre),
        redated(pre, post),
    ensures
        same_links(pre, post),
        same_files(pre, post),
        forall|i: int, m: Measure|
            #![trigger post.total(m, i)]
            post.is_folder(i) && m.valid() ==> post.total(m, i) == 0,
{
    assert forall|i: int, m: Measure|
        #![trigger post.total(m, i)]
        post.is_folder(i) && m.valid() implies post.total(m, i) == 0 by {
        assert(pre.is_folder(i));
        assert(pre.slotted(i));
        assert(pre.total(m, i) == 0);
        assert(post.dir_extras@[pre.arena@[i].dir_index as int] == post.extra(i));
    }
}

proof fn lemma_finalized(pre: Tree, rolled: Tree, post: Tree)
    requires
        fresh(pre),
        same_links(pre, rolled),
        same_files(pre, rolled),
        rolled.shaped(),
        rolled_from(rolled, 1),
        relisted(rolled, post),
        laid_out(post, listed(rolled, true)),
    ensures
        same_links(pre, post),
        same_files(pre, post),
        post.rolled_up(),
        laid_out(post, listed(post, true)),
        post.wf(),
{
    lemma_same_shape(rolled, post);
    assert forall|i: int, m: Measure|
        #![trigger post.total(m, i)]
        post.is_live_folder(i) && m.valid() implies post.total(m, i) == saturated(
        post.children_sum(m, i),
    ) by {
        assert(rolled.is_folder(i));
        assert(rolled.slotted(i));
        assert(rolled.ranged(i));
        assert(post.total(m, i) == rolled.total(m, i));
        assert(rolled.total(m, i) == saturated(late_children_sum(rolled, m, i, 1)));
        let first = rolled.arena@[i].first_child as int;
        let past = first + rolled.arena@[i].child_count;
        let f = rolled.live_share(m);
        let g = post.live_share(m);
        assert forall|k: int| first <= k < past implies #[trigger] f(k) == g(k) by {
            assert(rolled.slotted(k));
        }
        lemma_sum_congruent(f, g, first, past);
    }
    assert forall|i: int| 0 <= i < post.count() implies !(#[trigger] post.arena@[i]).removed by {
        assert(!pre.arena@[i].removed);
        assert(rolled.arena@[i].removed == pre.arena@[i].removed);
    }
    assert(listed(post, true) =~= listed(rolled, true)) by {
        assert forall|i: int| #[trigger] listed(post, true)(i) == listed(rolled, true)(i) by {
            assert(child_ids(post, i) =~= child_ids(rolled, i));
        }
    }
    assert forall|i: int| #[trigger] post.is_live_folder(i) implies post.slice_ordered(i) by {
        lemma_laid_out_slice(post, listed(post, true), i);
        lemma_child_ids(post, i);
        lemma_slice_ordered(post, i, child_ids(post, i));
    }
    assert forall|i: int| 0 < i < post.count() implies #[trigger] post.inherits_removal(i) by {
        assert(post.linked(i));
        assert(!post.arena@[i].removed);
        assert(!post.arena@[post.arena@[i].parent as int].removed);
    }
}

} // verus!
