//! The laws of tree surgery.

use crate::scan::ancestry::{
    lemma_removed_below, lemma_under_bound, lemma_under_congruent, lemma_under_root,
    lemma_under_transitive,
};
use crate::scan::node::{under, Tree};
use crate::scan::order::lemma_packed_congruent;
use crate::scan::sums::{
    lemma_sum_add, lemma_sum_congruent, lemma_sum_monotone, lemma_sum_single, lemma_sum_zero,
    saturated,
};
use crate::scan::surgery::{
    cut, cut_share, cut_total, doomed, kept_list, less, live_mark, operated, valid_root,
    RemovedSummary,
};
use crate::scan::totals::{relinked, same_besides_totals, Measure};
use crate::scan::weights::{
    law_totals_are_subtree_sums, lemma_nothing_saturated, lemma_weighed_split, share_below,
    subtree_sum, subtree_weights, weight_at, weighed,
};
use vstd::prelude::*;

verus! {

/// The same surgery a second time changes nothing and reports nothing.
pub proof fn law_second_surgery_is_noop(
    t: Tree,
    roots: Seq<u32>,
    once: Tree,
    first: RemovedSummary,
    twice: Tree,
    second: RemovedSummary,
)
    requires
        t.wf(),
        once.wf(),
        operated(t, roots, once, first),
        operated(once, roots, twice, second),
    ensures
        second == RemovedSummary::nothing(),
        twice == once,
{
    assert forall|i: int| 0 <= i < t.count() implies (#[trigger] once.arena@[i]).parent
        == t.arena@[i].parent by {
        assert(once.arena@[i] == relinked(t.arena@[i], once.arena@[i]));
    }
    assert forall|i: int| 0 <= i < t.count() && #[trigger] doomed(
        once,
        roots,
        i,
    ) implies once.arena@[i].removed by {
        let r = choose|r: int| #[trigger] valid_root(once, roots, r) && under(once.arena@, i, r);
        lemma_under_congruent(t.arena@, once.arena@, i, r);
        assert(valid_root(t, roots, r));
        assert(doomed(t, roots, i));
    }
    let before = live_mark(once);
    let after = live_mark(twice);
    assert forall|i: int| 0 <= i < t.count() implies #[trigger] before(i) == after(i) by {
        assert(twice.arena@[i].removed == (once.arena@[i].removed || doomed(once, roots, i)));
    }
    lemma_sum_congruent(before, after, 0, t.count());
    assert(second.nodes == 0);
    lemma_nothing_cut(once, roots, Measure::OnDisk);
    lemma_nothing_cut(once, roots, Measure::Logical);
    lemma_nothing_cut(once, roots, Measure::Files);
    lemma_nothing_cut(once, roots, Measure::Folders);
}

/// Where all valid roots are gone, nothing is cut.
proof fn lemma_nothing_cut(t: Tree, roots: Seq<u32>, m: Measure)
    requires
        forall|i: int| 0 <= i < t.count() && #[trigger] doomed(t, roots, i) ==> t.arena@[i].removed,
    ensures
        cut_total(t, roots, m, 0) == 0,
{
    let f = cut_share(t, roots, m, 0);
    assert forall|j: int| 0 <= j < t.count() implies #[trigger] f(j) == 0 by {
        if cut(t, roots, j) {
            assert(under(t.arena@, j, j));
            assert(valid_root(t, roots, j));
            assert(doomed(t, roots, j));
        }
    }
    lemma_sum_zero(f, 0, t.count());
}

/// The scan root's totals shrink by what the summary reports.
pub proof fn law_root_total_shrinks_by_summary(
    pre: Tree,
    roots: Seq<u32>,
    post: Tree,
    summary: RemovedSummary,
)
    requires
        pre.wf(),
        operated(pre, roots, post, summary),
    ensures
        post.total(Measure::OnDisk, 0) == pre.total(Measure::OnDisk, 0).saturating_sub(
            summary.on_disk,
        ),
        post.total(Measure::Logical, 0) == pre.total(Measure::Logical, 0).saturating_sub(
            summary.logical,
        ),
        post.total(Measure::Files, 0) == pre.total(Measure::Files, 0).saturating_sub(summary.files),
        post.total(Measure::Folders, 0) == pre.total(Measure::Folders, 0).saturating_sub(
            summary.folders,
        ),
{
    law_scan_root_survives(pre, roots, post, summary);
    assert(pre.is_folder(0));
    assert(post.total(Measure::OnDisk, 0) == less(
        pre.total(Measure::OnDisk, 0),
        cut_total(pre, roots, Measure::OnDisk, 0),
    ));
    assert(post.total(Measure::Logical, 0) == less(
        pre.total(Measure::Logical, 0),
        cut_total(pre, roots, Measure::Logical, 0),
    ));
    assert(post.total(Measure::Files, 0) == less(
        pre.total(Measure::Files, 0),
        cut_total(pre, roots, Measure::Files, 0),
    ));
    assert(post.total(Measure::Folders, 0) == less(
        pre.total(Measure::Folders, 0),
        cut_total(pre, roots, Measure::Folders, 0),
    ));
}

/// No surgery removes the scan root.
pub proof fn law_scan_root_survives(
    pre: Tree,
    roots: Seq<u32>,
    post: Tree,
    summary: RemovedSummary,
)
    requires
        pre.wf(),
        operated(pre, roots, post, summary),
    ensures
        !post.arena@[0].removed,
{
    assert(post.arena@[0].removed == (pre.arena@[0].removed || doomed(pre, roots, 0)));
    if doomed(pre, roots, 0) {
        let r = choose|r: int| #[trigger] valid_root(pre, roots, r) && under(pre.arena@, 0, r);
        lemma_under_bound(pre.arena@, 0, r);
    }
}

/// A surgery that asks for the scan root and for unknown ids alone changes
/// nothing and reports nothing.
pub proof fn law_scan_root_is_never_cut(
    pre: Tree,
    roots: Seq<u32>,
    post: Tree,
    summary: RemovedSummary,
)
    requires
        pre.wf(),
        operated(pre, roots, post, summary),
        forall|k: int|
            0 <= k < roots.len() ==> (#[trigger] roots[k]) == 0 || roots[k] >= pre.count(),
    ensures
        summary == RemovedSummary::nothing(),
        post == pre,
{
    assert forall|r: int| !#[trigger] valid_root(pre, roots, r) by {
        if valid_root(pre, roots, r) {
            let k = choose|k: int| 0 <= k < roots.len() && roots[k] == r as u32;
            assert(roots[k] == 0 || roots[k] >= pre.count());
        }
    }
    let before = live_mark(pre);
    let after = live_mark(post);
    assert forall|i: int| 0 <= i < pre.count() implies #[trigger] before(i) == after(i) by {
        assert(post.arena@[i].removed == (pre.arena@[i].removed || doomed(pre, roots, i)));
    }
    lemma_sum_congruent(before, after, 0, pre.count());
    lemma_nothing_cut(pre, roots, Measure::OnDisk);
    lemma_nothing_cut(pre, roots, Measure::Logical);
    lemma_nothing_cut(pre, roots, Measure::Files);
    lemma_nothing_cut(pre, roots, Measure::Folders);
}

/// After a surgery no folder that is left lists a removed child: its list
/// holds children of its own that were not removed, each once, largest first.
pub proof fn law_lists_hold_survivors(post: Tree, i: int)
    requires
        post.wf(),
        post.is_live_folder(i),
    ensures
        post.slice(i).no_duplicates(),
        forall|k: int|
            0 <= k < post.slice(i).len() ==> {
                let kid = #[trigger] post.slice(i)[k] as int;
                kid < post.count() && !post.arena@[kid].removed && post.is_child(i, kid)
            },
        forall|j: int|
            0 <= j < post.count() && !post.arena@[j].removed && #[trigger] post.is_child(i, j)
                ==> post.slice(i).contains(j as u32),
        forall|k: int, l: int|
            0 <= k < l < post.slice(i).len() ==> post.arena@[(#[trigger] post.slice(
                i,
            )[k]) as int].on_disk >= post.arena@[(#[trigger] post.slice(i)[l]) as int].on_disk,
{
    assert(post.slice_ordered(i));
    assert forall|k: int| 0 <= k < post.slice(i).len() implies {
        let kid = #[trigger] post.slice(i)[k] as int;
        kid < post.count() && !post.arena@[kid].removed && post.is_child(i, kid)
    } by {
        let kid = post.slice(i)[k];
        assert(post.slice(i).contains((kid as int) as u32));
    }
    assert forall|j: int|
        0 <= j < post.count() && !post.arena@[j].removed && #[trigger] post.is_child(
            i,
            j,
        ) implies post.slice(i).contains(j as u32) by {
        assert(post.slice(i).contains(j as u32) <==> post.is_child(i, j)
            && !post.arena@[j].removed);
    }
}

/// A surgery that removes something moves the generation on by one, as far as
/// there is a next one; a surgery that removes nothing leaves it.
pub proof fn law_generation_counts_surgeries(
    pre: Tree,
    roots: Seq<u32>,
    post: Tree,
    summary: RemovedSummary,
)
    requires
        operated(pre, roots, post, summary),
    ensures
        pre.generation <= post.generation <= pre.generation + 1,
        summary.nodes == 0 ==> post.generation == pre.generation,
        summary.nodes > 0 && pre.generation < u64::MAX ==> post.generation == pre.generation + 1,
{
}

/// A removed node stays removed, keeps its id, its name and its place.
pub proof fn law_ids_are_never_reused(
    pre: Tree,
    roots: Seq<u32>,
    post: Tree,
    summary: RemovedSummary,
    i: int,
)
    requires
        operated(pre, roots, post, summary),
        0 <= i < pre.count(),
    ensures
        post.count() == pre.count(),
        pre.arena@[i].removed ==> post.arena@[i].removed,
        post.arena@[i].parent == pre.arena@[i].parent,
        post.arena@[i].name_start == pre.arena@[i].name_start,
        post.arena@[i].name_end == pre.arena@[i].name_end,
        post.names == pre.names,
{
    assert(post.arena@[i] == relinked(pre.arena@[i], post.arena@[i]));
}

/// A root below another root is absorbed by it: asking for both does what
/// asking for the upper one does.
pub proof fn law_nested_root_is_absorbed(
    pre: Tree,
    roots: Seq<u32>,
    nested: u32,
    top: u32,
    post: Tree,
    summary: RemovedSummary,
)
    requires
        pre.wf(),
        valid_root(pre, roots, top as int),
        nested < pre.count(),
        under(pre.arena@, nested as int, top as int),
    ensures
        operated(pre, roots.push(nested), post, summary) <==> operated(pre, roots, post, summary),
{
    let more = roots.push(nested);
    assert forall|r: int| #[trigger] valid_root(pre, more, r) <==> valid_root(pre, roots, r) || r
        == nested by {
        lemma_under_bound(pre.arena@, nested as int, top as int);
        if valid_root(pre, more, r) {
            let k = choose|k: int| 0 <= k < more.len() && more[k] == r as u32;
            if k < roots.len() {
                assert(roots[k] == r as u32);
            }
        }
        if valid_root(pre, roots, r) {
            let k = choose|k: int| 0 <= k < roots.len() && roots[k] == r as u32;
            assert(more[k] == r as u32);
        }
        assert(more[roots.len() as int] == nested);
    }
    assert forall|i: int| 0 <= i < pre.count() implies #[trigger] doomed(pre, more, i) == doomed(
        pre,
        roots,
        i,
    ) by {
        if doomed(pre, more, i) {
            let r = choose|r: int| #[trigger] valid_root(pre, more, r) && under(pre.arena@, i, r);
            if !valid_root(pre, roots, r) {
                lemma_under_transitive(pre.arena@, i, r, top as int);
            }
        }
        if doomed(pre, roots, i) {
            let r = choose|r: int| #[trigger] valid_root(pre, roots, r) && under(pre.arena@, i, r);
            assert(valid_root(pre, more, r));
        }
    }
    assert forall|j: int| 0 <= j < pre.count() implies #[trigger] cut(pre, more, j) == cut(
        pre,
        roots,
        j,
    ) by {
        lemma_absorbed_cut(pre, roots, more, nested, top, j);
    }
    assert forall|m: Measure, i: int| #[trigger]
        cut_total(pre, more, m, i) == cut_total(pre, roots, m, i) by {
        let f = cut_share(pre, more, m, i);
        let g = cut_share(pre, roots, m, i);
        assert forall|j: int| 0 <= j < pre.count() implies #[trigger] f(j) == g(j) by {
            assert(cut(pre, more, j) == cut(pre, roots, j));
        }
        lemma_sum_congruent(f, g, 0, pre.count());
    }
    lemma_same_effect(pre, more, roots, post, summary);
    lemma_same_effect(pre, roots, more, post, summary);
}

proof fn lemma_absorbed_cut(
    t: Tree,
    roots: Seq<u32>,
    more: Seq<u32>,
    nested: u32,
    top: u32,
    j: int,
)
    requires
        t.wf(),
        0 <= j < t.count(),
        valid_root(t, roots, top as int),
        nested < t.count(),
        under(t.arena@, nested as int, top as int),
        forall|r: int| #[trigger]
            valid_root(t, more, r) <==> valid_root(t, roots, r) || r == nested,
    ensures
        cut(t, more, j) == cut(t, roots, j),
{
    assert(valid_root(t, more, top as int));
    if cut(t, more, j) {
        assert(valid_root(t, roots, j)) by {
            if j == nested {
                assert(top == nested);
            }
        }
        assert forall|q: int| #[trigger] valid_root(t, roots, q) && under(
            t.arena@,
            j,
            q,
        ) implies q == j by {
            assert(valid_root(t, more, q));
        }
    }
    if cut(t, roots, j) {
        assert(valid_root(t, more, j));
        assert forall|q: int| #[trigger] valid_root(t, more, q) && under(
            t.arena@,
            j,
            q,
        ) implies q == j by {
            if !valid_root(t, roots, q) {
                lemma_under_transitive(t.arena@, j, q, top as int);
                lemma_under_bound(t.arena@, j, q);
                lemma_under_bound(t.arena@, q, top as int);
            }
        }
    }
}

/// Roots that doom and cut the same have the same effect.
proof fn lemma_same_effect(
    pre: Tree,
    roots: Seq<u32>,
    others: Seq<u32>,
    post: Tree,
    summary: RemovedSummary,
)
    requires
        forall|i: int|
            0 <= i < pre.count() ==> #[trigger] doomed(pre, roots, i) == doomed(pre, others, i),
        forall|i: int|
            0 <= i < pre.count() ==> #[trigger] doomed(pre, others, i) == doomed(pre, roots, i),
        forall|m: Measure, i: int| #[trigger]
            cut_total(pre, roots, m, i) == cut_total(pre, others, m, i),
        forall|m: Measure, i: int| #[trigger]
            cut_total(pre, others, m, i) == cut_total(pre, roots, m, i),
    ensures
        operated(pre, roots, post, summary) ==> operated(pre, others, post, summary),
{
    if operated(pre, roots, post, summary) {
        assert forall|i: int| 0 <= i < pre.count() implies (#[trigger] post.arena@[i]).removed == (
        pre.arena@[i].removed || doomed(pre, others, i)) by {
            assert(doomed(pre, roots, i) == doomed(pre, others, i));
        }
        assert forall|i: int, m: Measure|
            #![trigger post.total(m, i)]
            pre.is_folder(i) && m.valid() implies post.total(m, i) == if post.arena@[i].removed {
            pre.total(m, i)
        } else {
            less(pre.total(m, i), cut_total(pre, others, m, i))
        } by {
            assert(cut_total(pre, roots, m, i) == cut_total(pre, others, m, i));
        }
    }
}

/// A node is gone exactly when it or one of its ancestors was removed.
pub proof fn law_gone_below_removed(t: Tree, id: int)
    requires
        t.wf(),
        0 <= id < t.count(),
    ensures
        t.arena@[id].removed <==> exists|q: int| #[trigger]
            under(t.arena@, id, q) && t.arena@[q].removed,
{
    if t.arena@[id].removed {
        assert(under(t.arena@, id, id));
    }
    if exists|q: int| #[trigger] under(t.arena@, id, q) && t.arena@[q].removed {
        let q = choose|q: int| #[trigger] under(t.arena@, id, q) && t.arena@[q].removed;
        lemma_removed_below(t, id, q);
    }
}

/// The shares of the cut roots by id.
spec fn cut_weight(t: Tree, roots: Seq<u32>, m: Measure) -> spec_fn(int) -> nat {
    |j: int|
        if cut(t, roots, j) {
            t.share(m, j) as nat
        } else {
            0
        }
}

proof fn lemma_cut_weighed(t: Tree, roots: Seq<u32>, m: Measure, i: int)
    ensures
        cut_total(t, roots, m, i) == weighed(t, cut_weight(t, roots, m), i),
{
    lemma_sum_congruent(
        cut_share(t, roots, m, i),
        weight_at(t, cut_weight(t, roots, m), i),
        0,
        t.count(),
    );
}

/// Nothing but `i` itself is cut at or below a cut `i`, and nothing at all at or
/// below what was removed.
proof fn lemma_cut_alone(t: Tree, roots: Seq<u32>, m: Measure, i: int)
    requires
        t.wf(),
        0 <= i < t.count(),
        cut(t, roots, i) || t.arena@[i].removed,
    ensures
        cut_total(t, roots, m, i) == if t.arena@[i].removed {
            0
        } else {
            t.share(m, i) as nat
        },
{
    let f = cut_share(t, roots, m, i);
    assert forall|j: int| 0 <= j < t.count() && j != i implies #[trigger] f(j) == 0 by {
        if cut(t, roots, j) && under(t.arena@, j, i) {
            if t.arena@[i].removed {
                lemma_removed_below(t, j, i);
            } else {
                assert(valid_root(t, roots, i));
            }
        }
    }
    assert(under(t.arena@, i, i));
    lemma_sum_single(f, 0, t.count(), i);
}

/// The cut takes no more from a folder than it holds.
proof fn lemma_cut_fits(t: Tree, roots: Seq<u32>, m: Measure, i: int)
    requires
        t.wf(),
        t.rolled_up(),
        m.valid(),
        0 <= i < t.count(),
        !t.arena@[i].removed,
        !cut(t, roots, i),
        t.arena@[i].dir ==> subtree_sum(t, m, i) <= u64::MAX,
    ensures
        cut_total(t, roots, m, i) <= if t.arena@[i].dir {
            t.total(m, i)
        } else {
            0
        },
    decreases t.count() - i,
{
    let g = cut_weight(t, roots, m);
    lemma_cut_weighed(t, roots, m, i);
    lemma_weighed_split(t, g, i);
    assert(t.ranged(i));
    let first = t.arena@[i].first_child as int;
    let past = first + t.arena@[i].child_count;
    let weights = subtree_weights(t, g);
    let shares = t.live_share(m);
    if t.arena@[i].dir {
        assert(t.is_live_folder(i));
        lemma_nothing_saturated(t, m, i);
        assert forall|k: int| first <= k < past implies #[trigger] weights(k) <= shares(k) by {
            assert(t.arena@[k].parent == i);
            lemma_cut_weighed(t, roots, m, k);
            if t.arena@[k].removed || cut(t, roots, k) {
                lemma_cut_alone(t, roots, m, k);
            } else {
                assert(t.is_child(i, k));
                assert(t.arena@[k].dir ==> t.is_live_folder(k));
                lemma_cut_fits(t, roots, m, k);
            }
        }
        lemma_sum_monotone(weights, shares, first, past);
    }
}

/// A child of a folder that is left is cut, or is not doomed at all.
proof fn lemma_doomed_child(t: Tree, roots: Seq<u32>, i: int, k: int)
    requires
        t.wf(),
        t.is_child(i, k),
        0 <= i,
        !t.arena@[k].removed,
        !doomed(t, roots, i),
    ensures
        doomed(t, roots, k) <==> cut(t, roots, k),
{
    assert(t.linked(k));
    if cut(t, roots, k) {
        assert(under(t.arena@, k, k));
        assert(valid_root(t, roots, k));
    }
    if doomed(t, roots, k) {
        let r = choose|r: int| #[trigger] valid_root(t, roots, r) && under(t.arena@, k, r);
        assert(r == k);
        assert forall|q: int| #[trigger] valid_root(t, roots, q) && under(
            t.arena@,
            k,
            q,
        ) implies q == k by {}
    }
}

/// Surgery keeps the roll-up: where the sum of what lies below a folder fits,
/// the folder stores, if it is left, the sum of what the children it is left
/// with add; and what lies below it has not grown.
pub proof fn law_folder_keeps_rollup(
    pre: Tree,
    roots: Seq<u32>,
    post: Tree,
    summary: RemovedSummary,
    m: Measure,
    i: int,
)
    requires
        pre.wf(),
        pre.rolled_up(),
        operated(pre, roots, post, summary),
        m.valid(),
        post.is_live_folder(i),
        subtree_sum(pre, m, i) <= u64::MAX,
    ensures
        post.total(m, i) == post.children_sum(m, i),
        subtree_sum(post, m, i) <= subtree_sum(pre, m, i),
{
    assert(post.arena@[i] == relinked(pre.arena@[i], post.arena@[i]));
    assert(pre.is_folder(i));
    assert(!pre.arena@[i].removed && !doomed(pre, roots, i));
    assert(!cut(pre, roots, i)) by {
        if cut(pre, roots, i) {
            assert(under(pre.arena@, i, i));
            assert(valid_root(pre, roots, i));
        }
    }
    let g = cut_weight(pre, roots, m);
    lemma_nothing_saturated(pre, m, i);
    lemma_cut_fits(pre, roots, m, i);
    lemma_cut_weighed(pre, roots, m, i);
    lemma_weighed_split(pre, g, i);
    assert(pre.ranged(i));
    let first = pre.arena@[i].first_child as int;
    let past = first + pre.arena@[i].child_count;
    let weights = subtree_weights(pre, g);
    let shares = pre.live_share(m);
    let left = post.live_share(m);
    assert forall|k: int| first <= k < past implies #[trigger] shares(k) == left(k)
        + weights(k) by {
        assert(pre.arena@[k].parent == i);
        assert(post.arena@[k] == relinked(pre.arena@[k], post.arena@[k]));
        assert(post.arena@[k].removed == (pre.arena@[k].removed || doomed(pre, roots, k)));
        lemma_cut_weighed(pre, roots, m, k);
        if pre.arena@[k].removed {
            lemma_cut_alone(pre, roots, m, k);
        } else {
            lemma_doomed_child(pre, roots, i, k);
            if cut(pre, roots, k) {
                lemma_cut_alone(pre, roots, m, k);
            } else {
                assert(pre.is_child(i, k));
                assert(pre.arena@[k].dir ==> pre.is_live_folder(k));
                lemma_cut_fits(pre, roots, m, k);
                if pre.arena@[k].dir {
                    assert(pre.is_folder(k));
                    assert(post.total(m, k) == less(
                        pre.total(m, k),
                        cut_total(pre, roots, m, k),
                    ));
                }
            }
        }
    }
    lemma_sum_add(left, weights, shares, first, past);
    let before = share_below(pre, m, i);
    let after = share_below(post, m, i);
    assert forall|x: int| 0 <= x < pre.count() implies (#[trigger] post.arena@[x]).parent
        == pre.arena@[x].parent by {
        assert(post.arena@[x] == relinked(pre.arena@[x], post.arena@[x]));
    }
    assert forall|x: int| 0 <= x < pre.count() implies #[trigger] after(x) <= before(x) by {
        lemma_under_congruent(pre.arena@, post.arena@, x, i);
        assert(post.arena@[x] == relinked(pre.arena@[x], post.arena@[x]));
        assert(post.arena@[x].removed == (pre.arena@[x].removed || doomed(pre, roots, x)));
    }
    lemma_sum_monotone(after, before, 0, pre.count());
}

/// Where the sums over the whole scan fit, a rolled-up tree is rolled up after
/// surgery too.
pub proof fn law_surgery_keeps_rollup(
    pre: Tree,
    roots: Seq<u32>,
    post: Tree,
    summary: RemovedSummary,
)
    requires
        pre.wf(),
        pre.rolled_up(),
        operated(pre, roots, post, summary),
        forall|m: Measure| m.valid() ==> #[trigger] subtree_sum(pre, m, 0) <= u64::MAX,
    ensures
        post.rolled_up(),
        forall|m: Measure| m.valid() ==> #[trigger] subtree_sum(post, m, 0) <= u64::MAX,
{
    assert forall|i: int, m: Measure|
        #![trigger post.total(m, i)]
        post.is_live_folder(i) && m.valid() implies post.total(m, i) == saturated(
        post.children_sum(m, i),
    ) by {
        assert(post.arena@[i] == relinked(pre.arena@[i], post.arena@[i]));
        assert(post.arena@[i].removed == (pre.arena@[i].removed || doomed(pre, roots, i)));
        assert(subtree_sum(pre, m, 0) <= u64::MAX);
        lemma_fits_below(pre, m, i);
        law_folder_keeps_rollup(pre, roots, post, summary, m, i);
    }
    law_scan_root_survives(pre, roots, post, summary);
    assert(post.arena@[0] == relinked(pre.arena@[0], post.arena@[0]));
    assert forall|m: Measure| m.valid() implies #[trigger] subtree_sum(post, m, 0)
        <= u64::MAX by {
        assert(post.is_live_folder(0));
        assert(subtree_sum(pre, m, 0) <= u64::MAX);
        law_folder_keeps_rollup(pre, roots, post, summary, m, 0);
    }
}

/// What lies below a folder adds no more than what lies below the scan root.
proof fn lemma_fits_below(t: Tree, m: Measure, i: int)
    requires
        t.wf(),
        0 <= i < t.count(),
    ensures
        subtree_sum(t, m, i) <= subtree_sum(t, m, 0),
{
    let below = share_below(t, m, i);
    let all = share_below(t, m, 0);
    assert forall|x: int| 0 <= x < t.count() implies #[trigger] below(x) <= all(x) by {
        lemma_under_root(t, x);
        if x == 0 && under(t.arena@, 0, i) {
            lemma_under_bound(t.arena@, 0, i);
        }
    }
    lemma_sum_monotone(below, all, 0, t.count());
}

/// Two lists of roots doom the same nodes.
pub open spec fn same_doom(t: Tree, roots: Seq<u32>, others: Seq<u32>) -> bool {
    forall|i: int|
        0 <= i < t.count() ==> #[trigger] doomed(t, roots, i) == doomed(t, others, i)
}

/// The nodes, names, lists and totals are the same, and so is the generation.
pub open spec fn same_tree(a: Tree, b: Tree) -> bool {
    &&& a.arena@ == b.arena@
    &&& a.order@ == b.order@
    &&& a.names == b.names
    &&& a.roots == b.roots
    &&& a.root == b.root
    &&& a.generation == b.generation
    &&& a.dir_extras@.len() == b.dir_extras@.len()
    &&& forall|i: int, m: Measure|
        #![trigger a.total(m, i)]
        a.is_folder(i) && m.valid() ==> a.total(m, i) == b.total(m, i)
    &&& forall|i: int| #[trigger]
        a.is_folder(i) ==> same_besides_totals(a.extra(i), b.extra(i))
}

/// What dooms the same nodes cuts the same roots.
proof fn lemma_same_doom_same_cut(t: Tree, roots: Seq<u32>, others: Seq<u32>, r: int)
    requires
        t.wf(),
        same_doom(t, roots, others),
        cut(t, roots, r),
    ensures
        cut(t, others, r),
{
    assert(under(t.arena@, r, r));
    assert(doomed(t, roots, r));
    assert(doomed(t, others, r));
    assert forall|q: int| #[trigger] valid_root(t, others, q) && under(
        t.arena@,
        r,
        q,
    ) implies q == r by {
        assert(under(t.arena@, q, q));
        assert(doomed(t, others, q));
        assert(doomed(t, roots, q));
        let p = choose|p: int| #[trigger] valid_root(t, roots, p) && under(t.arena@, q, p);
        lemma_under_transitive(t.arena@, r, q, p);
        lemma_under_bound(t.arena@, r, q);
        lemma_under_bound(t.arena@, q, p);
    }
    let q = choose|q: int| #[trigger] valid_root(t, others, q) && under(t.arena@, r, q);
    assert(q == r);
}

proof fn lemma_same_doom_same_total(
    t: Tree,
    roots: Seq<u32>,
    others: Seq<u32>,
    m: Measure,
    i: int,
)
    requires
        t.wf(),
        same_doom(t, roots, others),
    ensures
        cut_total(t, roots, m, i) == cut_total(t, others, m, i),
{
    let f = cut_share(t, roots, m, i);
    let g = cut_share(t, others, m, i);
    assert(same_doom(t, others, roots)) by {
        assert forall|i: int| 0 <= i < t.count() implies #[trigger] doomed(t, others, i) == doomed(
            t,
            roots,
            i,
        ) by {
            assert(doomed(t, roots, i) == doomed(t, others, i));
        }
    }
    assert forall|j: int| 0 <= j < t.count() implies #[trigger] f(j) == g(j) by {
        if cut(t, roots, j) {
            lemma_same_doom_same_cut(t, roots, others, j);
        }
        if cut(t, others, j) {
            lemma_same_doom_same_cut(t, others, roots, j);
        }
    }
    lemma_sum_congruent(f, g, 0, t.count());
}

/// A surgery is determined by the nodes that it dooms: two lists of roots that
/// doom the same nodes give the same summary and the same tree.
pub proof fn law_surgery_is_determined(
    pre: Tree,
    roots: Seq<u32>,
    post: Tree,
    summary: RemovedSummary,
    others: Seq<u32>,
    other_post: Tree,
    other_summary: RemovedSummary,
)
    requires
        pre.wf(),
        operated(pre, roots, post, summary),
        operated(pre, others, other_post, other_summary),
        same_doom(pre, roots, others),
    ensures
        summary == other_summary,
        same_tree(post, other_post),
{
    lemma_same_doom_same_total(pre, roots, others, Measure::OnDisk, 0);
    lemma_same_doom_same_total(pre, roots, others, Measure::Logical, 0);
    lemma_same_doom_same_total(pre, roots, others, Measure::Files, 0);
    lemma_same_doom_same_total(pre, roots, others, Measure::Folders, 0);
    assert forall|i: int| 0 <= i < pre.count() implies (#[trigger] post.arena@[i]).removed
        == other_post.arena@[i].removed by {
        assert(doomed(pre, roots, i) == doomed(pre, others, i));
        assert(other_post.arena@[i].removed == (pre.arena@[i].removed || doomed(pre, others, i)));
    }
    lemma_sum_congruent(live_mark(post), live_mark(other_post), 0, pre.count());
    assert forall|i: int, m: Measure|
        #![trigger post.total(m, i)]
        post.is_folder(i) && m.valid() implies post.total(m, i) == other_post.total(m, i) by {
        assert(post.arena@[i] == relinked(pre.arena@[i], post.arena@[i]));
        assert(pre.is_folder(i));
        lemma_same_doom_same_total(pre, roots, others, m, i);
        assert(other_post.total(m, i) == other_post.total(m, i));
    }
    assert forall|i: int| 0 <= i < pre.count() implies post.arena@[i] == other_post.arena@[i] by {
        assert(post.arena@[i] == relinked(pre.arena@[i], post.arena@[i]));
        assert(other_post.arena@[i] == relinked(pre.arena@[i], other_post.arena@[i]));
        if pre.arena@[i].dir {
            assert(post.is_folder(i));
            assert(post.total(Measure::OnDisk, i) == other_post.total(Measure::OnDisk, i));
            assert(post.total(Measure::Logical, i) == other_post.total(Measure::Logical, i));
        }
    }
    assert(post.arena@ =~= other_post.arena@);
    if summary.nodes > 0 {
        let kept = kept_list(pre, post);
        let other_kept = kept_list(pre, other_post);
        assert forall|i: int| #[trigger] kept(i) == other_kept(i) by {}
        lemma_packed_congruent(post, other_post, kept, other_kept, post.count());
        assert forall|i: int| #[trigger] post.is_folder(i) implies same_besides_totals(
            post.extra(i),
            other_post.extra(i),
        ) by {
            assert(pre.is_folder(i));
            assert(other_post.is_folder(i));
            lemma_packed_congruent(post, other_post, kept, other_kept, i);
            assert(kept(i) == other_kept(i));
        }
    }
}

/// `id` is one of the roots, or lies at or below one that counts, or does not
/// count itself.
pub open spec fn adds_nothing(t: Tree, roots: Seq<u32>, id: u32) -> bool {
    roots.contains(id) || id == 0 || id >= t.count() || doomed(t, roots, id as int)
}

/// In which order the roots are given, how often, and with which nodes below
/// them, changes neither the summary nor the tree: nothing is subtracted twice.
pub proof fn law_order_repeats_and_nesting_do_not_matter(
    pre: Tree,
    roots: Seq<u32>,
    post: Tree,
    summary: RemovedSummary,
    others: Seq<u32>,
    other_post: Tree,
    other_summary: RemovedSummary,
)
    requires
        pre.wf(),
        operated(pre, roots, post, summary),
        operated(pre, others, other_post, other_summary),
        forall|k: int| 0 <= k < roots.len() ==> others.contains(#[trigger] roots[k]),
        forall|k: int| 0 <= k < others.len() ==> adds_nothing(pre, roots, #[trigger] others[k]),
    ensures
        summary == other_summary,
        same_tree(post, other_post),
{
    assert forall|i: int| 0 <= i < pre.count() implies #[trigger] doomed(pre, roots, i) == doomed(
        pre,
        others,
        i,
    ) by {
        if doomed(pre, roots, i) {
            let r = choose|r: int| #[trigger] valid_root(pre, roots, r) && under(pre.arena@, i, r);
            let k = choose|k: int| 0 <= k < roots.len() && roots[k] == r as u32;
            assert(others.contains(roots[k]));
            assert(valid_root(pre, others, r));
        }
        if doomed(pre, others, i) {
            let q = choose|q: int| #[trigger] valid_root(pre, others, q) && under(pre.arena@, i, q);
            let k = choose|k: int| 0 <= k < others.len() && others[k] == q as u32;
            assert(adds_nothing(pre, roots, others[k]));
            if roots.contains(others[k]) {
                assert(valid_root(pre, roots, q));
            } else {
                let r = choose|r: int| #[trigger]
                    valid_root(pre, roots, r) && under(pre.arena@, q, r);
                lemma_under_transitive(pre.arena@, i, q, r);
            }
        }
    }
    law_surgery_is_determined(pre, roots, post, summary, others, other_post, other_summary);
}

/// With the links the same, two lists after each other doom what they doom
/// together.
proof fn lemma_doomed_joined(t: Tree, u: Tree, roots: Seq<u32>, more: Seq<u32>, i: int)
    requires
        t.wf(),
        u.count() == t.count(),
        forall|x: int| 0 <= x < t.count() ==> (#[trigger] u.arena@[x]).parent == t.arena@[x].parent,
        0 <= i < t.count(),
    ensures
        doomed(t, roots + more, i) == (doomed(t, roots, i) || doomed(u, more, i)),
{
    let all = roots + more;
    if doomed(t, all, i) {
        let r = choose|r: int| #[trigger] valid_root(t, all, r) && under(t.arena@, i, r);
        let k = choose|k: int| 0 <= k < all.len() && all[k] == r as u32;
        if k < roots.len() {
            assert(roots[k] == r as u32);
            assert(valid_root(t, roots, r));
        } else {
            assert(more[k - roots.len()] == r as u32);
            lemma_under_congruent(t.arena@, u.arena@, i, r);
            assert(valid_root(u, more, r));
        }
    }
    if doomed(t, roots, i) {
        let r = choose|r: int| #[trigger] valid_root(t, roots, r) && under(t.arena@, i, r);
        let k = choose|k: int| 0 <= k < roots.len() && roots[k] == r as u32;
        assert(all[k] == r as u32);
        assert(valid_root(t, all, r));
    }
    if doomed(u, more, i) {
        let r = choose|r: int| #[trigger] valid_root(u, more, r) && under(u.arena@, i, r);
        let k = choose|k: int| 0 <= k < more.len() && more[k] == r as u32;
        assert(all[roots.len() + k] == r as u32);
        lemma_under_congruent(t.arena@, u.arena@, i, r);
        assert(valid_root(t, all, r));
    }
}

/// Where the sums fit, a total of the scan root shrinks by exactly what is cut.
pub proof fn lemma_root_shrinks(
    pre: Tree,
    roots: Seq<u32>,
    post: Tree,
    summary: RemovedSummary,
    m: Measure,
)
    requires
        pre.wf(),
        pre.rolled_up(),
        operated(pre, roots, post, summary),
        m.valid(),
        subtree_sum(pre, m, 0) <= u64::MAX,
    ensures
        cut_total(pre, roots, m, 0) == pre.total(m, 0) - post.total(m, 0),
{
    law_scan_root_survives(pre, roots, post, summary);
    assert(pre.is_folder(0));
    assert(!cut(pre, roots, 0));
    lemma_cut_fits(pre, roots, m, 0);
    assert(post.total(m, 0) == less(pre.total(m, 0), cut_total(pre, roots, m, 0)));
}

/// Trees with the same links, files and removals have the same sums.
proof fn lemma_same_subtree_sum(a: Tree, b: Tree, m: Measure, i: int)
    requires
        b.count() == a.count(),
        forall|x: int|
            0 <= x < a.count() ==> {
                &&& (#[trigger] b.arena@[x]).parent == a.arena@[x].parent
                &&& b.arena@[x].removed == a.arena@[x].removed
                &&& b.arena@[x].dir == a.arena@[x].dir
                &&& !a.arena@[x].dir ==> b.arena@[x] == a.arena@[x]
            },
    ensures
        subtree_sum(a, m, i) == subtree_sum(b, m, i),
{
    let f = share_below(a, m, i);
    let g = share_below(b, m, i);
    assert forall|x: int| 0 <= x < a.count() implies #[trigger] f(x) == g(x) by {
        assert(b.arena@[x].parent == a.arena@[x].parent);
        lemma_under_congruent(a.arena@, b.arena@, x, i);
    }
    lemma_sum_congruent(f, g, 0, a.count());
}

/// Two surgeries one after the other add up to one surgery on both lists: the
/// summaries add up, the same nodes are removed, and every folder that is left
/// holds the same totals. (The sums over the whole scan fit.)
pub proof fn law_surgeries_add_up(
    pre: Tree,
    roots: Seq<u32>,
    mid: Tree,
    first: RemovedSummary,
    more: Seq<u32>,
    post: Tree,
    second: RemovedSummary,
    whole: Tree,
    both: RemovedSummary,
)
    requires
        pre.wf(),
        pre.rolled_up(),
        forall|m: Measure| m.valid() ==> #[trigger] subtree_sum(pre, m, 0) <= u64::MAX,
        mid.wf(),
        post.wf(),
        whole.wf(),
        operated(pre, roots, mid, first),
        operated(mid, more, post, second),
        operated(pre, roots + more, whole, both),
    ensures
        both.nodes == first.nodes + second.nodes,
        both.on_disk == first.on_disk + second.on_disk,
        both.logical == first.logical + second.logical,
        both.files == first.files + second.files,
        both.folders == first.folders + second.folders,
        forall|i: int|
            0 <= i < pre.count() ==> (#[trigger] whole.arena@[i]).removed == post.arena@[i].removed
                && (!pre.arena@[i].dir ==> whole.arena@[i] == post.arena@[i]),
        forall|i: int, m: Measure|
            #![trigger whole.total(m, i)]
            whole.is_live_folder(i) && m.valid() ==> whole.total(m, i) == post.total(m, i),
{
    assert forall|x: int| 0 <= x < pre.count() implies (#[trigger] mid.arena@[x]).parent
        == pre.arena@[x].parent by {
        assert(mid.arena@[x] == relinked(pre.arena@[x], mid.arena@[x]));
    }
    assert forall|i: int| 0 <= i < pre.count() implies {
        &&& (#[trigger] whole.arena@[i]).removed == post.arena@[i].removed
        &&& whole.arena@[i].parent == post.arena@[i].parent
        &&& whole.arena@[i].dir == pre.arena@[i].dir
        &&& post.arena@[i].dir == pre.arena@[i].dir
        &&& !pre.arena@[i].dir ==> whole.arena@[i] == post.arena@[i]
    } by {
        lemma_doomed_joined(pre, mid, roots, more, i);
        assert(mid.arena@[i] == relinked(pre.arena@[i], mid.arena@[i]));
        assert(post.arena@[i] == relinked(mid.arena@[i], post.arena@[i]));
        assert(whole.arena@[i] == relinked(pre.arena@[i], whole.arena@[i]));
    }
    lemma_sum_congruent(live_mark(whole), live_mark(post), 0, pre.count());
    law_surgery_keeps_rollup(pre, roots, mid, first);
    law_surgery_keeps_rollup(mid, more, post, second);
    law_surgery_keeps_rollup(pre, roots + more, whole, both);
    assert forall|i: int, m: Measure|
        #![trigger whole.total(m, i)]
        whole.is_live_folder(i) && m.valid() implies whole.total(m, i) == post.total(m, i) by {
        assert(whole.arena@[i].removed == post.arena@[i].removed);
        assert(post.is_live_folder(i));
        lemma_same_subtree_sum(post, whole, m, i);
        law_totals_are_subtree_sums(whole, m, i);
        law_totals_are_subtree_sums(post, m, i);
    }
    law_scan_root_survives(pre, roots + more, whole, both);
    assert(whole.is_live_folder(0));
    lemma_summary_adds_up(pre, roots, mid, first, more, post, second, whole, both, Measure::OnDisk);
    lemma_summary_adds_up(pre, roots, mid, first, more, post, second, whole, both, Measure::Logical);
    lemma_summary_adds_up(pre, roots, mid, first, more, post, second, whole, both, Measure::Files);
    lemma_summary_adds_up(pre, roots, mid, first, more, post, second, whole, both, Measure::Folders);
}

proof fn lemma_summary_adds_up(
    pre: Tree,
    roots: Seq<u32>,
    mid: Tree,
    first: RemovedSummary,
    more: Seq<u32>,
    post: Tree,
    second: RemovedSummary,
    whole: Tree,
    both: RemovedSummary,
    m: Measure,
)
    requires
        pre.wf(),
        pre.rolled_up(),
        mid.wf(),
        mid.rolled_up(),
        operated(pre, roots, mid, first),
        operated(mid, more, post, second),
        operated(pre, roots + more, whole, both),
        m.valid(),
        subtree_sum(pre, m, 0) <= u64::MAX,
        subtree_sum(mid, m, 0) <= u64::MAX,
        whole.total(m, 0) == post.total(m, 0),
    ensures
        cut_total(pre, roots + more, m, 0) == cut_total(pre, roots, m, 0) + cut_total(
            mid,
            more,
            m,
            0,
        ),
        cut_total(pre, roots + more, m, 0) <= u64::MAX,
{
    lemma_root_shrinks(pre, roots, mid, first, m);
    lemma_root_shrinks(mid, more, post, second, m);
    lemma_root_shrinks(pre, roots + more, whole, both, m);
}

} // verus!
