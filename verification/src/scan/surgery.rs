//! Tree surgery: take nodes out of the tree without a new scan.
//!
//! The nodes are flagged as removed, what they held is subtracted from every
//! folder above them, and the folders' lists are compacted and sorted again.
//! Ids are never reused: the arena only grows. The latest time below a folder is
//! kept as it is, whatever was removed.

use crate::scan::ancestry::{
    lemma_removed_below, lemma_under_bound, lemma_under_chain, lemma_under_congruent,
    lemma_under_root, lemma_under_transitive,
};
use crate::scan::order::{
    laid_out, lemma_laid_out_congruent, lemma_laid_out_slice, lemma_packed_same, lemma_readable,
    lemma_same_shape, lemma_slice_ordered, listed, readable, rebuild_order, relisted, survivors,
};
use crate::scan::ranking::by_size;
use crate::scan::node::{under, Node, Tree, NONE};
use crate::scan::sums::{
    lemma_sum_change_one, lemma_sum_congruent, lemma_sum_monotone, lemma_sum_range_count,
    lemma_sum_zero, saturated, sum,
};
use crate::scan::totals::{
    lemma_retotalled_frame, lemma_same_links_shaped, relinked, retotalled, same_besides_totals, same_links,
    shares_of, take_from, Measure, Shares,
};
use vstd::prelude::*;

verus! {

/// What one surgery took out.
#[derive(Debug, Clone, Copy, PartialEq, Eq, Structural)]
pub struct RemovedSummary {
    /// Nodes flagged as removed.
    pub nodes: u64,
    /// Allocated bytes subtracted from the folders above.
    pub on_disk: u64,
    /// Logical bytes subtracted.
    pub logical: u64,
    /// Files subtracted.
    pub files: u64,
    /// Folders subtracted, the removed folders themselves counted.
    pub folders: u64,
}

impl RemovedSummary {
    /// The summary of a surgery that took nothing out.
    pub open spec fn nothing() -> Self {
        RemovedSummary { nodes: 0, on_disk: 0, logical: 0, files: 0, folders: 0 }
    }
}

impl Default for RemovedSummary {
    fn default() -> (summary: Self)
        ensures
            summary == Self::nothing(),
    {
        RemovedSummary { nodes: 0, on_disk: 0, logical: 0, files: 0, folders: 0 }
    }
}

/// `total` less `n`, and not below zero.
pub open spec fn less(total: u64, n: nat) -> u64 {
    if n >= total {
        0
    } else {
        (total - n) as u64
    }
}

/// Marks the nodes that were not removed.
pub open spec fn live_mark(t: Tree) -> spec_fn(int) -> nat {
    |i: int|
        if t.arena@[i].removed {
            0
        } else {
            1nat
        }
}

/// Number of nodes that were not removed.
pub open spec fn live_count(t: Tree) -> nat {
    sum(live_mark(t), 0, t.count())
}

proof fn lemma_live_count_bound(t: Tree)
    ensures
        live_count(t) <= t.count(),
{
    let one = |i: int| 1nat;
    lemma_sum_monotone(live_mark(t), one, 0, t.count());
    lemma_sum_range_count(one, 0, t.count(), 0, t.count());
}

/// `post` is `pre` but for removal flags.
spec fn reflagged(pre: Tree, post: Tree) -> bool {
    &&& post.count() == pre.count()
    &&& post.dir_extras == pre.dir_extras
    &&& post.order == pre.order
    &&& post.names == pre.names
    &&& post.roots == pre.roots
    &&& post.root == pre.root
    &&& post.generation == pre.generation
    &&& forall|i: int|
        0 <= i < pre.count() ==> (#[trigger] post.arena@[i]) == (Node {
            removed: post.arena@[i].removed,
            ..pre.arena@[i]
        })
}

/// A child of a removed folder is removed too, or waits on the stack.
spec fn settled(t: Tree, stack: Seq<u32>, i: int) -> bool {
    t.arena@[t.arena@[i].parent as int].removed ==> t.arena@[i].removed || stack.contains(i as u32)
}

/// With nothing waiting, everything below a removed node is removed.
proof fn lemma_settled(t: Tree, id: int, anc: int)
    requires
        t.shaped(),
        forall|i: int| 0 < i < t.count() ==> #[trigger] settled(t, Seq::empty(), i),
        0 <= id < t.count(),
        under(t.arena@, id, anc),
        t.arena@[anc].removed,
    ensures
        t.arena@[id].removed,
    decreases id,
{
    if id != anc {
        assert(t.linked(id));
        lemma_settled(t, t.arena@[id].parent as int, anc);
        assert(settled(t, Seq::empty(), id));
    }
}

/// Flag `root` and everything below it; returns how many nodes were flagged.
fn mark_subtree(tree: &mut Tree, root: u32) -> (marked: u64)
    requires
        old(tree).shaped(),
        old(tree).removal_closed(),
        0 < root < old(tree).count(),
    ensures
        reflagged(*old(tree), *final(tree)),
        forall|i: int|
            0 <= i < old(tree).count() ==> (#[trigger] final(tree).arena@[i]).removed == (old(
                tree,
            ).arena@[i].removed || under(old(tree).arena@, i, root as int)),
        marked == live_count(*old(tree)) - live_count(*final(tree)),
        !old(tree).arena@[root as int].removed ==> marked > 0,
{
    let ghost pre = *tree;
    let mut stack: Vec<u32> = Vec::new();
    stack.push(root);
    let mut marked: u64 = 0;
    proof {
        lemma_live_count_bound(pre);
        assert(stack@[0] == root);
        assert forall|i: int| 0 < i < tree.count() implies #[trigger] settled(
            *tree,
            stack@,
            i,
        ) by {
            assert(tree.inherits_removal(i));
        }
    }
    while stack.len() > 0
        invariant
            pre.shaped(),
            0 < root < pre.count(),
            reflagged(pre, *tree),
            live_count(pre) <= pre.count(),
            marked == live_count(pre) - live_count(*tree),
            tree.arena@[root as int].removed || stack@.contains(root),
            !pre.arena@[root as int].removed && tree.arena@[root as int].removed ==> marked > 0,
            forall|i: int| 0 < i < pre.count() ==> #[trigger] settled(*tree, stack@, i),
            forall|k: int|
                0 <= k < stack@.len() ==> (#[trigger] stack@[k]) < pre.count() && under(
                    pre.arena@,
                    stack@[k] as int,
                    root as int,
                ),
            forall|i: int|
                #![trigger tree.arena@[i]]
                0 <= i < pre.count() ==> {
                    &&& pre.arena@[i].removed ==> tree.arena@[i].removed
                    &&& tree.arena@[i].removed ==> pre.arena@[i].removed || under(
                        pre.arena@,
                        i,
                        root as int,
                    )
                },
        decreases live_count(*tree), stack@.len(),
    {
        let ghost before = *tree;
        let ghost waiting = stack@;
        let id: u32 = stack.pop().unwrap();
        proof {
            assert(waiting =~= stack@.push(id));
            assert(waiting[waiting.len() - 1] == id);
            assert forall|x: u32| #[trigger] waiting.contains(x) implies x == id
                || stack@.contains(x) by {
                let k = choose|k: int| 0 <= k < waiting.len() && waiting[k] == x;
                if k < stack@.len() {
                    assert(stack@[k] == x);
                }
            }
        }
        let mut node: Node = tree.arena[id as usize];
        if !node.removed {
            node.removed = true;
            tree.arena[id as usize] = node;
            proof {
                lemma_sum_change_one(
                    live_mark(before),
                    live_mark(*tree),
                    0,
                    pre.count(),
                    id as int,
                );
                assert(live_count(*tree) + 1 == live_count(before));
            }
            marked = marked + 1;
            let ghost rest = stack@;
            let mut left: u32 = node.child_count;
            assert(pre.ranged(id as int));
            while left > 0
                invariant
                    left <= node.child_count,
                    node.child_count > 0 ==> node.first_child + node.child_count <= pre.count(),
                    pre.count() <= u32::MAX,
                    node.child_count == pre.arena@[id as int].child_count,
                    node.first_child == pre.arena@[id as int].first_child,
                    pre.ranged(id as int),
                    id < pre.count(),
                    under(pre.arena@, id as int, root as int),
                    rest.len() <= stack@.len(),
                    forall|k: int| 0 <= k < rest.len() ==> stack@[k] == rest[k],
                    forall|j: int|
                        node.first_child + left <= j < node.first_child + node.child_count
                            ==> #[trigger] stack@.contains(j as u32),
                    forall|k: int|
                        0 <= k < stack@.len() ==> (#[trigger] stack@[k]) < pre.count() && under(
                            pre.arena@,
                            stack@[k] as int,
                            root as int,
                        ),
                decreases left,
            {
                left = left - 1;
                let kid: u32 = node.first_child + left;
                let ghost held = stack@;
                stack.push(kid);
                proof {
                    assert(pre.arena@[kid as int].parent == id);
                    assert(under(pre.arena@, kid as int, root as int));
                    assert(stack@[stack@.len() - 1] == kid);
                    assert forall|j: int|
                        node.first_child + left <= j < node.first_child
                            + node.child_count implies #[trigger] stack@.contains(j as u32) by {
                        if j != kid {
                            assert(held.contains(j as u32));
                            let k = choose|k: int| 0 <= k < held.len() && held[k] == j as u32;
                            assert(stack@[k] == j as u32);
                        }
                    }
                }
            }
            proof {
                assert forall|x: u32| #[trigger] waiting.contains(x) implies x == id
                    || stack@.contains(x) by {
                    if x != id {
                        assert(rest.contains(x));
                        let k = choose|k: int| 0 <= k < rest.len() && rest[k] == x;
                        assert(stack@[k] == x);
                    }
                }
                assert forall|i: int| 0 < i < pre.count() implies #[trigger] settled(
                    *tree,
                    stack@,
                    i,
                ) by {
                    assert(settled(before, waiting, i));
                    assert(pre.linked(i));
                    assert(before.arena@[i].parent == pre.arena@[i].parent);
                    assert(tree.arena@[i].parent == pre.arena@[i].parent);
                    if pre.arena@[i].parent == id {
                        assert(stack@.contains(i as u32));
                    }
                }
            }
        } else {
            proof {
                assert forall|i: int| 0 < i < pre.count() implies #[trigger] settled(
                    *tree,
                    stack@,
                    i,
                ) by {
                    assert(settled(before, waiting, i));
                }
            }
        }
    }
    proof {
        assert(stack@ =~= Seq::<u32>::empty());
        assert(same_links(pre, *tree));
        lemma_same_links_shaped(pre, *tree);
        assert forall|i: int| 0 <= i < pre.count() implies (#[trigger] tree.arena@[i]).removed == (
        pre.arena@[i].removed || under(pre.arena@, i, root as int)) by {
            lemma_under_congruent(pre.arena@, tree.arena@, i, root as int);
            if under(pre.arena@, i, root as int) {
                lemma_settled(*tree, i, root as int);
            }
        }
    }
    marked
}

/// `post` is `pre` after the subtree of `root` was taken out: its nodes are
/// flagged, and the folders above it hold as much less as it added to them.
pub open spec fn lopped(pre: Tree, post: Tree, root: int) -> bool {
    &&& same_links(pre, post)
    &&& post.order == pre.order
    &&& post.generation == pre.generation
    &&& forall|i: int|
        0 <= i < pre.count() ==> (#[trigger] post.arena@[i]).removed == (pre.arena@[i].removed
            || under(pre.arena@, i, root))
    &&& forall|i: int, m: Measure|
        #![trigger post.total(m, i)]
        pre.is_folder(i) && m.valid() ==> post.total(m, i) == if i != root && under(
            pre.arena@,
            root,
            i,
        ) {
            less(pre.total(m, i), pre.share(m, root) as nat)
        } else {
            pre.total(m, i)
        }
    &&& forall|i: int|
        #![trigger post.arena@[i]]
        0 <= i < pre.count() && !pre.arena@[i].dir ==> post.arena@[i].on_disk
            == pre.arena@[i].on_disk && post.arena@[i].logical == pre.arena@[i].logical
    &&& forall|i: int| #[trigger]
        pre.is_folder(i) ==> same_besides_totals(pre.extra(i), post.extra(i))
}

/// The summary after one more subtree was taken out.
pub open spec fn tallied(
    before: RemovedSummary,
    after: RemovedSummary,
    pre: Tree,
    post: Tree,
    root: int,
) -> bool {
    &&& after.nodes == saturated((before.nodes + live_count(pre) - live_count(post)) as nat)
    &&& after.on_disk == saturated((before.on_disk + pre.share(Measure::OnDisk, root)) as nat)
    &&& after.logical == saturated((before.logical + pre.share(Measure::Logical, root)) as nat)
    &&& after.files == saturated((before.files + pre.share(Measure::Files, root)) as nat)
    &&& after.folders == saturated((before.folders + pre.share(Measure::Folders, root)) as nat)
}

/// The walk up from `root` has reached `at`: the folders above `root` and
/// behind `at` are done.
spec fn climbed(pre: Tree, cur: Tree, root: int, at: u32) -> bool {
    &&& forall|i: int, m: Measure|
        #![trigger cur.total(m, i)]
        pre.is_folder(i) && m.valid() ==> cur.total(m, i) == if i != root && under(
            pre.arena@,
            root,
            i,
        ) && (at == NONE || at < i) {
            less(pre.total(m, i), pre.share(m, root) as nat)
        } else {
            pre.total(m, i)
        }
    &&& forall|i: int| #[trigger]
        pre.is_folder(i) ==> same_besides_totals(pre.extra(i), cur.extra(i))
    &&& forall|i: int|
        #![trigger cur.arena@[i]]
        0 <= i < pre.count() && !pre.arena@[i].dir ==> cur.arena@[i].on_disk
            == pre.arena@[i].on_disk && cur.arena@[i].logical == pre.arena@[i].logical
}

/// Subtracting from the folder at `at` takes the walk one step up.
proof fn lemma_climbed(
    pre: Tree,
    before: Tree,
    after: Tree,
    root: int,
    at: u32,
    shares: Shares,
)
    requires
        pre.shaped(),
        before.shaped(),
        same_links(pre, before),
        0 < root < pre.count(),
        at < root,
        under(pre.arena@, root, at as int),
        pre.is_folder(at as int),
        climbed(pre, before, root, at),
        forall|m: Measure| m.valid() ==> #[trigger] shares.of(m) == pre.share(m, root),
        retotalled(before, after, at as int),
        forall|m: Measure|
            m.valid() ==> #[trigger] after.total(m, at as int) == before.total(
                m,
                at as int,
            ).saturating_sub(shares.of(m)),
    ensures
        same_links(pre, after),
        after.shaped(),
        climbed(pre, after, root, pre.arena@[at as int].parent),
{
    assert(before.arena@[at as int] == relinked(pre.arena@[at as int], before.arena@[at as int]));
    assert forall|i: int| 0 <= i < pre.count() implies (#[trigger] after.arena@[i]) == relinked(
        pre.arena@[i],
        after.arena@[i],
    ) by {
        assert(before.arena@[i] == relinked(pre.arena@[i], before.arena@[i]));
    }
    lemma_same_links_shaped(pre, after);
    let up = pre.arena@[at as int].parent;
    if at > 0 {
        assert(pre.linked(at as int));
    }
    assert forall|i: int, m: Measure|
        #![trigger after.total(m, i)]
        pre.is_folder(i) && m.valid() implies after.total(m, i) == if i != root && under(
        pre.arena@,
        root,
        i,
    ) && (up == NONE || up < i) {
        less(pre.total(m, i), pre.share(m, root) as nat)
    } else {
        pre.total(m, i)
    } by {
        assert(before.total(m, i) == before.total(m, i));
        if i == at {
            assert(shares.of(m) == pre.share(m, root));
        } else {
            lemma_retotalled_frame(before, after, at as int, m, i);
            assert(before.arena@[i] == relinked(pre.arena@[i], before.arena@[i]));
            if under(pre.arena@, root, i) && i < at {
                lemma_under_chain(pre.arena@, root, i, at as int);
                lemma_under_bound(pre.arena@, up as int, i);
            }
        }
    }
    assert forall|i: int| #[trigger] pre.is_folder(i) implies same_besides_totals(
        pre.extra(i),
        after.extra(i),
    ) by {
        assert(before.arena@[i] == relinked(pre.arena@[i], before.arena@[i]));
        if i != at {
            lemma_retotalled_frame(before, after, at as int, Measure::Files, i);
        }
    }
    assert forall|i: int|
        #![trigger after.arena@[i]]
        0 <= i < pre.count() && !pre.arena@[i].dir implies after.arena@[i].on_disk
        == pre.arena@[i].on_disk && after.arena@[i].logical == pre.arena@[i].logical by {
        assert(before.arena@[i] == relinked(pre.arena@[i], before.arena@[i]));
    }
}

/// Take out one subtree: flag it, and subtract it from the folders above.
/// For an id that is not in the arena, and for a subtree that is gone already,
/// nothing changes.
fn remove_one(tree: &mut Tree, root: u32, summary: &mut RemovedSummary)
    requires
        old(tree).shaped(),
        old(tree).removal_closed(),
        root != 0,
    ensures
        if root >= old(tree).count() || old(tree).arena@[root as int].removed {
            *final(tree) == *old(tree) && *final(summary) == *old(summary)
        } else {
            &&& lopped(*old(tree), *final(tree), root as int)
            &&& tallied(*old(summary), *final(summary), *old(tree), *final(tree), root as int)
            &&& live_count(*final(tree)) < live_count(*old(tree))
        },
{
    if root as usize >= tree.arena.len() || tree.arena[root as usize].removed {
        return;
    }
    let ghost pre = *tree;
    let shares: Shares = shares_of(tree, root);
    let marked: u64 = mark_subtree(tree, root);
    let ghost flagged = *tree;
    let mut at: u32 = tree.arena[root as usize].parent;
    proof {
        assert(pre.linked(root as int));
        assert(same_links(pre, *tree));
        lemma_same_links_shaped(pre, *tree);
        assert(tree.arena@[root as int].parent == pre.arena@[root as int].parent);
        assert(under(pre.arena@, at as int, at as int));
        assert(under(pre.arena@, root as int, at as int));
        assert forall|i: int, m: Measure|
            #![trigger tree.total(m, i)]
            pre.is_folder(i) && m.valid() implies tree.total(m, i) == pre.total(m, i) && (i != root
            && under(pre.arena@, root as int, i) ==> i <= at) by {
            assert(tree.arena@[i] == relinked(pre.arena@[i], tree.arena@[i]));
            if i != root && under(pre.arena@, root as int, i) {
                lemma_under_bound(pre.arena@, at as int, i);
            }
        }
        assert forall|i: int| #[trigger] pre.is_folder(i) implies tree.extra(i) == pre.extra(i) by {
            assert(tree.arena@[i] == relinked(pre.arena@[i], tree.arena@[i]));
        }
    }
    while at != NONE
        invariant
            pre.shaped(),
            tree.shaped(),
            0 < root < pre.count(),
            same_links(pre, *tree),
            tree.order == pre.order,
            tree.generation == pre.generation,
            flagged.count() == pre.count(),
            forall|i: int|
                0 <= i < pre.count() ==> (#[trigger] tree.arena@[i]).removed
                    == flagged.arena@[i].removed,
            forall|m: Measure|
                m.valid() ==> #[trigger] shares.of(m) == pre.share(m, root as int),
            at != NONE ==> at < root && under(pre.arena@, root as int, at as int) && pre.is_folder(
                at as int,
            ),
            climbed(pre, *tree, root as int, at),
        decreases
                if at == NONE {
                    0int
                } else {
                    at + 1
                },
    {
        let ghost before = *tree;
        assert(tree.arena@[at as int] == relinked(pre.arena@[at as int], tree.arena@[at as int]));
        take_from(tree, at, &shares);
        proof {
            lemma_climbed(pre, before, *tree, root as int, at, shares);
            assert(tree.arena@[at as int] == relinked(
                pre.arena@[at as int],
                tree.arena@[at as int],
            ));
            if at > 0 {
                assert(pre.linked(at as int));
                let up = pre.arena@[at as int].parent as int;
                assert(under(pre.arena@, at as int, up)) by {
                    assert(under(pre.arena@, up, up));
                }
                lemma_under_transitive(pre.arena@, root as int, at as int, up);
            }
        }
        at = tree.arena[at as usize].parent;
    }
    summary.nodes = summary.nodes.saturating_add(marked);
    summary.on_disk = summary.on_disk.saturating_add(shares.on_disk);
    summary.logical = summary.logical.saturating_add(shares.logical);
    summary.files = summary.files.saturating_add(shares.files);
    summary.folders = summary.folders.saturating_add(shares.folders);
    proof {
        assert(shares.of(Measure::OnDisk) == pre.share(Measure::OnDisk, root as int));
        assert(shares.of(Measure::Logical) == pre.share(Measure::Logical, root as int));
        assert(shares.of(Measure::Files) == pre.share(Measure::Files, root as int));
        assert(shares.of(Measure::Folders) == pre.share(Measure::Folders, root as int));
        lemma_sum_congruent(live_mark(flagged), live_mark(*tree), 0, pre.count());
    }
}

/// `r` is asked for, is in the arena, and is not the scan root.
pub open spec fn valid_root(t: Tree, roots: Seq<u32>, r: int) -> bool {
    0 < r < t.count() && roots.contains(r as u32)
}

/// A root that is asked for is `i` or lies above it.
pub open spec fn doomed(t: Tree, roots: Seq<u32>, i: int) -> bool {
    exists|r: int| #[trigger] valid_root(t, roots, r) && under(t.arena@, i, r)
}

/// `r` is a root that was not removed yet and lies below no other root.
pub open spec fn cut(t: Tree, roots: Seq<u32>, r: int) -> bool {
    &&& valid_root(t, roots, r)
    &&& !t.arena@[r].removed
    &&& forall|q: int| #[trigger] valid_root(t, roots, q) && under(t.arena@, r, q) ==> q == r
}

/// The shares of the cut roots at or below `i`.
pub open spec fn cut_share(t: Tree, roots: Seq<u32>, m: Measure, i: int) -> spec_fn(int) -> nat {
    |j: int|
        if cut(t, roots, j) && under(t.arena@, j, i) {
            t.share(m, j) as nat
        } else {
            0
        }
}

/// What the cut takes from the total of folder `i`.
pub open spec fn cut_total(t: Tree, roots: Seq<u32>, m: Measure, i: int) -> nat {
    sum(cut_share(t, roots, m, i), 0, t.count())
}

/// One of the ids in `done` is `i` or lies above it.
spec fn hit(t: Tree, done: Seq<u32>, i: int) -> bool {
    exists|l: int| 0 <= l < done.len() && under(t.arena@, i, #[trigger] done[l] as int)
}

/// The ids in `tops` are in the arena and below the scan root, and none lies
/// at or below another.
spec fn antichain(t: Tree, tops: Seq<u32>) -> bool {
    &&& forall|k: int| 0 <= k < tops.len() ==> 0 < (#[trigger] tops[k]) < t.count()
    &&& forall|k: int, l: int|
        0 <= k < tops.len() && 0 <= l < tops.len() && k != l ==> !under(
            t.arena@,
            (#[trigger] tops[k]) as int,
            (#[trigger] tops[l]) as int,
        )
}

/// `tops` are the topmost of the valid roots.
spec fn topmost(t: Tree, roots: Seq<u32>, tops: Seq<u32>) -> bool {
    &&& antichain(t, tops)
    &&& forall|k: int| 0 <= k < tops.len() ==> roots.contains(#[trigger] tops[k])
    &&& forall|r: int| #[trigger] valid_root(t, roots, r) ==> hit(t, tops, r)
}

/// Keep the ids of `tops` that do not lie at or below `r`.
fn drop_below(tree: &Tree, tops: &Vec<u32>, r: u32) -> (kept: Vec<u32>)
    requires
        tree.shaped(),
        antichain(*tree, tops@),
    ensures
        antichain(*tree, kept@),
        forall|k: int|
            0 <= k < kept@.len() ==> tops@.contains(#[trigger] kept@[k]) && !under(
                tree.arena@,
                kept@[k] as int,
                r as int,
            ),
        forall|k: int|
            0 <= k < tops@.len() ==> kept@.contains(#[trigger] tops@[k]) || under(
                tree.arena@,
                tops@[k] as int,
                r as int,
            ),
{
    let mut kept: Vec<u32> = Vec::new();
    let ghost mut from: Seq<int> = Seq::empty();
    let mut i: usize = 0;
    while i < tops.len()
        invariant
            i <= tops@.len(),
            tree.shaped(),
            antichain(*tree, tops@),
            from.len() == kept@.len(),
            forall|k: int|
                0 <= k < from.len() ==> 0 <= (#[trigger] from[k]) < i && tops@[from[k]] == kept@[k],
            forall|k: int, l: int|
                0 <= k < l < from.len() ==> (#[trigger] from[k]) < (#[trigger] from[l]),
            forall|k: int|
                0 <= k < kept@.len() ==> !under(
                    tree.arena@,
                    (#[trigger] kept@[k]) as int,
                    r as int,
                ),
            forall|k: int|
                0 <= k < i ==> kept@.contains(#[trigger] tops@[k]) || under(
                    tree.arena@,
                    tops@[k] as int,
                    r as int,
                ),
        decreases tops@.len() - i,
    {
        let top: u32 = tops[i];
        let ghost before = kept@;
        if !tree.is_descendant_of(top, r) {
            kept.push(top);
            proof {
                from = from.push(i as int);
                assert(kept@[kept@.len() - 1] == top);
                assert forall|x: u32| #[trigger] before.contains(x) implies kept@.contains(x) by {
                    let k = choose|k: int| 0 <= k < before.len() && before[k] == x;
                    assert(kept@[k] == x);
                }
            }
        }
        i = i + 1;
    }
    proof {
        assert forall|k: int| 0 <= k < kept@.len() implies tops@.contains(#[trigger] kept@[k]) && 0
            < kept@[k] < tree.count() by {
            assert(tops@[from[k]] == kept@[k]);
        }
        assert forall|k: int, l: int|
            0 <= k < kept@.len() && 0 <= l < kept@.len() && k != l implies !under(
            tree.arena@,
            (#[trigger] kept@[k]) as int,
            (#[trigger] kept@[l]) as int,
        ) by {
            assert(tops@[from[k]] == kept@[k]);
            assert(tops@[from[l]] == kept@[l]);
        }
    }
    kept
}

/// The roots that are in the arena, are not the scan root, and lie below no
/// other root.
fn effective_roots(tree: &Tree, roots: &[u32]) -> (tops: Vec<u32>)
    requires
        tree.shaped(),
    ensures
        topmost(*tree, roots@, tops@),
{
    let mut tops: Vec<u32> = Vec::new();
    let mut i: usize = 0;
    while i < roots.len()
        invariant
            i <= roots@.len(),
            tree.shaped(),
            antichain(*tree, tops@),
            forall|k: int| 0 <= k < tops@.len() ==> roots@.contains(#[trigger] tops@[k]),
            forall|n: int|
                0 <= n < i && 0 < (#[trigger] roots@[n]) < tree.count() ==> hit(
                    *tree,
                    tops@,
                    roots@[n] as int,
                ),
        decreases roots@.len() - i,
    {
        let r: u32 = roots[i];
        if r != tree.root && (r as usize) < tree.arena.len() {
            let mut nested: bool = false;
            let mut k: usize = 0;
            while k < tops.len()
                invariant
                    k <= tops@.len(),
                    tree.shaped(),
                    r < tree.count(),
                    nested == exists|l: int|
                        0 <= l < k && under(tree.arena@, r as int, #[trigger] tops@[l] as int),
                decreases tops@.len() - k,
            {
                if tree.is_descendant_of(r, tops[k]) {
                    nested = true;
                }
                k = k + 1;
            }
            if !nested {
                let ghost before = tops@;
                tops = drop_below(tree, &tops, r);
                let ghost kept = tops@;
                tops.push(r);
                proof {
                    lemma_tops_extended(*tree, roots@, before, kept, r);
                    assert forall|n: int|
                        0 <= n < i + 1 && 0 < (#[trigger] roots@[n]) < tree.count() implies hit(
                        *tree,
                        tops@,
                        roots@[n] as int,
                    ) by {
                        if n == i {
                            assert(tops@[tops@.len() - 1] == r);
                            assert(under(tree.arena@, r as int, tops@[tops@.len() - 1] as int));
                        } else {
                            assert(hit(*tree, before, roots@[n] as int));
                        }
                    }
                    assert(roots@[i as int] == r);
                }
            } else {
                assert(hit(*tree, tops@, r as int));
            }
        }
        i = i + 1;
    }
    proof {
        assert forall|r: int| #[trigger] valid_root(*tree, roots@, r) implies hit(
            *tree,
            tops@,
            r,
        ) by {
            let n = choose|n: int| 0 <= n < roots@.len() && roots@[n] == r as u32;
            assert(0 < roots@[n] < tree.count());
        }
    }
    tops
}

/// Putting a new top in place of the tops below it keeps everything covered.
proof fn lemma_tops_extended(t: Tree, roots: Seq<u32>, before: Seq<u32>, kept: Seq<u32>, r: u32)
    requires
        t.shaped(),
        0 < r < t.count(),
        antichain(t, before),
        antichain(t, kept),
        !hit(t, before, r as int),
        forall|k: int| 0 <= k < before.len() ==> roots.contains(#[trigger] before[k]),
        forall|k: int|
            0 <= k < kept.len() ==> before.contains(#[trigger] kept[k]) && !under(
                t.arena@,
                kept[k] as int,
                r as int,
            ),
        forall|k: int|
            0 <= k < before.len() ==> kept.contains(#[trigger] before[k]) || under(
                t.arena@,
                before[k] as int,
                r as int,
            ),
    ensures
        antichain(t, kept.push(r)),
        forall|k: int| 0 <= k < kept.len() ==> roots.contains(#[trigger] kept[k]),
        forall|i: int| 0 <= i < t.count() && #[trigger] hit(t, before, i) ==> hit(
            t,
            kept.push(r),
            i,
        ),
{
    let tops = kept.push(r);
    assert forall|k: int| 0 <= k < kept.len() implies roots.contains(#[trigger] kept[k]) by {
        let l = choose|l: int| 0 <= l < before.len() && before[l] == kept[k];
        assert(roots.contains(before[l]));
    }
    assert forall|k: int, l: int|
        0 <= k < tops.len() && 0 <= l < tops.len() && k != l implies !under(
        t.arena@,
        (#[trigger] tops[k]) as int,
        (#[trigger] tops[l]) as int,
    ) by {
        if k == kept.len() {
            let n = choose|n: int| 0 <= n < before.len() && before[n] == kept[l];
            assert(before.contains(kept[l]));
            assert(before[n] == tops[l]);
        } else if l == kept.len() {
            assert(!under(t.arena@, kept[k] as int, r as int));
        } else {
            assert(tops[k] == kept[k] && tops[l] == kept[l]);
        }
    }
    assert forall|i: int| 0 <= i < t.count() && #[trigger] hit(t, before, i) implies hit(
        t,
        tops,
        i,
    ) by {
        let l = choose|l: int| 0 <= l < before.len() && under(t.arena@, i, #[trigger] before[l] as int);
        if kept.contains(before[l]) {
            let k = choose|k: int| 0 <= k < kept.len() && kept[k] == before[l];
            assert(tops[k] == before[l]);
        } else {
            lemma_under_transitive(t.arena@, i, before[l] as int, r as int);
            assert(tops[kept.len() as int] == r);
        }
    }
}

/// The shares of the ids in `done` that were not removed before and lie at or
/// below `i`.
spec fn done_share(t: Tree, done: Seq<u32>, m: Measure, i: int) -> spec_fn(int) -> nat {
    |j: int|
        if done.contains(j as u32) && !t.arena@[j].removed && under(t.arena@, j, i) {
            t.share(m, j) as nat
        } else {
            0
        }
}

spec fn done_total(t: Tree, done: Seq<u32>, m: Measure, i: int) -> nat {
    sum(done_share(t, done, m, i), 0, t.count())
}

/// `cur` is `pre` after the subtrees of the ids in `done` were taken out.
spec fn carved(pre: Tree, cur: Tree, done: Seq<u32>) -> bool {
    &&& same_links(pre, cur)
    &&& cur.order == pre.order
    &&& cur.generation == pre.generation
    &&& forall|i: int|
        0 <= i < pre.count() ==> (#[trigger] cur.arena@[i]).removed == (pre.arena@[i].removed
            || hit(pre, done, i))
    &&& forall|i: int, m: Measure|
        #![trigger cur.total(m, i)]
        pre.is_folder(i) && m.valid() ==> cur.total(m, i) == if pre.arena@[i].removed || hit(
            pre,
            done,
            i,
        ) {
            pre.total(m, i)
        } else {
            less(pre.total(m, i), done_total(pre, done, m, i))
        }
    &&& forall|i: int|
        #![trigger cur.arena@[i]]
        0 <= i < pre.count() && !pre.arena@[i].dir ==> cur.arena@[i].on_disk
            == pre.arena@[i].on_disk && cur.arena@[i].logical == pre.arena@[i].logical
    &&& forall|i: int| #[trigger]
        pre.is_folder(i) ==> same_besides_totals(pre.extra(i), cur.extra(i))
}

/// The summary of the subtrees that were taken out so far.
spec fn counted(pre: Tree, cur: Tree, done: Seq<u32>, summary: RemovedSummary) -> bool {
    &&& summary.nodes == live_count(pre) - live_count(cur)
    &&& summary.on_disk == saturated(done_total(pre, done, Measure::OnDisk, 0))
    &&& summary.logical == saturated(done_total(pre, done, Measure::Logical, 0))
    &&& summary.files == saturated(done_total(pre, done, Measure::Files, 0))
    &&& summary.folders == saturated(done_total(pre, done, Measure::Folders, 0))
}

/// One more subtree adds its share to the folders above it and to no others.
proof fn lemma_done_total(t: Tree, done: Seq<u32>, r: u32, m: Measure, i: int)
    requires
        t.shaped(),
        0 < r < t.count(),
        !done.contains(r),
    ensures
        done_total(t, done.push(r), m, i) == done_total(t, done, m, i) + if !t.arena@[r as int].removed
            && under(t.arena@, r as int, i) {
            t.share(m, r as int) as nat
        } else {
            0
        },
{
    let f = done_share(t, done, m, i);
    let g = done_share(t, done.push(r), m, i);
    let more = done.push(r);
    assert forall|j: int| 0 <= j < t.count() && j != r implies #[trigger] f(j) == g(j) by {
        if more.contains(j as u32) {
            let k = choose|k: int| 0 <= k < more.len() && more[k] == j as u32;
            assert(done[k] == j as u32);
        }
        if done.contains(j as u32) {
            let k = choose|k: int| 0 <= k < done.len() && done[k] == j as u32;
            assert(more[k] == j as u32);
        }
    }
    assert(more[done.len() as int] == r);
    lemma_sum_change_one(f, g, 0, t.count(), r as int);
}

/// Nothing was taken out at or below an id that `done` is incomparable with.
proof fn lemma_done_total_none(t: Tree, done: Seq<u32>, m: Measure, i: int)
    requires
        t.count() <= u32::MAX,
        forall|l: int|
            0 <= l < done.len() ==> !under(t.arena@, (#[trigger] done[l]) as int, i),
    ensures
        done_total(t, done, m, i) == 0,
{
    let f = done_share(t, done, m, i);
    assert forall|j: int| 0 <= j < t.count() implies #[trigger] f(j) == 0 by {
        if done.contains(j as u32) {
            let l = choose|l: int| 0 <= l < done.len() && done[l] == j as u32;
            assert(!under(t.arena@, done[l] as int, i));
        }
    }
    lemma_sum_zero(f, 0, t.count());
}

proof fn lemma_hit_push(t: Tree, done: Seq<u32>, r: u32, i: int)
    ensures
        hit(t, done.push(r), i) == (hit(t, done, i) || under(t.arena@, i, r as int)),
{
    let more = done.push(r);
    if hit(t, done, i) {
        let l = choose|l: int| 0 <= l < done.len() && under(t.arena@, i, #[trigger] done[l] as int);
        assert(more[l] == done[l]);
    }
    if hit(t, more, i) {
        let l = choose|l: int| 0 <= l < more.len() && under(t.arena@, i, #[trigger] more[l] as int);
        if l < done.len() {
            assert(done[l] == more[l]);
        }
    }
    assert(more[done.len() as int] == r);
}

/// Where `r` joins an antichain, its own totals are untouched so far.
proof fn lemma_joins(t: Tree, done: Seq<u32>, r: u32)
    requires
        t.shaped(),
        antichain(t, done.push(r)),
    ensures
        !done.contains(r),
        !hit(t, done, r as int),
        forall|i: int|
            0 <= i < t.count() && #[trigger] under(t.arena@, i, r as int) ==> !hit(t, done, i),
        forall|i: int, m: Measure|
            0 <= i < t.count() && under(t.arena@, i, r as int) ==> #[trigger] done_total(
                t,
                done,
                m,
                i,
            ) == 0,
{
    let more = done.push(r);
    let last = done.len() as int;
    assert(more[last] == r);
    assert forall|i: int| 0 <= i < t.count() && #[trigger] under(
        t.arena@,
        i,
        r as int,
    ) implies !hit(t, done, i) by {
        if hit(t, done, i) {
            let l = choose|l: int|
                0 <= l < done.len() && under(t.arena@, i, #[trigger] done[l] as int);
            assert(more[l] == done[l]);
            if done[l] <= r {
                lemma_under_chain(t.arena@, i, done[l] as int, r as int);
            } else {
                lemma_under_chain(t.arena@, i, r as int, done[l] as int);
            }
        }
    }
    assert(under(t.arena@, r as int, r as int));
    if done.contains(r) {
        let l = choose|l: int| 0 <= l < done.len() && done[l] == r;
        assert(under(t.arena@, r as int, done[l] as int));
    }
    assert forall|i: int, m: Measure|
        0 <= i < t.count() && under(t.arena@, i, r as int) implies #[trigger] done_total(
        t,
        done,
        m,
        i,
    ) == 0 by {
        assert forall|l: int| 0 <= l < done.len() implies !under(
            t.arena@,
            (#[trigger] done[l]) as int,
            i,
        ) by {
            assert(more[l] == done[l]);
            if under(t.arena@, done[l] as int, i) {
                lemma_under_transitive(t.arena@, done[l] as int, i, r as int);
            }
        }
        lemma_done_total_none(t, done, m, i);
    }
}

/// A root that is gone already changes nothing.
proof fn lemma_carve_gone(pre: Tree, cur: Tree, done: Seq<u32>, r: u32)
    requires
        pre.shaped(),
        pre.removal_closed(),
        antichain(pre, done.push(r)),
        carved(pre, cur, done),
        cur.arena@[r as int].removed,
    ensures
        carved(pre, cur, done.push(r)),
        forall|m: Measure, i: int| #[trigger]
            done_total(pre, done.push(r), m, i) == done_total(pre, done, m, i),
{
    let more = done.push(r);
    assert(more[done.len() as int] == r);
    lemma_joins(pre, done, r);
    assert(pre.arena@[r as int].removed);
    assert forall|i: int| 0 <= i < pre.count() implies (pre.arena@[i].removed || hit(pre, done, i))
        == (pre.arena@[i].removed || #[trigger] hit(pre, more, i)) by {
        lemma_hit_push(pre, done, r, i);
        if under(pre.arena@, i, r as int) {
            lemma_removed_below(pre, i, r as int);
        }
    }
    assert forall|m: Measure, i: int| #[trigger]
        done_total(pre, more, m, i) == done_total(pre, done, m, i) by {
        lemma_done_total(pre, done, r, m, i);
    }
    assert forall|i: int| 0 <= i < pre.count() implies (#[trigger] cur.arena@[i]).removed == (
    pre.arena@[i].removed || hit(pre, more, i)) by {}
}

/// Taking out one more subtree.
proof fn lemma_carve_one(pre: Tree, before: Tree, after: Tree, done: Seq<u32>, r: u32)
    requires
        pre.shaped(),
        pre.removal_closed(),
        antichain(pre, done.push(r)),
        carved(pre, before, done),
        !before.arena@[r as int].removed,
        lopped(before, after, r as int),
    ensures
        carved(pre, after, done.push(r)),
        forall|m: Measure| m.valid() ==> #[trigger] before.share(m, r as int) == pre.share(
            m,
            r as int,
        ),
{
    let more = done.push(r);
    let rid = r as int;
    assert(more[done.len() as int] == r);
    lemma_joins(pre, done, r);
    assert(before.arena@[rid] == relinked(pre.arena@[rid], before.arena@[rid]));
    assert forall|m: Measure| m.valid() implies #[trigger] before.share(m, rid) == pre.share(
        m,
        rid,
    ) by {
        if pre.arena@[rid].dir {
            assert(pre.is_folder(rid));
            assert(under(pre.arena@, rid, rid));
            assert(done_total(pre, done, m, rid) == 0);
            assert(before.total(m, rid) == pre.total(m, rid));
        }
    }
    assert forall|i: int| 0 <= i < pre.count() implies (#[trigger] before.arena@[i]).parent
        == pre.arena@[i].parent by {
        assert(before.arena@[i] == relinked(pre.arena@[i], before.arena@[i]));
    }
    assert forall|i: int| 0 <= i < pre.count() implies (#[trigger] after.arena@[i]) == relinked(
        pre.arena@[i],
        after.arena@[i],
    ) by {
        assert(before.arena@[i] == relinked(pre.arena@[i], before.arena@[i]));
        assert(after.arena@[i] == relinked(before.arena@[i], after.arena@[i]));
    }
    assert forall|i: int| 0 <= i < pre.count() implies (#[trigger] after.arena@[i]).removed == (
    pre.arena@[i].removed || hit(pre, more, i)) by {
        lemma_hit_push(pre, done, r, i);
        lemma_under_congruent(pre.arena@, before.arena@, i, rid);
        assert(before.arena@[i].removed == (pre.arena@[i].removed || hit(pre, done, i)));
    }
    assert forall|i: int, m: Measure|
        #![trigger after.total(m, i)]
        pre.is_folder(i) && m.valid() implies after.total(m, i) == if pre.arena@[i].removed || hit(
        pre,
        more,
        i,
    ) {
        pre.total(m, i)
    } else {
        less(pre.total(m, i), done_total(pre, more, m, i))
    } by {
        assert(before.arena@[i] == relinked(pre.arena@[i], before.arena@[i]));
        assert(before.is_folder(i));
        lemma_hit_push(pre, done, r, i);
        lemma_done_total(pre, done, r, m, i);
        lemma_under_congruent(pre.arena@, before.arena@, rid, i);
        assert(before.share(m, rid) == pre.share(m, rid));
        assert(before.total(m, i) == before.total(m, i));
        if i != rid && under(pre.arena@, rid, i) {
            if pre.arena@[i].removed {
                lemma_removed_below(pre, rid, i);
            }
            if hit(pre, done, i) {
                let l = choose|l: int|
                    0 <= l < done.len() && under(pre.arena@, i, #[trigger] done[l] as int);
                lemma_under_transitive(pre.arena@, rid, i, done[l] as int);
            }
            if under(pre.arena@, i, rid) {
                lemma_under_bound(pre.arena@, i, rid);
                lemma_under_bound(pre.arena@, rid, i);
            }
        } else if under(pre.arena@, i, rid) {
            assert(done_total(pre, done, m, i) == 0);
        }
    }
    assert forall|i: int|
        #![trigger after.arena@[i]]
        0 <= i < pre.count() && !pre.arena@[i].dir implies after.arena@[i].on_disk
        == pre.arena@[i].on_disk && after.arena@[i].logical == pre.arena@[i].logical by {
        assert(before.arena@[i] == relinked(pre.arena@[i], before.arena@[i]));
    }
    assert forall|i: int| #[trigger] pre.is_folder(i) implies same_besides_totals(
        pre.extra(i),
        after.extra(i),
    ) by {
        assert(before.arena@[i] == relinked(pre.arena@[i], before.arena@[i]));
        assert(before.is_folder(i));
    }
}

/// The list of folder `i` after a surgery: what survives of its list before,
/// largest first.
pub open spec fn kept_list(pre: Tree, post: Tree) -> spec_fn(int) -> Seq<u32> {
    |i: int| by_size(post.arena@, survivors(post.arena@, pre.slice(i)))
}

/// What a surgery with these roots makes of `pre`.
pub open spec fn operated(
    pre: Tree,
    roots: Seq<u32>,
    post: Tree,
    summary: RemovedSummary,
) -> bool {
    &&& same_links(pre, post)
    &&& forall|i: int|
        0 <= i < pre.count() ==> (#[trigger] post.arena@[i]).removed == (pre.arena@[i].removed
            || doomed(pre, roots, i))
    &&& forall|i: int, m: Measure|
        #![trigger post.total(m, i)]
        pre.is_folder(i) && m.valid() ==> post.total(m, i) == if post.arena@[i].removed {
            pre.total(m, i)
        } else {
            less(pre.total(m, i), cut_total(pre, roots, m, i))
        }
    &&& forall|i: int|
        #![trigger post.arena@[i]]
        0 <= i < pre.count() && !pre.arena@[i].dir ==> post.arena@[i].on_disk
            == pre.arena@[i].on_disk && post.arena@[i].logical == pre.arena@[i].logical
    &&& forall|i: int|
        #![trigger post.extra(i)]
        pre.is_folder(i) ==> post.extra(i).max_descendant_modified == pre.extra(
            i,
        ).max_descendant_modified
    &&& summary.nodes == live_count(pre) - live_count(post)
    &&& summary.on_disk == saturated(cut_total(pre, roots, Measure::OnDisk, 0))
    &&& summary.logical == saturated(cut_total(pre, roots, Measure::Logical, 0))
    &&& summary.files == saturated(cut_total(pre, roots, Measure::Files, 0))
    &&& summary.folders == saturated(cut_total(pre, roots, Measure::Folders, 0))
    &&& if summary.nodes == 0 {
        post == pre
    } else {
        &&& post.generation == pre.generation.saturating_add(1)
        &&& laid_out(post, kept_list(pre, post))
    }
}

/// The ids under one of the topmost roots are the doomed ones, and what is cut
/// are the topmost roots that were not removed.
proof fn lemma_topmost(t: Tree, roots: Seq<u32>, tops: Seq<u32>)
    requires
        t.shaped(),
        topmost(t, roots, tops),
    ensures
        forall|i: int| 0 <= i < t.count() ==> #[trigger] hit(t, tops, i) == doomed(t, roots, i),
        forall|m: Measure, i: int| #[trigger]
            done_total(t, tops, m, i) == cut_total(t, roots, m, i),
{
    assert forall|i: int| 0 <= i < t.count() implies #[trigger] hit(t, tops, i) == doomed(
        t,
        roots,
        i,
    ) by {
        if hit(t, tops, i) {
            let l = choose|l: int|
                0 <= l < tops.len() && under(t.arena@, i, #[trigger] tops[l] as int);
            assert(valid_root(t, roots, tops[l] as int));
        }
        if doomed(t, roots, i) {
            let r = choose|r: int| #[trigger] valid_root(t, roots, r) && under(t.arena@, i, r);
            assert(hit(t, tops, r));
            let l = choose|l: int|
                0 <= l < tops.len() && under(t.arena@, r, #[trigger] tops[l] as int);
            lemma_under_transitive(t.arena@, i, r, tops[l] as int);
        }
    }
    assert forall|m: Measure, i: int| #[trigger]
        done_total(t, tops, m, i) == cut_total(t, roots, m, i) by {
        let f = done_share(t, tops, m, i);
        let g = cut_share(t, roots, m, i);
        assert forall|j: int| 0 <= j < t.count() implies #[trigger] f(j) == g(j) by {
            lemma_topmost_cut(t, roots, tops, j);
        }
        lemma_sum_congruent(f, g, 0, t.count());
    }
}

proof fn lemma_topmost_cut(t: Tree, roots: Seq<u32>, tops: Seq<u32>, j: int)
    requires
        t.shaped(),
        topmost(t, roots, tops),
        0 <= j < t.count(),
    ensures
        tops.contains(j as u32) && !t.arena@[j].removed <==> cut(t, roots, j),
{
    if tops.contains(j as u32) {
        let k = choose|k: int| 0 <= k < tops.len() && tops[k] == j as u32;
        assert(roots.contains(tops[k]));
        assert(valid_root(t, roots, j));
        assert forall|q: int| #[trigger] valid_root(t, roots, q) && under(
            t.arena@,
            j,
            q,
        ) implies q == j by {
            assert(hit(t, tops, q));
            let l = choose|l: int|
                0 <= l < tops.len() && under(t.arena@, q, #[trigger] tops[l] as int);
            lemma_under_transitive(t.arena@, j, q, tops[l] as int);
            assert(tops[k] == j);
            lemma_under_bound(t.arena@, j, q);
            lemma_under_bound(t.arena@, q, tops[l] as int);
        }
    }
    if cut(t, roots, j) {
        assert(hit(t, tops, j));
        let l = choose|l: int| 0 <= l < tops.len() && under(t.arena@, j, #[trigger] tops[l] as int);
        assert(roots.contains(tops[l]));
        assert(valid_root(t, roots, tops[l] as int));
        assert(tops[l] == j as u32);
    }
}

/// What was carved out of a closed tree leaves it closed.
proof fn lemma_carved_closed(pre: Tree, cur: Tree, done: Seq<u32>)
    requires
        pre.shaped(),
        pre.removal_closed(),
        antichain(pre, done),
        carved(pre, cur, done),
    ensures
        cur.shaped(),
        cur.removal_closed(),
{
    lemma_same_links_shaped(pre, cur);
    assert(!cur.arena@[0].removed) by {
        if hit(pre, done, 0) {
            let l = choose|l: int|
                0 <= l < done.len() && under(pre.arena@, 0, #[trigger] done[l] as int);
            lemma_under_bound(pre.arena@, 0, done[l] as int);
        }
    }
    assert forall|i: int| 0 < i < cur.count() implies #[trigger] cur.inherits_removal(i) by {
        assert(pre.linked(i));
        assert(pre.inherits_removal(i));
        let p = pre.arena@[i].parent as int;
        assert(cur.arena@[i] == relinked(pre.arena@[i], cur.arena@[i]));
        assert(cur.arena@[p].removed == (pre.arena@[p].removed || hit(pre, done, p)));
        if hit(pre, done, p) {
            let l = choose|l: int|
                0 <= l < done.len() && under(pre.arena@, p, #[trigger] done[l] as int);
            assert(under(pre.arena@, i, done[l] as int));
        }
    }
}

/// Rebuild the lists: every folder that was not removed keeps what survives of
/// its list, sorted again; removed folders get an empty one.
fn compact_order(tree: &mut Tree)
    requires
        old(tree).shaped(),
        forall|i: int| #[trigger] old(tree).is_live_folder(i) ==> readable(*old(tree), i),
    ensures
        relisted(*old(tree), *final(tree)),
        laid_out(*final(tree), kept_list(*old(tree), *final(tree))),
{
    let ghost pre = *tree;
    rebuild_order(tree, false);
    proof {
        lemma_laid_out_congruent(*tree, listed(pre, false), kept_list(pre, *tree));
    }
}

/// Lists that were in order can be read after carving, and come out in order.
proof fn lemma_compacted(pre: Tree, cur: Tree, done: Seq<u32>, post: Tree)
    requires
        pre.wf(),
        carved(pre, cur, done),
        cur.shaped(),
        cur.removal_closed(),
        relisted(cur, post),
        laid_out(post, kept_list(cur, post)),
    ensures
        laid_out(post, kept_list(pre, post)),
        same_links(pre, post),
        post.wf(),
        forall|i: int, m: Measure|
            #![trigger post.total(m, i)]
            pre.is_folder(i) && m.valid() ==> post.total(m, i) == cur.total(m, i),
{
    lemma_same_shape(cur, post);
    assert forall|i: int| 0 <= i < pre.count() implies (#[trigger] post.arena@[i]) == relinked(
        pre.arena@[i],
        post.arena@[i],
    ) by {
        assert(cur.arena@[i] == relinked(pre.arena@[i], cur.arena@[i]));
    }
    assert forall|i: int, m: Measure|
        #![trigger post.total(m, i)]
        pre.is_folder(i) && m.valid() implies post.total(m, i) == cur.total(m, i) by {
        assert(pre.slotted(i));
        assert(cur.arena@[i] == relinked(pre.arena@[i], cur.arena@[i]));
    }
    assert forall|i: int| #[trigger] post.is_live_folder(i) implies cur.slice(i) == pre.slice(i)
        && pre.is_live_folder(i) by {
        assert(cur.arena@[i] == relinked(pre.arena@[i], cur.arena@[i]));
        assert(pre.is_folder(i));
    }
    assert forall|i: int| post.is_live_folder(i) implies #[trigger] kept_list(cur, post)(i)
        == kept_list(pre, post)(i) by {
        assert(cur.slice(i) == pre.slice(i));
    }
    lemma_laid_out_congruent(post, kept_list(cur, post), kept_list(pre, post));
    assert forall|i: int| 0 < i < post.count() implies #[trigger] post.inherits_removal(i) by {
        assert(cur.inherits_removal(i));
    }
    assert forall|i: int| #[trigger] post.is_live_folder(i) implies post.slice_ordered(i) by {
        lemma_laid_out_slice(post, kept_list(pre, post), i);
        assert(pre.is_live_folder(i));
        assert(pre.slice_ordered(i));
        let source = pre.slice(i);
        assert forall|j: int|
            #![trigger post.arena@[j]]
            0 <= j < post.count() && !post.arena@[j].removed implies (source.contains(j as u32)
            <==> post.is_child(i, j)) by {
            assert(source.contains(j as u32) <==> pre.is_child(i, j) && !pre.arena@[j].removed);
            assert(cur.arena@[j].removed == (pre.arena@[j].removed || hit(pre, done, j)));
            assert(post.arena@[j] == relinked(pre.arena@[j], post.arena@[j]));
        }
        lemma_slice_ordered(post, i, source);
    }
}

/// Take the subtrees of `roots` out of the tree and say what that removed.
///
/// A root below another root is absorbed by it, ids that are not in the arena
/// are passed over, and the scan root stays: asking for it changes nothing. A
/// surgery that removes nothing leaves the tree, its generation included, as
/// it was.
pub fn remove_subtrees(tree: &mut Tree, roots: &[u32]) -> (summary: RemovedSummary)
    requires
        old(tree).wf(),
    ensures
        operated(*old(tree), roots@, *final(tree), summary),
        final(tree).wf(),
{
    let ghost pre = *tree;
    let effective: Vec<u32> = effective_roots(tree, roots);
    let mut summary: RemovedSummary = RemovedSummary {
        nodes: 0,
        on_disk: 0,
        logical: 0,
        files: 0,
        folders: 0,
    };
    let mut k: usize = 0;
    proof {
        lemma_live_count_bound(pre);
        lemma_carved_start(pre);
        assert(effective@.take(0) =~= Seq::<u32>::empty());
    }
    while k < effective.len()
        invariant
            k <= effective@.len(),
            pre.wf(),
            live_count(pre) <= pre.count(),
            antichain(pre, effective@),
            tree.shaped(),
            tree.removal_closed(),
            carved(pre, *tree, effective@.take(k as int)),
            counted(pre, *tree, effective@.take(k as int), summary),
            live_count(*tree) <= live_count(pre),
            summary.nodes == 0 ==> *tree == pre,
        decreases effective@.len() - k,
    {
        let root: u32 = effective[k];
        let ghost before = *tree;
        let ghost done = effective@.take(k as int);
        proof {
            assert(effective@.take(k + 1) =~= done.push(root));
            lemma_antichain_prefix(pre, effective@, k + 1);
        }
        remove_one(tree, root, &mut summary);
        proof {
            lemma_joins(pre, done, root);
            if before.arena@[root as int].removed {
                lemma_carve_gone(pre, before, done, root);
            } else {
                lemma_carve_one(pre, before, *tree, done, root);
                assert(before.arena@[root as int].removed == (pre.arena@[root as int].removed
                    || hit(pre, done, root as int)));
                lemma_under_root(pre, root as int);
                lemma_done_total(pre, done, root, Measure::OnDisk, 0);
                lemma_done_total(pre, done, root, Measure::Logical, 0);
                lemma_done_total(pre, done, root, Measure::Files, 0);
                lemma_done_total(pre, done, root, Measure::Folders, 0);
                assert(before.share(Measure::OnDisk, root as int) == pre.share(
                    Measure::OnDisk,
                    root as int,
                ));
                assert(before.share(Measure::Logical, root as int) == pre.share(
                    Measure::Logical,
                    root as int,
                ));
                assert(before.share(Measure::Files, root as int) == pre.share(
                    Measure::Files,
                    root as int,
                ));
                assert(before.share(Measure::Folders, root as int) == pre.share(
                    Measure::Folders,
                    root as int,
                ));
            }
            lemma_carved_closed(pre, *tree, done.push(root));
        }
        k = k + 1;
    }
    let ghost cur = *tree;
    proof {
        assert(effective@.take(k as int) =~= effective@);
        lemma_topmost(pre, roots@, effective@);
    }
    if summary.nodes > 0 {
        proof {
            assert forall|i: int| #[trigger] tree.is_live_folder(i) implies readable(*tree, i) by {
                assert(cur.arena@[i] == relinked(pre.arena@[i], cur.arena@[i]));
                assert(pre.is_folder(i) && pre.is_live_folder(i));
                lemma_readable(pre, i);
                assert(cur.slice(i) == pre.slice(i));
            }
        }
        compact_order(tree);
        proof {
            lemma_compacted(pre, cur, effective@, *tree);
            lemma_sum_congruent(live_mark(cur), live_mark(*tree), 0, pre.count());
        }
        let ghost listed_tree = *tree;
        tree.generation = tree.generation.saturating_add(1);
        proof {
            lemma_next_generation(listed_tree, *tree, kept_list(pre, listed_tree));
            assert(kept_list(pre, listed_tree) =~= kept_list(pre, *tree));
            lemma_sum_congruent(live_mark(listed_tree), live_mark(*tree), 0, pre.count());
            assert forall|i: int|
                #![trigger tree.extra(i)]
                pre.is_folder(i) implies tree.extra(i).max_descendant_modified == cur.extra(
                i,
            ).max_descendant_modified by {
                assert(cur.slotted(i));
                assert(listed_tree.dir_extras@[cur.arena@[i].dir_index as int]
                    == listed_tree.extra(i));
            }
            lemma_operated(pre, roots@, cur, effective@, *tree, summary);
        }
    } else {
        proof {
            lemma_operated(pre, roots@, cur, effective@, *tree, summary);
        }
    }
    summary
}

proof fn lemma_carved_start(t: Tree)
    requires
        t.shaped(),
    ensures
        carved(t, t, Seq::empty()),
        forall|m: Measure, i: int| #[trigger] done_total(t, Seq::empty(), m, i) == 0,
{
    assert forall|m: Measure, i: int| #[trigger] done_total(t, Seq::empty(), m, i) == 0 by {
        lemma_done_total_none(t, Seq::empty(), m, i);
    }
}

proof fn lemma_antichain_prefix(t: Tree, tops: Seq<u32>, n: int)
    requires
        antichain(t, tops),
        0 <= n <= tops.len(),
    ensures
        antichain(t, tops.take(n)),
{
    let some = tops.take(n);
    assert forall|k: int| 0 <= k < some.len() implies 0 < (#[trigger] some[k]) < t.count() by {
        assert(some[k] == tops[k]);
    }
    assert forall|k: int, l: int|
        0 <= k < some.len() && 0 <= l < some.len() && k != l implies !under(
        t.arena@,
        (#[trigger] some[k]) as int,
        (#[trigger] some[l]) as int,
    ) by {
        assert(some[k] == tops[k] && some[l] == tops[l]);
    }
}

/// The generation is no part of what a tree holds.
proof fn lemma_next_generation(t: Tree, u: Tree, listing: spec_fn(int) -> Seq<u32>)
    requires
        t.wf(),
        laid_out(t, listing),
        u == (Tree { generation: u.generation, ..t }),
    ensures
        u.wf(),
        laid_out(u, listing),
        forall|i: int, m: Measure| #[trigger] u.total(m, i) == t.total(m, i),
{
    lemma_packed_same(t, u, listing);
    assert forall|i: int| 0 <= i < t.count() implies (#[trigger] u.arena@[i]) == relinked(
        t.arena@[i],
        u.arena@[i],
    ) by {}
    lemma_same_links_shaped(t, u);
    assert forall|i: int| 0 < i < u.count() implies #[trigger] u.inherits_removal(i) by {
        assert(t.inherits_removal(i));
    }
    assert forall|i: int| #[trigger] u.is_live_folder(i) implies u.slice_ordered(i) by {
        assert(t.is_live_folder(i));
        assert(t.slice_ordered(i));
        assert(u.slice(i) == t.slice(i));
        assert forall|j: int|
            #![trigger u.slice(i).contains(j as u32)]
            0 <= j < u.count() implies (u.slice(i).contains(j as u32) <==> u.is_child(i, j)
            && !u.arena@[j].removed) by {
            assert(t.slice(i).contains(j as u32) <==> t.is_child(i, j) && !t.arena@[j].removed);
        }
    }
}

proof fn lemma_operated(
    pre: Tree,
    roots: Seq<u32>,
    cur: Tree,
    tops: Seq<u32>,
    post: Tree,
    summary: RemovedSummary,
)
    requires
        pre.shaped(),
        topmost(pre, roots, tops),
        carved(pre, cur, tops),
        counted(pre, cur, tops, summary),
        same_links(pre, post),
        post.arena@ == cur.arena@,
        live_count(post) == live_count(cur),
        forall|i: int, m: Measure|
            #![trigger post.total(m, i)]
            pre.is_folder(i) && m.valid() ==> post.total(m, i) == cur.total(m, i),
        forall|i: int|
            #![trigger post.extra(i)]
            pre.is_folder(i) ==> post.extra(i).max_descendant_modified == cur.extra(
                i,
            ).max_descendant_modified,
        if summary.nodes == 0 {
            post == pre
        } else {
            &&& post.generation == pre.generation.saturating_add(1)
            &&& laid_out(post, kept_list(pre, post))
        },
    ensures
        operated(pre, roots, post, summary),
{
    lemma_topmost(pre, roots, tops);
    assert forall|i: int| 0 <= i < pre.count() implies (#[trigger] post.arena@[i]).removed == (
    pre.arena@[i].removed || doomed(pre, roots, i)) by {
        assert(cur.arena@[i].removed == (pre.arena@[i].removed || hit(pre, tops, i)));
    }
    assert forall|i: int, m: Measure|
        #![trigger post.total(m, i)]
        pre.is_folder(i) && m.valid() implies post.total(m, i) == if post.arena@[i].removed {
        pre.total(m, i)
    } else {
        less(pre.total(m, i), cut_total(pre, roots, m, i))
    } by {
        assert(post.total(m, i) == cur.total(m, i));
        assert(cur.arena@[i].removed == (pre.arena@[i].removed || hit(pre, tops, i)));
        assert(done_total(pre, tops, m, i) == cut_total(pre, roots, m, i));
    }
    assert forall|i: int|
        #![trigger post.arena@[i]]
        0 <= i < pre.count() && !pre.arena@[i].dir implies post.arena@[i].on_disk
        == pre.arena@[i].on_disk && post.arena@[i].logical == pre.arena@[i].logical by {
        assert(cur.arena@[i] == cur.arena@[i]);
    }
    assert forall|i: int|
        #![trigger post.extra(i)]
        pre.is_folder(i) implies post.extra(i).max_descendant_modified == pre.extra(
        i,
    ).max_descendant_modified by {
        assert(same_besides_totals(pre.extra(i), cur.extra(i)));
    }
    assert(done_total(pre, tops, Measure::OnDisk, 0) == cut_total(pre, roots, Measure::OnDisk, 0));
    assert(done_total(pre, tops, Measure::Logical, 0) == cut_total(
        pre,
        roots,
        Measure::Logical,
        0,
    ));
    assert(done_total(pre, tops, Measure::Files, 0) == cut_total(pre, roots, Measure::Files, 0));
    assert(done_total(pre, tops, Measure::Folders, 0) == cut_total(
        pre,
        roots,
        Measure::Folders,
        0,
    ));
}

/// Where to look after a surgery: the node itself, or its nearest ancestor that
/// was not removed. An unknown id leads to the scan root.
#[must_use]
pub fn fixup_navigation(tree: &Tree, current: u32) -> (id: u32)
    requires
        tree.shaped(),
        !tree.arena@[0].removed,
    ensures
        id < tree.count(),
        !tree.arena@[id as int].removed,
        current >= tree.count() ==> id == 0,
        current < tree.count() ==> {
            &&& under(tree.arena@, current as int, id as int)
            &&& forall|q: int| #[trigger]
                under(tree.arena@, current as int, q) && !tree.arena@[q].removed ==> q <= id
        },
{
    if current as usize >= tree.arena.len() {
        return 0;
    }
    let mut id: u32 = current;
    proof {
        assert forall|q: int| #[trigger]
            under(tree.arena@, current as int, q) implies q <= current by {
            lemma_under_bound(tree.arena@, current as int, q);
        }
    }
    while tree.arena[id as usize].removed
        invariant
            tree.shaped(),
            !tree.arena@[0].removed,
            current < tree.count(),
            id < tree.count(),
            under(tree.arena@, current as int, id as int),
            forall|q: int| #[trigger]
                under(tree.arena@, current as int, q) && !tree.arena@[q].removed ==> q <= id,
        decreases id,
    {
        proof {
            assert(tree.linked(id as int));
            let up = tree.arena@[id as int].parent as int;
            assert(under(tree.arena@, up, up));
            assert(under(tree.arena@, id as int, up));
            lemma_under_transitive(tree.arena@, current as int, id as int, up);
            assert forall|q: int| #[trigger]
                under(tree.arena@, current as int, q) && !tree.arena@[q].removed implies q
                <= up by {
                lemma_under_chain(tree.arena@, current as int, q, id as int);
                lemma_under_bound(tree.arena@, up, q);
            }
        }
        id = tree.arena[id as usize].parent;
    }
    id
}

/// True when the node is unknown or was removed.
#[must_use]
pub fn node_gone(tree: &Tree, id: u32) -> (gone: bool)
    ensures
        gone == (id >= tree.count() || tree.arena@[id as int].removed),
{
    match tree.node(id) {
        Some(node) => node.removed,
        None => true,
    }
}

} // verus!
