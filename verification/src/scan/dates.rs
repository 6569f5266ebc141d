//! The latest change below a folder.
//!
//! Times are rolled up once, with the totals. Surgery leaves them: a folder goes
//! on showing the latest change of all that ever lay below it.

use crate::scan::ancestry::{lemma_under_bound, lemma_under_transitive};
use crate::scan::node::{under, DirExtra, Node, Tree};
use crate::scan::surgery::{operated, RemovedSummary};
use crate::scan::totals::relinked;
use vstd::prelude::*;

verus! {

/// The latest change of node `i` and of what lies below it.
pub open spec fn date(t: Tree, i: int) -> i64 {
    let node = t.arena@[i];
    if node.dir && t.extra(i).max_descendant_modified > node.modified {
        t.extra(i).max_descendant_modified
    } else {
        node.modified
    }
}

/// Folder `i` stores the latest date of its children with an id of at least
/// `from`; 0 where there is none or none is later.
pub open spec fn dates_from(t: Tree, i: int, from: int) -> bool {
    let latest = t.extra(i).max_descendant_modified;
    &&& 0 <= latest
    &&& forall|k: int| from <= k && #[trigger] t.is_child(i, k) ==> date(t, k) <= latest
    &&& latest > 0 ==> exists|k: int|
        from <= k && #[trigger] t.is_child(i, k) && date(t, k) == latest
}

/// Every folder stores the latest date of its children.
pub open spec fn dated(t: Tree) -> bool {
    forall|i: int| #[trigger] t.is_folder(i) ==> dates_from(t, i, 1)
}

/// Every folder stores the latest date of its children from id `from` on.
spec fn dated_from(t: Tree, from: int) -> bool {
    forall|i: int| #[trigger] t.is_folder(i) ==> dates_from(t, i, from)
}

/// `post` is `pre` but for the latest changes below the folders.
pub open spec fn redated(pre: Tree, post: Tree) -> bool {
    &&& post.arena@ == pre.arena@
    &&& post.order == pre.order
    &&& post.names == pre.names
    &&& post.roots == pre.roots
    &&& post.root == pre.root
    &&& post.generation == pre.generation
    &&& post.dir_extras@.len() == pre.dir_extras@.len()
    &&& forall|k: int|
        0 <= k < pre.dir_extras@.len() ==> (#[trigger] post.dir_extras@[k]) == (DirExtra {
            max_descendant_modified: post.dir_extras@[k].max_descendant_modified,
            ..pre.dir_extras@[k]
        })
}

/// The date of node `j` counts for its parent: one child more is dated.
proof fn lemma_date_step(pre: Tree, post: Tree, j: int)
    requires
        pre.shaped(),
        0 < j < pre.count(),
        redated(pre, post),
        dated_from(pre, j + 1),
        ({
            let p = pre.arena@[j].parent as int;
            let slot = pre.arena@[p].dir_index as int;
            let old_latest = pre.extra(p).max_descendant_modified;
            &&& post.extra(p).max_descendant_modified == if date(pre, j) > old_latest {
                date(pre, j)
            } else {
                old_latest
            }
            &&& forall|k: int|
                0 <= k < pre.dir_extras@.len() && k != slot ==> (#[trigger] post.dir_extras@[k])
                    == pre.dir_extras@[k]
        }),
    ensures
        dated_from(post, j),
{
    let p = pre.arena@[j].parent as int;
    assert(pre.linked(j));
    assert(pre.is_folder(p));
    assert forall|i: int| pre.is_folder(i) && i != p implies #[trigger] post.extra(i)
        == pre.extra(i) by {
        assert(pre.slotted(i));
    }
    assert forall|k: int| j <= k < pre.count() implies #[trigger] date(post, k) == date(
        pre,
        k,
    ) by {
        if pre.arena@[k].dir {
            assert(pre.is_folder(k));
        }
    }
    assert forall|i: int| #[trigger] post.is_folder(i) implies dates_from(post, i, j) by {
        assert(pre.is_folder(i));
        assert(dates_from(pre, i, j + 1));
        assert forall|k: int| j <= k && #[trigger] post.is_child(i, k) implies date(post, k)
            <= post.extra(i).max_descendant_modified by {
            assert(pre.is_child(i, k));
        }
        let latest = post.extra(i).max_descendant_modified;
        if latest > 0 {
            if i == p && date(pre, j) == latest {
                assert(post.is_child(i, j));
            } else {
                let k = choose|k: int|
                    j + 1 <= k && #[trigger] pre.is_child(i, k) && date(pre, k) == latest;
                assert(post.is_child(i, k));
            }
        }
    }
}

/// Store the latest change below every folder. No folder has one yet.
pub fn date_folders(tree: &mut Tree)
    requires
        old(tree).shaped(),
        forall|i: int| #[trigger]
            old(tree).is_folder(i) ==> old(tree).extra(i).max_descendant_modified == 0,
    ensures
        redated(*old(tree), *final(tree)),
        final(tree).shaped(),
        dated(*final(tree)),
{
    let ghost pre = *tree;
    let mut i: usize = tree.arena.len();
    while i > 1
        invariant
            1 <= i <= pre.count(),
            pre.shaped(),
            tree.shaped(),
            redated(pre, *tree),
            dated_from(*tree, i as int),
        decreases i,
    {
        i = i - 1;
        let ghost before = *tree;
        let node: Node = tree.arena[i];
        proof {
            assert(tree.linked(i as int));
            assert(tree.slotted(i as int));
            assert(tree.slotted(node.parent as int));
        }
        let mut latest: i64 = node.modified;
        if node.dir {
            let below: i64 = tree.dir_extras[node.dir_index as usize].max_descendant_modified;
            if below > latest {
                latest = below;
            }
        }
        let slot: usize = tree.arena[node.parent as usize].dir_index as usize;
        let mut extra: DirExtra = tree.dir_extras[slot];
        if latest > extra.max_descendant_modified {
            extra.max_descendant_modified = latest;
        }
        tree.dir_extras[slot] = extra;
        proof {
            lemma_date_step(before, *tree, i as int);
            lemma_redated_shaped(before, *tree);
        }
    }
}

proof fn lemma_redated_shaped(pre: Tree, post: Tree)
    requires
        pre.shaped(),
        redated(pre, post),
    ensures
        post.shaped(),
{
    assert forall|i: int| 0 < i < post.count() implies #[trigger] post.linked(i) by {
        assert(pre.linked(i));
    }
    assert forall|i: int| 0 <= i < post.count() implies #[trigger] post.ranged(i) by {
        assert(pre.ranged(i));
    }
    assert forall|i: int| 0 <= i < post.count() implies #[trigger] post.slotted(i) by {
        assert(pre.slotted(i));
    }
    assert forall|i: int, j: int|
        0 <= i < j < post.count() && #[trigger] post.is_folder(i) && #[trigger] post.is_folder(
            j,
        ) implies post.arena@[i].dir_index != post.arena@[j].dir_index by {
        assert(pre.is_folder(i) && pre.is_folder(j));
    }
}

/// Dates speak of links, times and what the folders store alone.
pub proof fn lemma_dated_congruent(a: Tree, b: Tree)
    requires
        a.shaped(),
        dated(a),
        b.count() == a.count(),
        forall|i: int|
            #![trigger b.arena@[i]]
            0 <= i < a.count() ==> {
                &&& b.arena@[i].parent == a.arena@[i].parent
                &&& b.arena@[i].modified == a.arena@[i].modified
                &&& b.arena@[i].dir == a.arena@[i].dir
            },
        forall|i: int|
            #![trigger b.extra(i)]
            a.is_folder(i) ==> b.extra(i).max_descendant_modified == a.extra(
                i,
            ).max_descendant_modified,
    ensures
        dated(b),
{
    assert forall|k: int| 0 <= k < a.count() implies #[trigger] date(b, k) == date(a, k) by {
        assert(b.arena@[k].modified == a.arena@[k].modified);
        if a.arena@[k].dir {
            assert(a.is_folder(k));
            assert(b.extra(k).max_descendant_modified == a.extra(k).max_descendant_modified);
        }
    }
    assert forall|i: int| #[trigger] b.is_folder(i) implies dates_from(b, i, 1) by {
        assert(b.arena@[i].dir == a.arena@[i].dir);
        assert(a.is_folder(i));
        assert(dates_from(a, i, 1));
        assert(b.extra(i).max_descendant_modified == a.extra(i).max_descendant_modified);
        assert forall|k: int| 1 <= k && #[trigger] b.is_child(i, k) implies date(b, k) <= b.extra(
            i,
        ).max_descendant_modified by {
            assert(b.arena@[k].parent == a.arena@[k].parent);
            assert(a.is_child(i, k));
        }
        if b.extra(i).max_descendant_modified > 0 {
            let k = choose|k: int|
                1 <= k && #[trigger] a.is_child(i, k) && date(a, k) == a.extra(
                    i,
                ).max_descendant_modified;
            assert(b.arena@[k].parent == a.arena@[k].parent);
            assert(b.is_child(i, k));
        }
    }
}

/// The dates of what lies below a folder are at most what it stores.
proof fn lemma_date_below(t: Tree, i: int, x: int)
    requires
        t.shaped(),
        dated(t),
        t.is_folder(i),
        0 <= x < t.count(),
        x != i,
        under(t.arena@, x, i),
    ensures
        date(t, x) <= t.extra(i).max_descendant_modified,
    decreases x,
{
    assert(t.linked(x));
    let p = t.arena@[x].parent as int;
    assert(t.is_folder(p));
    assert(dates_from(t, p, 1));
    assert(t.is_child(p, x));
    if p != i {
        lemma_date_below(t, i, p);
    }
}

/// Something below a folder was changed at the time that the folder stores.
proof fn lemma_date_witness(t: Tree, i: int) -> (x: int)
    requires
        t.shaped(),
        dated(t),
        t.is_folder(i),
        t.extra(i).max_descendant_modified > 0,
    ensures
        0 <= x < t.count(),
        x != i,
        under(t.arena@, x, i),
        t.arena@[x].modified == t.extra(i).max_descendant_modified,
    decreases t.count() - i,
{
    let latest = t.extra(i).max_descendant_modified;
    assert(dates_from(t, i, 1));
    let k = choose|k: int| 1 <= k && #[trigger] t.is_child(i, k) && date(t, k) == latest;
    assert(t.linked(k));
    assert(under(t.arena@, i, i));
    assert(under(t.arena@, k, i));
    if t.arena@[k].modified == latest {
        k
    } else {
        assert(t.is_folder(k));
        let x = lemma_date_witness(t, k);
        lemma_under_transitive(t.arena@, x, k, i);
        lemma_under_bound(t.arena@, x, k);
        x
    }
}

/// What a folder stores is the latest change below it, or 0 where that is later:
/// nothing below was changed later, and unless it is 0 something was changed then.
pub proof fn law_folder_stores_latest_change(t: Tree, i: int)
    requires
        t.shaped(),
        dated(t),
        t.is_folder(i),
    ensures
        t.extra(i).max_descendant_modified >= 0,
        forall|x: int|
            0 <= x < t.count() && x != i && #[trigger] under(t.arena@, x, i) ==> t.arena@[x].modified
                <= t.extra(i).max_descendant_modified,
        t.extra(i).max_descendant_modified != 0 ==> exists|x: int|
            0 <= x < t.count() && x != i && #[trigger] under(t.arena@, x, i) && t.arena@[x].modified
                == t.extra(i).max_descendant_modified,
{
    assert forall|x: int| 0 <= x < t.count() && x != i && #[trigger] under(
        t.arena@,
        x,
        i,
    ) implies t.arena@[x].modified <= t.extra(i).max_descendant_modified by {
        lemma_date_below(t, i, x);
    }
    assert(dates_from(t, i, 1));
    if t.extra(i).max_descendant_modified != 0 {
        let x = lemma_date_witness(t, i);
        assert(under(t.arena@, x, i));
    }
}

/// Surgery leaves the latest changes as they are: what a folder stores stays the
/// latest change of all that ever lay below it, and is never too early.
pub proof fn law_surgery_keeps_latest_changes(
    pre: Tree,
    roots: Seq<u32>,
    post: Tree,
    summary: RemovedSummary,
)
    requires
        pre.wf(),
        dated(pre),
        operated(pre, roots, post, summary),
    ensures
        dated(post),
        forall|i: int|
            #![trigger post.extra(i)]
            pre.is_folder(i) ==> post.extra(i).max_descendant_modified == pre.extra(
                i,
            ).max_descendant_modified,
{
    assert forall|i: int|
        #![trigger post.arena@[i]]
        0 <= i < pre.count() implies post.arena@[i] == relinked(pre.arena@[i], post.arena@[i]) by {}
    lemma_dated_congruent(pre, post);
}

} // verus!
