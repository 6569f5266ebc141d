//! In which order siblings are listed, and what a batch of children leaves as it
//! was.

use crate::scan::growth::{grown, stands};
use crate::scan::names::shown_as;
use crate::scan::node::{BatchEntry, Node, RootPath, Tree};
use crate::scan::order::{child_ids, laid_out, lemma_laid_out_slice, listed, survivors};
use crate::scan::ranking::{by_size, inserted, lemma_by_size};
use crate::scan::rollup::same_files;
use crate::scan::sums::{saturated, sum};
use crate::scan::surgery::{kept_list, operated, RemovedSummary};
use crate::scan::totals::{relinked, same_links};
use crate::text::utf16_text;
use vstd::prelude::*;

verus! {

/// Of equal sizes the one with the lower rank comes first.
spec fn stable(arena: Seq<Node>, ids: Seq<u32>, rank: spec_fn(u32) -> int) -> bool {
    forall|k: int, l: int|
        0 <= k < l < ids.len() && arena[(#[trigger] ids[k]) as int].on_disk == arena[(
        #[trigger] ids[l]) as int].on_disk ==> rank(ids[k]) < rank(ids[l])
}

/// The ranks ascend.
spec fn ascending(ids: Seq<u32>, rank: spec_fn(u32) -> int) -> bool {
    forall|k: int, l: int|
        0 <= k < l < ids.len() ==> rank(#[trigger] ids[k]) < rank(#[trigger] ids[l])
}

proof fn lemma_inserted_members(arena: Seq<Node>, ids: Seq<u32>, id: u32)
    ensures
        inserted(arena, ids, id).len() == ids.len() + 1,
        forall|k: int|
            0 <= k < inserted(arena, ids, id).len() ==> (#[trigger] inserted(arena, ids, id)[k])
                == id || ids.contains(inserted(arena, ids, id)[k]),
    decreases ids.len(),
{
    let out = inserted(arena, ids, id);
    if ids.len() > 0 && !(arena[ids.last() as int].on_disk >= arena[id as int].on_disk) {
        let front = ids.drop_last();
        lemma_inserted_members(arena, front, id);
        let inner = inserted(arena, front, id);
        assert forall|k: int| 0 <= k < out.len() implies (#[trigger] out[k]) == id
            || ids.contains(out[k]) by {
            if k < inner.len() {
                assert(out[k] == inner[k]);
                if inner[k] != id {
                    let m = choose|m: int| 0 <= m < front.len() && front[m] == inner[k];
                    assert(ids[m] == out[k]);
                }
            } else {
                assert(out[k] == ids[ids.len() - 1]);
            }
        }
    } else if ids.len() > 0 {
        assert forall|k: int| 0 <= k < out.len() implies (#[trigger] out[k]) == id
            || ids.contains(out[k]) by {
            if k < ids.len() {
                assert(out[k] == ids[k]);
            }
        }
    }
}

proof fn lemma_inserted_stable(
    arena: Seq<Node>,
    ids: Seq<u32>,
    id: u32,
    rank: spec_fn(u32) -> int,
)
    requires
        stable(arena, ids, rank),
        forall|k: int| 0 <= k < ids.len() ==> rank(#[trigger] ids[k]) < rank(id),
    ensures
        stable(arena, inserted(arena, ids, id), rank),
    decreases ids.len(),
{
    let out = inserted(arena, ids, id);
    if ids.len() == 0 {
    } else if arena[ids.last() as int].on_disk >= arena[id as int].on_disk {
        assert forall|k: int, l: int|
            0 <= k < l < out.len() && arena[(#[trigger] out[k]) as int].on_disk == arena[(
            #[trigger] out[l]) as int].on_disk implies rank(out[k]) < rank(out[l]) by {
            assert(out[k] == ids[k]);
            if l < ids.len() {
                assert(out[l] == ids[l]);
            }
        }
    } else {
        let front = ids.drop_last();
        assert forall|k: int, l: int|
            0 <= k < l < front.len() && arena[(#[trigger] front[k]) as int].on_disk == arena[(
            #[trigger] front[l]) as int].on_disk implies rank(front[k]) < rank(front[l]) by {
            assert(front[k] == ids[k] && front[l] == ids[l]);
        }
        assert forall|k: int| 0 <= k < front.len() implies rank(#[trigger] front[k]) < rank(id) by {
            assert(front[k] == ids[k]);
        }
        lemma_inserted_stable(arena, front, id, rank);
        lemma_inserted_members(arena, front, id);
        let inner = inserted(arena, front, id);
        assert forall|k: int, l: int|
            0 <= k < l < out.len() && arena[(#[trigger] out[k]) as int].on_disk == arena[(
            #[trigger] out[l]) as int].on_disk implies rank(out[k]) < rank(out[l]) by {
            assert(out[k] == inner[k]);
            if l < inner.len() {
                assert(out[l] == inner[l]);
            } else {
                assert(out[l] == ids[ids.len() - 1]);
                if inner[k] != id {
                    let m = choose|m: int| 0 <= m < front.len() && front[m] == inner[k];
                    assert(ids[m] == out[k]);
                }
            }
        }
    }
}

proof fn lemma_by_size_stable(arena: Seq<Node>, ids: Seq<u32>, rank: spec_fn(u32) -> int)
    requires
        ascending(ids, rank),
    ensures
        stable(arena, by_size(arena, ids), rank),
    decreases ids.len(),
{
    if ids.len() > 0 {
        let front = ids.drop_last();
        assert forall|k: int, l: int| 0 <= k < l < front.len() implies rank(#[trigger] front[k])
            < rank(#[trigger] front[l]) by {
            assert(front[k] == ids[k] && front[l] == ids[l]);
        }
        lemma_by_size_stable(arena, front, rank);
        lemma_by_size(arena, front);
        let sorted = by_size(arena, front);
        assert forall|k: int| 0 <= k < sorted.len() implies rank(#[trigger] sorted[k]) < rank(
            ids.last(),
        ) by {
            assert(sorted.contains(sorted[k]));
            let m = choose|m: int| 0 <= m < front.len() && front[m] == sorted[k];
            assert(ids[m] == sorted[k]);
            assert(ids[ids.len() - 1] == ids.last());
        }
        lemma_inserted_stable(arena, sorted, ids.last(), rank);
    }
}

/// What is kept of an ascending sequence ascends.
proof fn lemma_survivors_ascend(arena: Seq<Node>, ids: Seq<u32>, rank: spec_fn(u32) -> int)
    requires
        ascending(ids, rank),
    ensures
        ascending(survivors(arena, ids), rank),
        forall|k: int|
            0 <= k < survivors(arena, ids).len() ==> ids.contains(
                #[trigger] survivors(arena, ids)[k],
            ),
    decreases ids.len(),
{
    reveal(Seq::filter);
    let out = survivors(arena, ids);
    if ids.len() > 0 {
        let front = ids.drop_last();
        assert forall|k: int, l: int| 0 <= k < l < front.len() implies rank(#[trigger] front[k])
            < rank(#[trigger] front[l]) by {
            assert(front[k] == ids[k] && front[l] == ids[l]);
        }
        lemma_survivors_ascend(arena, front, rank);
        let kept = survivors(arena, front);
        assert forall|k: int| 0 <= k < out.len() implies ids.contains(#[trigger] out[k]) by {
            if k < kept.len() {
                assert(out[k] == kept[k]);
                let m = choose|m: int| 0 <= m < front.len() && front[m] == kept[k];
                assert(ids[m] == out[k]);
            } else {
                assert(out[k] == ids[ids.len() - 1]);
            }
        }
        assert forall|k: int, l: int| 0 <= k < l < out.len() implies rank(#[trigger] out[k])
            < rank(#[trigger] out[l]) by {
            assert(out[k] == kept[k]);
            if l < kept.len() {
                assert(out[l] == kept[l]);
            } else {
                let m = choose|m: int| 0 <= m < front.len() && front[m] == kept[k];
                assert(ids[m] == out[k]);
                assert(ids[ids.len() - 1] == out[l]);
            }
        }
    }
}

/// In a tree that was just rolled up siblings of equal size are listed by id, and
/// larger ones first.
pub proof fn law_equal_siblings_are_listed_by_id(t: Tree, i: int, k: int, l: int)
    requires
        t.wf(),
        laid_out(t, listed(t, true)),
        0 <= i < t.arena@.len(),
        t.arena@[i].dir,
        !t.arena@[i].removed,
        0 <= k < l < t.slice(i).len(),
    ensures
        ({
            let x = t.slice(i)[k];
            let y = t.slice(i)[l];
            let a = t.arena@[x as int].on_disk;
            let b = t.arena@[y as int].on_disk;
            a > b || (a == b && x < y)
        }),
{
    assert(t.is_live_folder(i));
    lemma_laid_out_slice(t, listed(t, true), i);
    let rank = |x: u32| x as int;
    assert(t.ranged(i));
    assert(ascending(child_ids(t, i), rank));
    lemma_survivors_ascend(t.arena@, child_ids(t, i), rank);
    lemma_by_size_stable(t.arena@, survivors(t.arena@, child_ids(t, i)), rank);
    lemma_by_size(t.arena@, survivors(t.arena@, child_ids(t, i)));
    let list = t.slice(i);
    assert(list == by_size(t.arena@, survivors(t.arena@, child_ids(t, i))));
    assert(rank(list[k]) == list[k] as int && rank(list[l]) == list[l] as int);
}

/// A surgery leaves siblings of equal size in the order in which they were listed.
pub proof fn law_surgery_keeps_the_order_of_equals(
    pre: Tree,
    roots: Seq<u32>,
    post: Tree,
    summary: RemovedSummary,
    i: int,
    k: int,
    l: int,
) -> (places: (int, int))
    requires
        pre.wf(),
        post.wf(),
        operated(pre, roots, post, summary),
        0 <= i < post.arena@.len(),
        post.arena@[i].dir,
        !post.arena@[i].removed,
        0 <= k < l < post.slice(i).len(),
    ensures
        0 <= places.0 < pre.slice(i).len(),
        0 <= places.1 < pre.slice(i).len(),
        pre.slice(i)[places.0] == post.slice(i)[k],
        pre.slice(i)[places.1] == post.slice(i)[l],
        post.arena@[post.slice(i)[k] as int].on_disk == post.arena@[post.slice(
            i,
        )[l] as int].on_disk ==> places.0 < places.1,
{
    if summary.nodes == 0 {
        (k, l)
    } else {
        assert(post.arena@[i] == relinked(pre.arena@[i], post.arena@[i]));
        assert(post.is_live_folder(i));
        assert(pre.is_live_folder(i));
        assert(pre.slice_ordered(i));
        lemma_laid_out_slice(post, kept_list(pre, post), i);
        let was = pre.slice(i);
        let list = post.slice(i);
        let rank = |x: u32| was.index_of(x);
        assert forall|a: int, b: int| 0 <= a < b < was.len() implies rank(#[trigger] was[a])
            < rank(#[trigger] was[b]) by {
            lemma_place(was, a);
            lemma_place(was, b);
        }
        let kept = survivors(post.arena@, was);
        lemma_survivors_ascend(post.arena@, was, rank);
        lemma_by_size_stable(post.arena@, kept, rank);
        lemma_by_size(post.arena@, kept);
        assert(list == by_size(post.arena@, kept));
        assert(list.contains(list[k]) && list.contains(list[l]));
        let m = choose|m: int| 0 <= m < kept.len() && kept[m] == list[k];
        let n = choose|n: int| 0 <= n < kept.len() && kept[n] == list[l];
        assert(was.contains(kept[m]) && was.contains(kept[n]));
        assert(rank(list[k]) == was.index_of(list[k]) && rank(list[l]) == was.index_of(list[l]));
        (was.index_of(list[k]), was.index_of(list[l]))
    }
}

proof fn lemma_place(ids: Seq<u32>, k: int)
    requires
        ids.no_duplicates(),
        0 <= k < ids.len(),
    ensures
        ids.index_of(ids[k]) == k,
{
    assert(ids.contains(ids[k]));
}

/// A sum counts every term once: it is 0 over nothing, the term itself over one
/// place, and over two stretches in a row what they come to together.
pub proof fn law_sums_count_every_term(f: spec_fn(int) -> nat, lo: int, mid: int, hi: int)
    requires
        lo <= mid <= hi,
    ensures
        sum(f, lo, lo) == 0,
        sum(f, lo, lo + 1) == f(lo),
        sum(f, lo, hi) == sum(f, lo, mid) + sum(f, mid, hi),
    decreases hi - mid,
{
    assert(sum(f, lo, lo) == 0);
    assert(sum(f, mid, mid) == 0);
    if mid < hi {
        law_sums_count_every_term(f, lo, mid, hi - 1);
    }
}

/// What fits is kept as it is, and what does not is the largest number.
pub proof fn law_saturation_caps(x: nat)
    ensures
        x < 0x1_0000_0000_0000_0000 ==> saturated(x) == x,
        x >= 0x1_0000_0000_0000_0000 ==> saturated(x) == 0xFFFF_FFFF_FFFF_FFFFu64,
{
}

/// The children of a batch get the next ids, in their order. Each has its parent,
/// its name and everything that was given of it, and no children yet.
pub proof fn law_batch_stands_as_given(
    pre: Tree,
    post: Tree,
    parent: u32,
    entries: Seq<BatchEntry>,
    k: int,
)
    requires
        grown(pre, post, parent, entries, entries.len() as int),
        0 <= k < entries.len(),
        pre.arena@.len() + entries.len() <= u32::MAX,
    ensures
        ({
            let given = entries[k].node;
            let node = post.arena@[pre.arena@.len() + k];
            &&& post.arena@.len() == pre.arena@.len() + entries.len()
            &&& node.parent == parent
            &&& node.child_count == 0
            &&& node.logical == given.logical
            &&& node.on_disk == given.on_disk
            &&& node.modified == given.modified
            &&& node.category == given.category
            &&& node.dir == given.dir
            &&& node.removed == given.removed
            &&& node.cloud == given.cloud
            &&& node.protected == given.protected
            &&& post.name_units(pre.arena@.len() + k) == entries[k].name@
        }),
{
    assert(stands(pre, post, parent, entries, k));
}

/// A batch leaves all other nodes with what they hold and with their names; its
/// folder gains the children and keeps the rest.
pub proof fn law_batch_leaves_the_rest(
    pre: Tree,
    post: Tree,
    parent: u32,
    entries: Seq<BatchEntry>,
    i: int,
)
    requires
        grown(pre, post, parent, entries, entries.len() as int),
        0 <= i < pre.arena@.len(),
        parent < pre.arena@.len(),
        entries.len() > 0,
        pre.arena@.len() + entries.len() <= u32::MAX,
        pre.arena@[i].name_start <= pre.arena@[i].name_end <= pre.names@.len(),
    ensures
        ({
            let was = pre.arena@[i];
            let node = post.arena@[i];
            &&& i != parent ==> node == was
            &&& i == parent ==> node.first_child == pre.arena@.len() && node.child_count
                == entries.len()
            &&& node.parent == was.parent
            &&& node.dir_index == was.dir_index
            &&& node.logical == was.logical
            &&& node.on_disk == was.on_disk
            &&& node.modified == was.modified
            &&& node.category == was.category
            &&& node.dir == was.dir
            &&& node.removed == was.removed
            &&& node.cloud == was.cloud
            &&& node.protected == was.protected
            &&& post.name_units(i) == pre.name_units(i)
            &&& post.generation == pre.generation
            &&& post.roots == pre.roots
        }),
{
    let was = pre.arena@[i];
    assert(i == parent || post.arena@[i] == pre.arena@[i]);
    assert(post.name_units(i) =~= pre.name_units(i)) by {
        let all = post.names@.take(pre.names@.len() as int);
        assert(all.subrange(was.name_start as int, was.name_end as int) =~= post.names@.subrange(
            was.name_start as int,
            was.name_end as int,
        ));
    }
}

/// A new node has no content, no children, no name and no marks, and its kind of
/// data is not known.
pub proof fn law_new_nodes_are_empty(dir: bool)
    ensures
        ({
            let node = Node::blank(dir);
            &&& node.dir == dir
            &&& node.logical == 0 && node.on_disk == 0 && node.modified == 0
            &&& node.child_count == 0
            &&& node.name_start == node.name_end
            &&& !node.removed && !node.cloud && !node.protected
            &&& node.category is Other
        }),
{
}

/// A root is shown under the first path that was named for it, and under none
/// where none was.
pub proof fn law_first_named_path_counts(roots: Seq<RootPath>, id: u32, k: int)
    requires
        0 <= k <= roots.len(),
        forall|j: int| 0 <= j < k ==> (#[trigger] roots[j]).id != id,
        k < roots.len() ==> roots[k].id == id,
    ensures
        k < roots.len() ==> shown_as(roots, id) == Some(roots[k].path@),
        k == roots.len() ==> shown_as(roots, id) is None,
    decreases roots.len(),
{
    if k > 0 {
        assert(roots[0].id != id);
        let rest = roots.skip(1);
        assert forall|j: int| 0 <= j < k - 1 implies (#[trigger] rest[j]).id != id by {
            assert(rest[j] == roots[j + 1]);
        }
        law_first_named_path_counts(rest, id, k - 1);
    }
}

/// A node for which no path was named is shown under its parent's path, one
/// separator and its name. There is no separator behind an empty path, and none is
/// doubled.
pub proof fn law_path_is_the_parents_and_the_name(t: Tree, id: u32, separator: char)
    requires
        t.shaped(),
        0 < id < t.arena@.len(),
        forall|k: int| 0 <= k < t.roots@.len() ==> (#[trigger] t.roots@[k]).id != id,
    ensures
        ({
            let above = t.path_text(t.arena@[id as int].parent as int, separator);
            let name = utf16_text(t.name_units(id as int));
            let path = t.path_text(id as int, separator);
            if above.len() > 0 && above[above.len() - 1] != separator {
                path == above + seq![separator] + name
            } else {
                path == above + name
            }
        }),
{
    assert(t.linked(id as int));
    law_first_named_path_counts(t.roots@, id, t.roots@.len() as int);
    let above = t.path_text(t.arena@[id as int].parent as int, separator);
    assert(above.push(separator) =~= above + seq![separator]);
}

/// A node for which a path was named is shown under it, and the scan root without
/// one under its name.
pub proof fn law_named_root_is_shown_as_named(t: Tree, id: u32, separator: char, k: int)
    requires
        0 <= k <= t.roots@.len(),
        forall|j: int| 0 <= j < k ==> (#[trigger] t.roots@[j]).id != id,
        k < t.roots@.len() ==> t.roots@[k].id == id,
    ensures
        k < t.roots@.len() ==> t.path_text(id as int, separator) == t.roots@[k].path@,
        k == t.roots@.len() && id == 0 ==> t.path_text(id as int, separator) == utf16_text(
            t.name_units(0),
        ),
{
    law_first_named_path_counts(t.roots@, id, k);
}

/// Rolling up changes the sizes that folders hold and nothing else of any node.
pub proof fn law_rollup_changes_folder_sizes_alone(pre: Tree, post: Tree, i: int)
    requires
        same_links(pre, post),
        same_files(pre, post),
        0 <= i < pre.arena@.len(),
    ensures
        ({
            let was = pre.arena@[i];
            let node = post.arena@[i];
            &&& post.arena@.len() == pre.arena@.len()
            &&& !was.dir ==> node.on_disk == was.on_disk && node.logical == was.logical
            &&& node.parent == was.parent
            &&& node.first_child == was.first_child
            &&& node.child_count == was.child_count
            &&& node.dir_index == was.dir_index
            &&& node.modified == was.modified
            &&& node.name_start == was.name_start && node.name_end == was.name_end
            &&& node.category == was.category
            &&& node.dir == was.dir
            &&& node.removed == was.removed
            &&& node.cloud == was.cloud
            &&& node.protected == was.protected
            &&& post.names == pre.names
            &&& post.roots == pre.roots
        }),
{
    assert(post.arena@[i] == relinked(pre.arena@[i], post.arena@[i]));
}

/// A folder that is removed has an empty list, and a folder that is left lists
/// each child that is left.
pub proof fn law_lists_are_of_what_is_left(t: Tree, listing: spec_fn(int) -> Seq<u32>, i: int)
    requires
        laid_out(t, listing),
        0 <= i < t.arena@.len(),
        t.arena@[i].dir,
    ensures
        t.arena@[i].removed ==> t.slice(i).len() == 0,
        !t.arena@[i].removed ==> t.slice(i) == listing(i),
{
    assert(t.is_folder(i));
    if !t.arena@[i].removed {
        lemma_laid_out_slice(t, listing, i);
    } else {
        assert(t.slice(i) =~= Seq::empty());
    }
}

} // verus!
