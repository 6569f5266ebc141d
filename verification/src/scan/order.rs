//! The compact listing of every folder's children.

use crate::scan::node::{DirExtra, Node, Tree};
use crate::scan::ranking::{by_size, descending, lemma_by_size, sort_by_size};
use crate::scan::sums::{
    lemma_sum_add, lemma_sum_monotone, lemma_sum_range_count, lemma_sum_zero, sum,
};
use crate::scan::totals::lemma_same_links_shaped;
use vstd::prelude::*;

verus! {

/// The ids that were not removed.
pub open spec fn survivors(arena: Seq<Node>, ids: Seq<u32>) -> Seq<u32> {
    ids.filter(|id: u32| !arena[id as int].removed)
}

/// The ids of folder `i`'s children, in arena order.
pub open spec fn child_ids(t: Tree, i: int) -> Seq<u32> {
    Seq::new(t.arena@[i].child_count as nat, |k: int| (t.arena@[i].first_child + k) as u32)
}

/// The lists of the folders with an id below `n` that were not removed, one
/// behind the other.
pub open spec fn packed(t: Tree, listing: spec_fn(int) -> Seq<u32>, n: int) -> Seq<u32>
    decreases n,
{
    if n <= 0 {
        Seq::empty()
    } else if t.is_live_folder(n - 1) {
        packed(t, listing, n - 1) + listing(n - 1)
    } else {
        packed(t, listing, n - 1)
    }
}

/// `order` holds the given lists and nothing else, and every folder's extras
/// say where its list is; removed folders have an empty slice at the start.
pub open spec fn laid_out(t: Tree, listing: spec_fn(int) -> Seq<u32>) -> bool {
    &&& t.order@ == packed(t, listing, t.count())
    &&& forall|i: int|
        #[trigger] t.is_folder(i) ==> if t.arena@[i].removed {
            t.extra(i).order_offset == 0 && t.extra(i).order_count == 0
        } else {
            t.extra(i).order_offset == packed(t, listing, i).len() && t.extra(i).order_count
                == listing(i).len()
        }
}

/// The list of folder `i`: its surviving entries, largest first.
pub open spec fn listed(t: Tree, from_links: bool) -> spec_fn(int) -> Seq<u32> {
    |i: int|
        by_size(
            t.arena@,
            survivors(
                t.arena@,
                if from_links {
                    child_ids(t, i)
                } else {
                    t.slice(i)
                },
            ),
        )
}

/// `post` is `pre` but for `order` and the slices of it.
pub open spec fn relisted(pre: Tree, post: Tree) -> bool {
    &&& post.arena@ == pre.arena@
    &&& post.dir_extras@.len() == pre.dir_extras@.len()
    &&& post.names == pre.names
    &&& post.roots == pre.roots
    &&& post.root == pre.root
    &&& post.generation == pre.generation
    &&& forall|k: int|
        0 <= k < pre.dir_extras@.len() ==> (#[trigger] post.dir_extras@[k]) == (DirExtra {
            order_offset: post.dir_extras@[k].order_offset,
            order_count: post.dir_extras@[k].order_count,
            ..pre.dir_extras@[k]
        })
}

/// Folder `i`'s list as it stands can be read, and is no longer than its
/// children.
pub open spec fn readable(t: Tree, i: int) -> bool {
    &&& t.extra(i).order_offset + t.extra(i).order_count <= t.order@.len()
    &&& t.extra(i).order_count <= t.arena@[i].child_count
    &&& forall|k: int| 0 <= k < t.slice(i).len() ==> (#[trigger] t.slice(i)[k]) < t.count()
}

spec fn child_counts(t: Tree) -> spec_fn(int) -> nat {
    |i: int| t.arena@[i].child_count as nat
}

spec fn has_parent_below(t: Tree, n: int) -> spec_fn(int) -> nat {
    |j: int|
        if t.arena@[j].parent < n {
            1nat
        } else {
            0
        }
}

spec fn has_parent(t: Tree, n: int) -> spec_fn(int) -> nat {
    |j: int|
        if t.arena@[j].parent == n {
            1nat
        } else {
            0
        }
}

proof fn lemma_child_counts(t: Tree, n: int)
    requires
        t.shaped(),
        0 <= n <= t.count(),
    ensures
        sum(child_counts(t), 0, n) == sum(has_parent_below(t, n), 1, t.count()),
    decreases n,
{
    if n == 0 {
        lemma_sum_zero(has_parent_below(t, 0), 1, t.count());
    } else {
        let p = n - 1;
        lemma_child_counts(t, p);
        assert(t.ranged(p));
        let first = t.arena@[p].first_child as int;
        let past = first + t.arena@[p].child_count;
        let mine = has_parent(t, p);
        assert forall|j: int| 1 <= j < t.count() implies #[trigger] mine(j) == if first <= j
            < past {
            1nat
        } else {
            0
        } by {
            assert(t.linked(j));
        }
        lemma_sum_range_count(mine, 1, t.count(), first, past);
        lemma_sum_add(has_parent_below(t, p), mine, has_parent_below(t, n), 1, t.count());
    }
}

/// All folders together have fewer children than there are nodes.
proof fn lemma_child_counts_bound(t: Tree, n: int)
    requires
        t.shaped(),
        0 <= n <= t.count(),
    ensures
        sum(child_counts(t), 0, n) < t.count(),
{
    lemma_child_counts(t, n);
    let one = |j: int| 1nat;
    lemma_sum_monotone(has_parent_below(t, n), one, 1, t.count());
    lemma_sum_range_count(one, 1, t.count(), 1, t.count());
}

proof fn lemma_packed_len(t: Tree, listing: spec_fn(int) -> Seq<u32>, n: int)
    requires
        0 <= n <= t.count(),
        forall|i: int|
            0 <= i < n && t.is_live_folder(i) ==> (#[trigger] listing(i)).len()
                <= t.arena@[i].child_count,
    ensures
        packed(t, listing, n).len() <= sum(child_counts(t), 0, n),
    decreases n,
{
    if n > 0 {
        lemma_packed_len(t, listing, n - 1);
        if t.is_live_folder(n - 1) {
            assert(listing(n - 1).len() <= t.arena@[n - 1].child_count);
        }
    }
}

/// A later prefix of the packed lists starts with an earlier one.
proof fn lemma_packed_prefix(t: Tree, listing: spec_fn(int) -> Seq<u32>, i: int, n: int)
    requires
        0 <= i <= n,
    ensures
        packed(t, listing, i).len() <= packed(t, listing, n).len(),
        packed(t, listing, n).take(packed(t, listing, i).len() as int) == packed(t, listing, i),
    decreases n - i,
{
    let a = packed(t, listing, i);
    let b = packed(t, listing, n);
    if i < n {
        lemma_packed_prefix(t, listing, i, n - 1);
        let c = packed(t, listing, n - 1);
        assert(b.take(a.len() as int) =~= c.take(a.len() as int));
    } else {
        assert(b.take(a.len() as int) =~= a);
    }
}

/// In a laid-out tree a folder's slice is its list.
pub proof fn lemma_laid_out_slice(t: Tree, listing: spec_fn(int) -> Seq<u32>, i: int)
    requires
        laid_out(t, listing),
        t.is_live_folder(i),
    ensures
        t.extra(i).order_offset + t.extra(i).order_count <= t.order@.len(),
        t.slice(i) == listing(i),
{
    assert(t.is_folder(i));
    lemma_packed_prefix(t, listing, i, i + 1);
    lemma_packed_prefix(t, listing, i + 1, t.count());
    let a = packed(t, listing, i);
    let b = packed(t, listing, i + 1);
    assert(b == a + listing(i));
    assert(t.order@.take(b.len() as int) == b);
    assert(t.slice(i) =~= listing(i)) by {
        assert forall|k: int| 0 <= k < listing(i).len() implies t.slice(i)[k] == listing(i)[k] by {
            assert(t.order@.take(b.len() as int)[a.len() + k] == b[a.len() + k]);
        }
    }
}

/// Which folders are listed decides the packing, nothing else of the tree.
pub proof fn lemma_packed_congruent(
    t: Tree,
    u: Tree,
    f: spec_fn(int) -> Seq<u32>,
    g: spec_fn(int) -> Seq<u32>,
    n: int,
)
    requires
        t.arena@ == u.arena@,
        forall|i: int| 0 <= i < n && t.is_live_folder(i) ==> #[trigger] f(i) == g(i),
    ensures
        packed(t, f, n) == packed(u, g, n),
    decreases n,
{
    if n > 0 {
        lemma_packed_congruent(t, u, f, g, n - 1);
        assert(t.is_live_folder(n - 1) == u.is_live_folder(n - 1));
    }
}

/// Filtering keeps what satisfies the condition, each as often as before.
pub proof fn lemma_survivors(arena: Seq<Node>, ids: Seq<u32>)
    ensures
        survivors(arena, ids).len() <= ids.len(),
        forall|id: u32|
            #[trigger] survivors(arena, ids).contains(id) <==> ids.contains(id)
                && !arena[id as int].removed,
        ids.no_duplicates() ==> survivors(arena, ids).no_duplicates(),
        forall|k: int|
            0 <= k < survivors(arena, ids).len() ==> ids.contains(
                #[trigger] survivors(arena, ids)[k],
            ),
    decreases ids.len(),
{
    reveal(Seq::filter);
    let live = |id: u32| !arena[id as int].removed;
    let kept = survivors(arena, ids);
    if ids.len() > 0 {
        let front = ids.drop_last();
        lemma_survivors(arena, front);
        let kept_front = survivors(arena, front);
        assert(ids =~= front.push(ids.last()));
        assert(kept == if live(ids.last()) {
            kept_front.push(ids.last())
        } else {
            kept_front
        });
        assert forall|id: u32| #[trigger] kept.contains(id) <==> ids.contains(id)
            && !arena[id as int].removed by {
            if kept.contains(id) {
                let k = choose|k: int| 0 <= k < kept.len() && kept[k] == id;
                if k < kept_front.len() {
                    assert(kept_front[k] == id);
                    assert(kept_front.contains(id));
                    let l = choose|l: int| 0 <= l < front.len() && front[l] == id;
                    assert(ids[l] == id);
                } else {
                    assert(ids[ids.len() - 1] == id);
                }
            }
            if ids.contains(id) && !arena[id as int].removed {
                let k = choose|k: int| 0 <= k < ids.len() && ids[k] == id;
                if k < front.len() {
                    assert(front[k] == id);
                    assert(kept_front.contains(id));
                    let l = choose|l: int| 0 <= l < kept_front.len() && kept_front[l] == id;
                    assert(kept[l] == id);
                } else {
                    assert(kept[kept.len() - 1] == id);
                }
            }
        }
        if ids.no_duplicates() {
            assert(front.no_duplicates());
            if live(ids.last()) {
                assert(!front.contains(ids.last())) by {
                    if front.contains(ids.last()) {
                        let k = choose|k: int| 0 <= k < front.len() && front[k] == ids.last();
                        assert(ids[k] == ids[ids.len() - 1]);
                    }
                }
                assert(!kept_front.contains(ids.last()));
                assert forall|a: int, b: int|
                    0 <= a < kept.len() && 0 <= b < kept.len() && a != b implies kept[a]
                    != kept[b] by {
                    if a == kept.len() - 1 {
                        assert(kept_front.contains(kept[b]));
                    } else if b == kept.len() - 1 {
                        assert(kept_front.contains(kept[a]));
                    } else {
                        assert(kept_front[a] != kept_front[b]);
                    }
                }
            }
        }
        assert forall|k: int| 0 <= k < kept.len() implies ids.contains(#[trigger] kept[k]) by {
            assert(kept.contains(kept[k]));
        }
    }
}

/// Keep the ids that were not removed.
fn keep_survivors(arena: &Vec<Node>, ids: &Vec<u32>) -> (out: Vec<u32>)
    requires
        forall|k: int| 0 <= k < ids@.len() ==> (#[trigger] ids@[k]) < arena@.len(),
    ensures
        out@ == survivors(arena@, ids@),
{
    let mut out: Vec<u32> = Vec::new();
    let mut k: usize = 0;
    assert(ids@.take(0) =~= Seq::<u32>::empty());
    proof {
        reveal(Seq::filter);
    }
    while k < ids.len()
        invariant
            k <= ids@.len(),
            forall|k: int| 0 <= k < ids@.len() ==> (#[trigger] ids@[k]) < arena@.len(),
            out@ == survivors(arena@, ids@.take(k as int)),
        decreases ids@.len() - k,
    {
        proof {
            reveal(Seq::filter);
            assert(ids@.take(k + 1).drop_last() =~= ids@.take(k as int));
        }
        let id: u32 = ids[k];
        if !arena[id as usize].removed {
            out.push(id);
        }
        k = k + 1;
    }
    assert(ids@.take(k as int) =~= ids@);
    out
}

/// The entries from which folder `i`'s new list is made.
fn entries(tree: &Tree, i: u32, from_links: bool) -> (ids: Vec<u32>)
    requires
        tree.shaped(),
        tree.is_live_folder(i as int),
        !from_links ==> readable(*tree, i as int),
    ensures
        ids@ == if from_links {
            child_ids(*tree, i as int)
        } else {
            tree.slice(i as int)
        },
        ids@.len() <= tree.arena@[i as int].child_count,
        forall|k: int| 0 <= k < ids@.len() ==> (#[trigger] ids@[k]) < tree.count(),
{
    let node: Node = tree.arena[i as usize];
    proof {
        assert(tree.ranged(i as int));
        assert(tree.slotted(i as int));
    }
    let mut ids: Vec<u32> = Vec::new();
    if from_links {
        let mut k: u32 = 0;
        while k < node.child_count
            invariant
                k <= node.child_count,
                node == tree.arena@[i as int],
                node.child_count > 0 ==> node.first_child + node.child_count <= tree.count(),
                tree.count() <= u32::MAX,
                ids@ == child_ids(*tree, i as int).take(k as int),
            decreases node.child_count - k,
        {
            ids.push(node.first_child + k);
            k = k + 1;
            assert(ids@ =~= child_ids(*tree, i as int).take(k as int));
        }
        assert(ids@ =~= child_ids(*tree, i as int));
    } else {
        let extra: DirExtra = tree.dir_extras[node.dir_index as usize];
        let from: usize = extra.order_offset as usize;
        let mut k: usize = 0;
        while k < extra.order_count as usize
            invariant
                k <= extra.order_count,
                extra == tree.extra(i as int),
                from == extra.order_offset,
                readable(*tree, i as int),
                ids@ == tree.slice(i as int).take(k as int),
            decreases extra.order_count - k,
        {
            assert(tree.order@.len() == tree.order.len());
            ids.push(tree.order[from + k]);
            k = k + 1;
            assert(ids@ =~= tree.slice(i as int).take(k as int));
        }
        assert(ids@ =~= tree.slice(i as int));
    }
    ids
}

/// Rebuild `order`: every folder that was not removed gets its surviving
/// entries, largest first; removed folders get an empty slice. The entries come
/// from the links (`from_links`) or from the lists as they stand.
///
/// Walks the arena and reaches each folder's extras through its slot: slots
/// count folders only and are no ids.
pub fn rebuild_order(tree: &mut Tree, from_links: bool)
    requires
        old(tree).shaped(),
        forall|i: int|
            #[trigger] old(tree).is_live_folder(i) && !from_links ==> readable(*old(tree), i),
    ensures
        relisted(*old(tree), *final(tree)),
        laid_out(*final(tree), listed(*old(tree), from_links)),
{
    let ghost pre = *tree;
    let ghost listing = listed(pre, from_links);
    let mut new_order: Vec<u32> = Vec::new();
    let count: usize = tree.arena.len();
    let mut i: usize = 0;
    while i < count
        invariant
            i <= count,
            count == pre.count(),
            pre.shaped(),
            tree.order@ == pre.order@,
            relisted(pre, *tree),
            listing == listed(pre, from_links),
            forall|k: int|
                #[trigger] pre.is_live_folder(k) && !from_links ==> readable(pre, k),
            forall|k: int|
                0 <= k < i && pre.is_live_folder(k) ==> (#[trigger] listing(k)).len()
                    <= pre.arena@[k].child_count,
            new_order@ == packed(pre, listing, i as int),
            forall|k: int| #[trigger] pre.is_folder(k) && k >= i ==> tree.extra(k) == pre.extra(k),
            forall|k: int|
                #[trigger] pre.is_folder(k) && k < i ==> if pre.arena@[k].removed {
                    tree.extra(k).order_offset == 0 && tree.extra(k).order_count == 0
                } else {
                    tree.extra(k).order_offset == packed(pre, listing, k).len() && tree.extra(
                        k,
                    ).order_count == listing(k).len()
                },
        decreases count - i,
    {
        let node: Node = tree.arena[i];
        if node.dir {
            proof {
                assert(pre.is_folder(i as int));
                assert(pre.slotted(i as int));
                lemma_packed_len(pre, listing, i as int);
                lemma_child_counts_bound(pre, i as int);
            }
            let slot: usize = node.dir_index as usize;
            let ghost before = *tree;
            let mut extra: DirExtra = tree.dir_extras[slot];
            if node.removed {
                extra.order_offset = 0;
                extra.order_count = 0;
            } else {
                proof {
                    assert(pre.is_live_folder(i as int));
                    lemma_same_shape(pre, *tree);
                    assert(tree.slice(i as int) =~= pre.slice(i as int));
                }
                let candidates: Vec<u32> = entries(tree, i as u32, from_links);
                let kept: Vec<u32> = keep_survivors(&tree.arena, &candidates);
                proof {
                    lemma_survivors(pre.arena@, candidates@);
                    assert forall|k: int| 0 <= k < kept@.len() implies (#[trigger] kept@[k])
                        < pre.count() by {
                        assert(candidates@.contains(kept@[k]));
                    }
                    lemma_by_size(pre.arena@, kept@);
                }
                let mut sorted: Vec<u32> = sort_by_size(&tree.arena, &kept);
                assert(child_ids(*tree, i as int) =~= child_ids(pre, i as int));
                assert(sorted@ == listing(i as int));
                assert(node.child_count <= u32::MAX);
                extra.order_offset = new_order.len() as u32;
                extra.order_count = sorted.len() as u32;
                new_order.append(&mut sorted);
            }
            tree.dir_extras[slot] = extra;
            proof {
                assert forall|k: int| #[trigger] pre.is_folder(k) && k != i implies tree.extra(k)
                    == before.extra(k) by {
                    assert(pre.slotted(k));
                    assert(pre.arena@[k].dir_index != pre.arena@[i as int].dir_index);
                }
            }
        }
        i = i + 1;
    }
    tree.order = new_order;
    proof {
        lemma_packed_congruent(pre, *tree, listing, listing, count as int);
        assert forall|k: int| #[trigger] tree.is_folder(k) implies if tree.arena@[k].removed {
            tree.extra(k).order_offset == 0 && tree.extra(k).order_count == 0
        } else {
            tree.extra(k).order_offset == packed(*tree, listing, k).len() && tree.extra(
                k,
            ).order_count == listing(k).len()
        } by {
            assert(pre.is_folder(k));
            lemma_packed_congruent(pre, *tree, listing, listing, k);
        }
    }
}

/// Relisting keeps the links.
pub proof fn lemma_same_shape(pre: Tree, post: Tree)
    requires
        pre.shaped(),
        relisted(pre, post),
    ensures
        post.shaped(),
{
    assert forall|i: int| 0 <= i < pre.count() implies (#[trigger] post.arena@[i])
        == crate::scan::totals::relinked(pre.arena@[i], post.arena@[i]) by {}
    lemma_same_links_shaped(pre, post);
}

/// A list made of entries that hold folder `i`'s surviving children, each once,
/// is in order.
pub proof fn lemma_slice_ordered(t: Tree, i: int, source: Seq<u32>)
    requires
        0 < t.count() <= u32::MAX,
        t.extra(i).order_offset + t.extra(i).order_count <= t.order@.len(),
        t.slice(i) == by_size(t.arena@, survivors(t.arena@, source)),
        source.no_duplicates(),
        forall|k: int| 0 <= k < source.len() ==> (#[trigger] source[k]) < t.count(),
        forall|j: int|
            #![trigger t.arena@[j]]
            0 <= j < t.count() && !t.arena@[j].removed ==> (source.contains(j as u32)
                <==> t.is_child(i, j)),
    ensures
        t.slice_ordered(i),
{
    let kept = survivors(t.arena@, source);
    lemma_survivors(t.arena@, source);
    lemma_by_size(t.arena@, kept);
    assert forall|j: int|
        #![trigger t.slice(i).contains(j as u32)]
        0 <= j < t.count() implies (t.slice(i).contains(j as u32) <==> t.is_child(i, j)
        && !t.arena@[j].removed) by {
        assert(kept.contains(j as u32) <==> source.contains(j as u32)
            && !t.arena@[j as u32 as int].removed);
    }
    assert forall|k: int| 0 <= k < t.slice(i).len() implies (#[trigger] t.slice(i)[k])
        < t.count() by {
        assert(t.slice(i).contains(t.slice(i)[k]));
        assert(kept.contains(t.slice(i)[k]));
        assert(source.contains(t.slice(i)[k]));
    }
    assert(descending(t.arena@, t.slice(i)));
}

/// The links list every child once.
pub proof fn lemma_child_ids(t: Tree, i: int)
    requires
        t.shaped(),
        t.is_folder(i),
    ensures
        child_ids(t, i).no_duplicates(),
        forall|k: int| 0 <= k < child_ids(t, i).len() ==> (#[trigger] child_ids(t, i)[k])
            < t.count(),
        forall|j: int|
            #![trigger t.arena@[j]]
            0 <= j < t.count() ==> (child_ids(t, i).contains(j as u32) <==> t.is_child(i, j)),
{
    assert(t.ranged(i));
    let ids = child_ids(t, i);
    let first = t.arena@[i].first_child;
    assert forall|j: int|
        #![trigger t.arena@[j]]
        0 <= j < t.count() implies (ids.contains(j as u32) <==> t.is_child(i, j)) by {
        if ids.contains(j as u32) {
            let k = choose|k: int| 0 <= k < ids.len() && ids[k] == j as u32;
            assert(j == first + k);
        }
        if t.is_child(i, j) {
            assert(t.linked(j));
            assert(ids[j - first] == j as u32);
        }
    }
}

/// Lists that agree on the folders that were not removed lay out alike.
pub proof fn lemma_laid_out_congruent(
    t: Tree,
    f: spec_fn(int) -> Seq<u32>,
    g: spec_fn(int) -> Seq<u32>,
)
    requires
        laid_out(t, f),
        forall|i: int| t.is_live_folder(i) ==> #[trigger] f(i) == g(i),
    ensures
        laid_out(t, g),
{
    lemma_packed_congruent(t, t, f, g, t.count());
    assert forall|i: int| #[trigger] t.is_folder(i) implies if t.arena@[i].removed {
        t.extra(i).order_offset == 0 && t.extra(i).order_count == 0
    } else {
        t.extra(i).order_offset == packed(t, g, i).len() && t.extra(i).order_count == g(i).len()
    } by {
        lemma_packed_congruent(t, t, f, g, i);
        if !t.arena@[i].removed {
            assert(t.is_live_folder(i));
            assert(f(i) == g(i));
        }
    }
}

/// A list in order is no longer than the folder's children.
pub proof fn lemma_readable(t: Tree, i: int)
    requires
        t.shaped(),
        t.is_live_folder(i),
        t.slice_ordered(i),
    ensures
        readable(t, i),
{
    let slice = t.slice(i);
    let first = t.arena@[i].first_child as int;
    let past = first + t.arena@[i].child_count;
    let kids = Set::new(|id: u32| first <= id < past);
    assert(t.ranged(i));
    slice.unique_seq_to_set();
    assert forall|id: u32| #[trigger] slice.to_set().contains(id) implies kids.contains(id) by {
        assert(slice.contains(id));
        let k = choose|k: int| 0 <= k < slice.len() && slice[k] == id;
        assert(slice[k] < t.count());
        assert(slice.contains((id as int) as u32));
        assert(t.is_child(i, id as int));
        assert(t.linked(id as int));
    }
    lemma_id_range(first, past);
    vstd::set_lib::lemma_len_subset(slice.to_set(), kids);
}

/// There are as many ids in a range as it is long.
proof fn lemma_id_range(lo: int, hi: int)
    requires
        0 <= lo <= hi <= u32::MAX,
    ensures
        Set::new(|id: u32| lo <= id < hi).finite(),
        Set::new(|id: u32| lo <= id < hi).len() == hi - lo,
    decreases hi - lo,
{
    let ids = Set::new(|id: u32| lo <= id < hi);
    if lo == hi {
        assert(ids =~= Set::empty());
    } else {
        lemma_id_range(lo, hi - 1);
        let fewer = Set::new(|id: u32| lo <= id < hi - 1);
        assert(ids =~= fewer.insert((hi - 1) as u32));
    }
}

/// The layout speaks of nodes, extras and `order` alone.
pub proof fn lemma_packed_same(t: Tree, u: Tree, listing: spec_fn(int) -> Seq<u32>)
    requires
        laid_out(t, listing),
        u.arena@ == t.arena@,
        u.dir_extras@ == t.dir_extras@,
        u.order@ == t.order@,
    ensures
        laid_out(u, listing),
{
    lemma_packed_congruent(t, u, listing, listing, t.count());
    assert forall|i: int| #[trigger] u.is_folder(i) implies if u.arena@[i].removed {
        u.extra(i).order_offset == 0 && u.extra(i).order_count == 0
    } else {
        u.extra(i).order_offset == packed(u, listing, i).len() && u.extra(i).order_count
            == listing(i).len()
    } by {
        assert(t.is_folder(i));
        lemma_packed_congruent(t, u, listing, listing, i);
    }
}

/// Where none of its children was removed, a folder lists as many as it has.
pub proof fn law_every_child_is_listed(t: Tree, i: int)
    requires
        t.wf(),
        t.is_live_folder(i),
        forall|j: int| #[trigger] t.is_child(i, j) ==> !t.arena@[j].removed,
    ensures
        t.slice(i).len() == t.arena@[i].child_count,
        forall|j: int|
            0 <= j < t.count() ==> (#[trigger] t.is_child(i, j) <==> t.slice(i).contains(j as u32)),
{
    let ids = child_ids(t, i);
    let list = t.slice(i);
    assert(t.slice_ordered(i));
    lemma_child_ids(t, i);
    assert forall|j: int| 0 <= j < t.count() implies (#[trigger] t.is_child(i, j)
        <==> list.contains(j as u32)) by {}
    assert forall|id: u32| ids.to_set().contains(id) <==> list.to_set().contains(id) by {
        if list.contains(id) {
            let k = choose|k: int| 0 <= k < list.len() && list[k] == id;
            assert(list[k] < t.count());
            assert(t.is_child(i, id as int));
        }
        if ids.contains(id) {
            assert(t.is_child(i, id as int));
        }
    }
    assert(ids.to_set() =~= list.to_set());
    ids.unique_seq_to_set();
    list.unique_seq_to_set();
}

} // verus!
