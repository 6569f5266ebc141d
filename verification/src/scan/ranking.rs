//! Ordering of siblings: largest first, siblings of equal size in the order
//! in which they were given.

use crate::scan::node::Node;
use vstd::prelude::*;
use vstd::seq_lib::group_to_multiset_ensures;

verus! {

/// `id` put into `ids` behind everything that is at least as large.
pub open spec fn inserted(arena: Seq<Node>, ids: Seq<u32>, id: u32) -> Seq<u32>
    decreases ids.len(),
{
    if ids.len() == 0 {
        seq![id]
    } else if arena[ids.last() as int].on_disk >= arena[id as int].on_disk {
        ids.push(id)
    } else {
        inserted(arena, ids.drop_last(), id).push(ids.last())
    }
}

/// `ids` sorted by size, largest first; equal sizes keep their order.
pub open spec fn by_size(arena: Seq<Node>, ids: Seq<u32>) -> Seq<u32>
    decreases ids.len(),
{
    if ids.len() == 0 {
        ids
    } else {
        inserted(arena, by_size(arena, ids.drop_last()), ids.last())
    }
}

/// No id is followed by a larger one.
pub open spec fn descending(arena: Seq<Node>, ids: Seq<u32>) -> bool {
    forall|k: int, l: int|
        0 <= k < l < ids.len() ==> arena[(#[trigger] ids[k]) as int].on_disk >= arena[(
        #[trigger] ids[l]) as int].on_disk
}

proof fn lemma_inserted(arena: Seq<Node>, ids: Seq<u32>, id: u32)
    requires
        descending(arena, ids),
    ensures
        descending(arena, inserted(arena, ids, id)),
        inserted(arena, ids, id).to_multiset() == ids.to_multiset().insert(id),
    decreases ids.len(),
{
    broadcast use {group_to_multiset_ensures, vstd::multiset::group_multiset_axioms};

    if ids.len() == 0 {
        assert(seq![id] =~= ids.push(id));
    } else if arena[ids.last() as int].on_disk < arena[id as int].on_disk {
        let front = inserted(arena, ids.drop_last(), id);
        let whole = inserted(arena, ids, id);
        lemma_inserted(arena, ids.drop_last(), id);
        assert(ids =~= ids.drop_last().push(ids.last()));
        assert(whole.to_multiset() =~= ids.to_multiset().insert(id));
        assert forall|k: int, l: int| 0 <= k < l < whole.len() implies arena[(
        #[trigger] whole[k]) as int].on_disk >= arena[(#[trigger] whole[l]) as int].on_disk by {
            if l == whole.len() - 1 {
                assert(front.contains(whole[k]));
                if whole[k] != id {
                    assert(front.to_multiset().count(whole[k]) > 0);
                    assert(ids.drop_last().to_multiset().count(whole[k]) > 0);
                    assert(ids.drop_last().contains(whole[k]));
                    let m = choose|m: int|
                        0 <= m < ids.drop_last().len() && ids.drop_last()[m] == whole[k];
                    assert(ids[m] == whole[k]);
                    assert(ids[ids.len() - 1] == whole[l]);
                }
            }
        }
    }
}

/// Sorting keeps the ids and puts them in descending order.
pub proof fn lemma_by_size(arena: Seq<Node>, ids: Seq<u32>)
    ensures
        descending(arena, by_size(arena, ids)),
        by_size(arena, ids).to_multiset() == ids.to_multiset(),
        by_size(arena, ids).len() == ids.len(),
        forall|id: u32| #[trigger] by_size(arena, ids).contains(id) <==> ids.contains(id),
        ids.no_duplicates() ==> by_size(arena, ids).no_duplicates(),
    decreases ids.len(),
{
    broadcast use {group_to_multiset_ensures, vstd::multiset::group_multiset_axioms};

    let sorted = by_size(arena, ids);
    assert(sorted.len() == sorted.to_multiset().len());
    if ids.len() > 0 {
        lemma_by_size(arena, ids.drop_last());
        lemma_inserted(arena, by_size(arena, ids.drop_last()), ids.last());
        assert(ids =~= ids.drop_last().push(ids.last()));
        assert(sorted.to_multiset() =~= ids.to_multiset());
    }
    assert forall|id: u32| #[trigger] sorted.contains(id) <==> ids.contains(id) by {
        assert(sorted.to_multiset().count(id) == ids.to_multiset().count(id));
    }
    if ids.no_duplicates() {
        ids.lemma_multiset_has_no_duplicates();
        sorted.lemma_multiset_has_no_duplicates_conv();
    }
}

/// Sorting leaves a sequence alone that is in order already.
pub proof fn lemma_by_size_of_sorted(arena: Seq<Node>, ids: Seq<u32>)
    requires
        descending(arena, ids),
    ensures
        by_size(arena, ids) == ids,
    decreases ids.len(),
{
    if ids.len() > 0 {
        let front = ids.drop_last();
        lemma_by_size_of_sorted(arena, front);
        assert(ids =~= front.push(ids.last()));
        if front.len() > 0 {
            assert(front.last() == ids[ids.len() - 2]);
        }
    }
}

/// Two sorted sequences merged; of equal sizes the left one comes first.
spec fn merged(arena: Seq<Node>, left: Seq<u32>, right: Seq<u32>) -> Seq<u32>
    decreases left.len() + right.len(),
{
    if right.len() == 0 {
        left
    } else if left.len() == 0 {
        right
    } else if arena[left.last() as int].on_disk >= arena[right.last() as int].on_disk {
        merged(arena, left, right.drop_last()).push(right.last())
    } else {
        merged(arena, left.drop_last(), right).push(left.last())
    }
}

proof fn lemma_merged_insert(arena: Seq<Node>, left: Seq<u32>, right: Seq<u32>, id: u32)
    ensures
        inserted(arena, merged(arena, left, right), id) == merged(
            arena,
            left,
            inserted(arena, right, id),
        ),
    decreases left.len() + right.len(),
{
    let one = inserted(arena, right, id);
    let whole = merged(arena, left, right);
    let goal = merged(arena, left, one);
    assert(one.len() > 0);
    if right.len() == 0 {
        assert(whole == left);
        assert(one.last() == id);
        assert(merged(arena, left, one.drop_last()) == left);
        if left.len() == 0 {
            assert(goal == one);
            assert(left == right);
        } else {
            lemma_merged_insert(arena, left.drop_last(), right, id);
            assert(merged(arena, left.drop_last(), right) == left.drop_last());
        }
    } else if left.len() == 0 {
        assert(goal == one);
        assert(whole == right);
    } else if arena[left.last() as int].on_disk >= arena[right.last() as int].on_disk {
        assert(whole.drop_last() =~= merged(arena, left, right.drop_last()));
        if arena[right.last() as int].on_disk >= arena[id as int].on_disk {
            assert(one.drop_last() =~= right);
        } else {
            assert(one.drop_last() =~= inserted(arena, right.drop_last(), id));
            lemma_merged_insert(arena, left, right.drop_last(), id);
        }
    } else {
        assert(whole.drop_last() =~= merged(arena, left.drop_last(), right));
        if arena[left.last() as int].on_disk >= arena[id as int].on_disk {
            assert(one.drop_last() =~= right);
        } else {
            assert(arena[one.last() as int].on_disk > arena[left.last() as int].on_disk);
            lemma_merged_insert(arena, left.drop_last(), right, id);
        }
    }
}

proof fn lemma_merged_sorts(arena: Seq<Node>, left: Seq<u32>, right: Seq<u32>)
    ensures
        by_size(arena, left + right) == merged(arena, by_size(arena, left), by_size(arena, right)),
    decreases right.len(),
{
    if right.len() == 0 {
        assert(left + right =~= left);
    } else {
        assert((left + right).drop_last() =~= left + right.drop_last());
        assert((left + right).last() == right.last());
        lemma_merged_sorts(arena, left, right.drop_last());
        lemma_merged_insert(
            arena,
            by_size(arena, left),
            by_size(arena, right.drop_last()),
            right.last(),
        );
    }
}

/// Merge two runs from their small ends.
fn merge_runs(arena: &Vec<Node>, left: &Vec<u32>, right: &Vec<u32>) -> (out: Vec<u32>)
    requires
        forall|k: int| 0 <= k < left@.len() ==> (#[trigger] left@[k]) < arena@.len(),
        forall|k: int| 0 <= k < right@.len() ==> (#[trigger] right@[k]) < arena@.len(),
    ensures
        out@ == merged(arena@, left@, right@),
{
    let mut reversed: Vec<u32> = Vec::new();
    let mut i: usize = left.len();
    let mut j: usize = right.len();
    proof {
        assert(left@.take(i as int) =~= left@);
        assert(right@.take(j as int) =~= right@);
    }
    while i > 0 || j > 0
        invariant
            i <= left@.len(),
            j <= right@.len(),
            forall|k: int| 0 <= k < left@.len() ==> (#[trigger] left@[k]) < arena@.len(),
            forall|k: int| 0 <= k < right@.len() ==> (#[trigger] right@[k]) < arena@.len(),
            merged(arena@, left@, right@) == merged(
                arena@,
                left@.take(i as int),
                right@.take(j as int),
            ) + reversed@.reverse(),
        decreases i + j,
    {
        let ghost before = reversed@;
        let ghost l = left@.take(i as int);
        let ghost r = right@.take(j as int);
        let from_right: bool = if j == 0 {
            false
        } else if i == 0 {
            true
        } else {
            arena[left[i - 1] as usize].on_disk >= arena[right[j - 1] as usize].on_disk
        };
        if from_right {
            j = j - 1;
            reversed.push(right[j]);
            proof {
                assert(r.last() == right@[j as int]);
                assert(r.drop_last() =~= right@.take(j as int));
                if l.len() == 0 {
                    assert(merged(arena@, l, r) == r);
                    assert(merged(arena@, l, r.drop_last()) =~= r.drop_last());
                    assert(r =~= r.drop_last().push(r.last()));
                }
            }
        } else {
            i = i - 1;
            reversed.push(left[i]);
            proof {
                assert(l.last() == left@[i as int]);
                assert(l.drop_last() =~= left@.take(i as int));
                if r.len() == 0 {
                    assert(merged(arena@, l, r) == l);
                    assert(l =~= l.drop_last().push(l.last()));
                }
            }
        }
        proof {
            let rest = merged(arena@, left@.take(i as int), right@.take(j as int));
            assert(merged(arena@, l, r) == rest.push(reversed@.last()));
            assert(reversed@.reverse() =~= seq![reversed@.last()] + before.reverse());
            assert(rest.push(reversed@.last()) + before.reverse() =~= rest + reversed@.reverse());
        }
    }
    let mut out: Vec<u32> = Vec::new();
    let mut k: usize = reversed.len();
    while k > 0
        invariant
            k <= reversed@.len(),
            out@ =~= reversed@.reverse().take(reversed@.len() - k),
        decreases k,
    {
        k = k - 1;
        out.push(reversed[k]);
    }
    proof {
        assert(left@.take(0) =~= Seq::<u32>::empty());
        assert(right@.take(0) =~= Seq::<u32>::empty());
        assert(out@ =~= reversed@.reverse());
        assert(Seq::<u32>::empty() + reversed@.reverse() =~= reversed@.reverse());
    }
    out
}

/// Sort the ids in `ids[from..to]` by size, largest first; equal sizes keep
/// their order.
fn sort_range(arena: &Vec<Node>, ids: &Vec<u32>, from: usize, to: usize) -> (out: Vec<u32>)
    requires
        from <= to <= ids@.len(),
        forall|k: int| 0 <= k < ids@.len() ==> (#[trigger] ids@[k]) < arena@.len(),
    ensures
        out@ == by_size(arena@, ids@.subrange(from as int, to as int)),
    decreases to - from,
{
    let ghost range = ids@.subrange(from as int, to as int);
    if to - from <= 1 {
        let mut out: Vec<u32> = Vec::new();
        if from < to {
            out.push(ids[from]);
        }
        proof {
            assert(out@ =~= range);
            lemma_by_size_of_sorted(arena@, range);
        }
        return out;
    }
    let mid: usize = from + (to - from) / 2;
    let left: Vec<u32> = sort_range(arena, ids, from, mid);
    let right: Vec<u32> = sort_range(arena, ids, mid, to);
    proof {
        let a = ids@.subrange(from as int, mid as int);
        let b = ids@.subrange(mid as int, to as int);
        assert(range =~= a + b);
        lemma_merged_sorts(arena@, a, b);
        lemma_by_size(arena@, a);
        lemma_by_size(arena@, b);
        assert forall|k: int| 0 <= k < left@.len() implies (#[trigger] left@[k])
            < arena@.len() by {
            assert(left@.contains(left@[k]));
            assert(a.contains(left@[k]));
        }
        assert forall|k: int| 0 <= k < right@.len() implies (#[trigger] right@[k])
            < arena@.len() by {
            assert(right@.contains(right@[k]));
            assert(b.contains(right@[k]));
        }
    }
    merge_runs(arena, &left, &right)
}

/// Sort ids by size, largest first; equal sizes keep their order.
pub fn sort_by_size(arena: &Vec<Node>, ids: &Vec<u32>) -> (out: Vec<u32>)
    requires
        forall|k: int| 0 <= k < ids@.len() ==> (#[trigger] ids@[k]) < arena@.len(),
    ensures
        out@ == by_size(arena@, ids@),
{
    assert(ids@.subrange(0, ids@.len() as int) =~= ids@);
    sort_range(arena, ids, 0, ids.len())
}

} // verus!
