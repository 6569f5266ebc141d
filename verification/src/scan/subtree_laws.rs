//! What the totals of a folder are, said of the nodes below it.

use crate::scan::ancestry::{lemma_under_bound, lemma_under_root};
use crate::scan::categories::FileCategory;
use crate::scan::node::{under, Node, Tree};
use crate::scan::sums::{
    lemma_sum_add, lemma_sum_congruent, lemma_sum_monotone, lemma_sum_range_count, sum,
};
use crate::scan::surgery::{
    cut, cut_share, doomed, live_mark, operated, valid_root, RemovedSummary,
};
use crate::scan::surgery_laws::{
    law_scan_root_survives, law_surgery_keeps_rollup, lemma_root_shrinks,
};
use crate::scan::totals::{is_dominant, relinked, Measure};
use crate::scan::weights::{law_totals_are_subtree_sums, share_below, subtree_sum};
use vstd::prelude::*;

verus! {

/// Node `x` lies below `i`, at any distance, and was not removed.
pub open spec fn lives_below(arena: Seq<Node>, x: int, i: int) -> bool {
    x != i && under(arena, x, i) && !arena[x].removed
}

/// The allocated bytes of the files below `i`, by id.
pub open spec fn bytes_below(arena: Seq<Node>, i: int) -> spec_fn(int) -> nat {
    |x: int|
        if lives_below(arena, x, i) && !arena[x].dir {
            arena[x].on_disk as nat
        } else {
            0
        }
}

/// The logical bytes of the files below `i`, by id.
pub open spec fn logical_below(arena: Seq<Node>, i: int) -> spec_fn(int) -> nat {
    |x: int|
        if lives_below(arena, x, i) && !arena[x].dir {
            arena[x].logical as nat
        } else {
            0
        }
}

/// The allocated bytes of the files of one kind below `i`, by id.
pub open spec fn kind_below(arena: Seq<Node>, i: int, c: FileCategory) -> spec_fn(int) -> nat {
    |x: int|
        if lives_below(arena, x, i) && !arena[x].dir && arena[x].category == c {
            arena[x].on_disk as nat
        } else {
            0
        }
}

/// One for every file (or every folder) below `i`, by id.
pub open spec fn marks_below(arena: Seq<Node>, i: int, dir: bool) -> spec_fn(int) -> nat {
    |x: int|
        if lives_below(arena, x, i) && arena[x].dir == dir {
            1nat
        } else {
            0
        }
}

/// `total` is `exact`, or the largest number there is where `exact` is larger.
pub open spec fn capped(total: u64, exact: nat) -> bool {
    if exact <= 0xFFFF_FFFF_FFFF_FFFF {
        total == exact
    } else {
        total == 0xFFFF_FFFF_FFFF_FFFFu64
    }
}

/// The slots of the categories are all different and within the table.
pub proof fn law_slots_tell_categories_apart(c: FileCategory, d: FileCategory)
    ensures
        c.bits() < 9,
        c.bits() == d.bits() <==> c == d,
{
}

/// A folder's totals are those of what lives below it: the bytes of its files, how
/// many files and folders there are, and in each category's slot the bytes of the
/// files of that category.
pub proof fn law_totals_are_of_what_lives_below(t: Tree, i: int, c: FileCategory)
    requires
        t.shaped(),
        t.removal_closed(),
        t.rolled_up(),
        0 <= i < t.arena@.len(),
        t.arena@[i].dir,
        !t.arena@[i].removed,
    ensures
        ({
            let a = t.arena@;
            let n = a.len() as int;
            let extra = t.dir_extras@[a[i].dir_index as int];
            &&& capped(a[i].on_disk, sum(bytes_below(a, i), 0, n))
            &&& capped(a[i].logical, sum(logical_below(a, i), 0, n))
            &&& extra.file_count == sum(marks_below(a, i, false), 0, n)
            &&& extra.folder_count == sum(marks_below(a, i, true), 0, n)
            &&& capped(extra.type_sizes@[c.bits() as int], sum(kind_below(a, i, c), 0, n))
        }),
{
    let a = t.arena@;
    let n = a.len() as int;
    let k = c.bits() as int;
    law_totals_are_subtree_sums(t, Measure::OnDisk, i);
    law_totals_are_subtree_sums(t, Measure::Logical, i);
    law_totals_are_subtree_sums(t, Measure::Files, i);
    law_totals_are_subtree_sums(t, Measure::Folders, i);
    law_totals_are_subtree_sums(t, Measure::Type(k), i);
    lemma_sum_congruent(share_below(t, Measure::OnDisk, i), bytes_below(a, i), 0, n);
    lemma_sum_congruent(share_below(t, Measure::Logical, i), logical_below(a, i), 0, n);
    lemma_sum_congruent(share_below(t, Measure::Files, i), marks_below(a, i, false), 0, n);
    lemma_sum_congruent(share_below(t, Measure::Folders, i), marks_below(a, i, true), 0, n);
    let shares = share_below(t, Measure::Type(k), i);
    let kinds = kind_below(a, i, c);
    assert forall|x: int| 0 <= x < n implies #[trigger] shares(x) == kinds(x) by {
        law_slots_tell_categories_apart(a[x].category, c);
    }
    lemma_sum_congruent(shares, kinds, 0, n);
    lemma_marks_fit(a, i, false);
    lemma_marks_fit(a, i, true);
}

/// There are no more nodes below a folder than nodes.
proof fn lemma_marks_fit(arena: Seq<Node>, i: int, dir: bool)
    ensures
        sum(marks_below(arena, i, dir), 0, arena.len() as int) <= arena.len(),
{
    let one = |x: int| 1nat;
    let n = arena.len() as int;
    lemma_sum_monotone(marks_below(arena, i, dir), one, 0, n);
    lemma_sum_range_count(one, 0, n, 0, n);
}

/// No category holds more bytes below a folder than the one that prevails in it,
/// and of those that hold as many that one comes first.
pub proof fn law_prevailing_category_holds_most(
    t: Tree,
    i: int,
    best: FileCategory,
    c: FileCategory,
)
    requires
        t.shaped(),
        t.removal_closed(),
        t.rolled_up(),
        0 <= i < t.arena@.len(),
        t.arena@[i].dir,
        !t.arena@[i].removed,
        is_dominant(t, i, best),
        sum(bytes_below(t.arena@, i), 0, t.arena@.len() as int) <= u64::MAX,
    ensures
        ({
            let n = t.arena@.len() as int;
            let held = sum(kind_below(t.arena@, i, c), 0, n);
            let most = sum(kind_below(t.arena@, i, best), 0, n);
            held < most || held == most && best.bits() <= c.bits()
        }),
{
    let a = t.arena@;
    let n = a.len() as int;
    law_totals_are_of_what_lives_below(t, i, c);
    law_totals_are_of_what_lives_below(t, i, best);
    lemma_sum_monotone(kind_below(a, i, c), bytes_below(a, i), 0, n);
    lemma_sum_monotone(kind_below(a, i, best), bytes_below(a, i), 0, n);
    let sizes = t.extra(i).type_sizes@;
    assert(sizes[c.bits() as int] <= sizes[best.bits() as int]);
}

/// The whole scan fits: its bytes can be counted.
pub open spec fn scan_fits(arena: Seq<Node>) -> bool {
    &&& sum(bytes_below(arena, 0), 0, arena.len() as int) <= 0xFFFF_FFFF_FFFF_FFFF
    &&& sum(logical_below(arena, 0), 0, arena.len() as int) <= 0xFFFF_FFFF_FFFF_FFFF
}

proof fn lemma_scan_fits(t: Tree, m: Measure)
    requires
        t.wf(),
        scan_fits(t.arena@),
        m.valid(),
    ensures
        subtree_sum(t, m, 0) <= u64::MAX,
{
    let a = t.arena@;
    let n = a.len() as int;
    let f = share_below(t, m, 0);
    match m {
        Measure::OnDisk => {
            lemma_sum_congruent(f, bytes_below(a, 0), 0, n);
        },
        Measure::Logical => {
            lemma_sum_congruent(f, logical_below(a, 0), 0, n);
        },
        Measure::Files => {
            lemma_sum_congruent(f, marks_below(a, 0, false), 0, n);
            lemma_marks_fit(a, 0, false);
        },
        Measure::Folders => {
            lemma_sum_congruent(f, marks_below(a, 0, true), 0, n);
            lemma_marks_fit(a, 0, true);
        },
        Measure::Type(k) => {
            assert forall|x: int| 0 <= x < n implies #[trigger] f(x) <= bytes_below(a, 0)(x) by {}
            lemma_sum_monotone(f, bytes_below(a, 0), 0, n);
        },
    }
}

/// After a surgery every folder that is left holds the totals of what lives below
/// it then.
pub proof fn law_surgery_leaves_totals_of_survivors(
    pre: Tree,
    roots: Seq<u32>,
    post: Tree,
    summary: RemovedSummary,
    i: int,
    c: FileCategory,
)
    requires
        pre.wf(),
        pre.rolled_up(),
        scan_fits(pre.arena@),
        operated(pre, roots, post, summary),
        post.wf(),
        0 <= i < post.arena@.len(),
        post.arena@[i].dir,
        !post.arena@[i].removed,
    ensures
        ({
            let a = post.arena@;
            let n = a.len() as int;
            let extra = post.dir_extras@[a[i].dir_index as int];
            &&& a[i].on_disk == sum(bytes_below(a, i), 0, n)
            &&& a[i].logical == sum(logical_below(a, i), 0, n)
            &&& extra.file_count == sum(marks_below(a, i, false), 0, n)
            &&& extra.folder_count == sum(marks_below(a, i, true), 0, n)
            &&& extra.type_sizes@[c.bits() as int] == sum(kind_below(a, i, c), 0, n)
        }),
{
    let a = post.arena@;
    let n = a.len() as int;
    assert forall|m: Measure| m.valid() implies #[trigger] subtree_sum(pre, m, 0) <= u64::MAX by {
        lemma_scan_fits(pre, m);
    }
    law_surgery_keeps_rollup(pre, roots, post, summary);
    law_totals_are_of_what_lives_below(post, i, c);
    assert forall|x: int| 0 <= x < n implies (#[trigger] post.arena@[x]).parent
        == pre.arena@[x].parent && post.arena@[x].dir == pre.arena@[x].dir && (
    post.arena@[x].removed || !pre.arena@[x].removed) by {
        assert(post.arena@[x] == relinked(pre.arena@[x], post.arena@[x]));
    }
    let f = bytes_below(a, i);
    let g = bytes_below(pre.arena@, 0);
    let fl = logical_below(a, i);
    let gl = logical_below(pre.arena@, 0);
    let kinds = kind_below(a, i, c);
    assert forall|x: int| 0 <= x < n implies #[trigger] f(x) <= g(x) && kinds(x) <= f(x) by {
        lemma_below_before(pre, post, x, i);
    }
    assert forall|x: int| 0 <= x < n implies #[trigger] fl(x) <= gl(x) by {
        lemma_below_before(pre, post, x, i);
    }
    assert forall|x: int| 0 <= x < n implies #[trigger] kinds(x) <= f(x) by {}
    lemma_sum_monotone(f, g, 0, n);
    lemma_sum_monotone(fl, gl, 0, n);
    lemma_sum_monotone(kinds, f, 0, n);
}

/// What lives below a folder after a surgery lived below the scan root before.
proof fn lemma_below_before(pre: Tree, post: Tree, x: int, i: int)
    requires
        pre.wf(),
        post.arena@.len() == pre.arena@.len(),
        forall|x: int|
            0 <= x < pre.arena@.len() ==> (#[trigger] post.arena@[x]).parent == pre.arena@[x].parent
                && (post.arena@[x].removed || !pre.arena@[x].removed),
        0 <= x < pre.arena@.len(),
        0 <= i,
    ensures
        lives_below(post.arena@, x, i) ==> lives_below(pre.arena@, x, 0),
{
    lemma_under_root(pre, x);
    assert(post.arena@[x].parent == pre.arena@[x].parent);
    if x == 0 && under(post.arena@, 0, i) {
        lemma_under_bound(post.arena@, 0, i);
    }
}

/// Node `x` is there before and removed after.
pub open spec fn went(before: Seq<Node>, after: Seq<Node>, x: int) -> bool {
    !before[x].removed && after[x].removed
}

/// The allocated bytes of the files that went, by id.
pub open spec fn bytes_gone(before: Seq<Node>, after: Seq<Node>) -> spec_fn(int) -> nat {
    |x: int|
        if went(before, after, x) && !before[x].dir {
            before[x].on_disk as nat
        } else {
            0
        }
}

/// The logical bytes of the files that went, by id.
pub open spec fn logical_gone(before: Seq<Node>, after: Seq<Node>) -> spec_fn(int) -> nat {
    |x: int|
        if went(before, after, x) && !before[x].dir {
            before[x].logical as nat
        } else {
            0
        }
}

/// One for every file (or every folder) that went, by id.
pub open spec fn marks_gone(before: Seq<Node>, after: Seq<Node>, dir: bool) -> spec_fn(int) -> nat {
    |x: int|
        if went(before, after, x) && before[x].dir == dir {
            1nat
        } else {
            0
        }
}

/// A node is removed by a surgery exactly when it was not the scan root and it, or
/// something above it that is not the scan root, was asked for; and whatever was
/// removed before stays so. Files keep their sizes.
pub proof fn law_surgery_removes_what_was_asked_for(
    pre: Tree,
    roots: Seq<u32>,
    post: Tree,
    summary: RemovedSummary,
    x: int,
)
    requires
        pre.shaped(),
        operated(pre, roots, post, summary),
        0 <= x < pre.arena@.len(),
    ensures
        post.arena@.len() == pre.arena@.len(),
        post.arena@[x].removed <==> pre.arena@[x].removed || exists|k: int|
            0 <= k < roots.len() && 0 < (#[trigger] roots[k]) < pre.arena@.len() && under(
                pre.arena@,
                x,
                roots[k] as int,
            ),
        !pre.arena@[x].dir ==> post.arena@[x].on_disk == pre.arena@[x].on_disk
            && post.arena@[x].logical == pre.arena@[x].logical,
        post.arena@[x].parent == pre.arena@[x].parent,
        post.arena@[x].dir == pre.arena@[x].dir,
        post.arena@[x].category == pre.arena@[x].category,
        post.arena@[x].modified == pre.arena@[x].modified,
        post.arena@[x].first_child == pre.arena@[x].first_child,
        post.arena@[x].child_count == pre.arena@[x].child_count,
        post.arena@[x].cloud == pre.arena@[x].cloud,
        post.arena@[x].protected == pre.arena@[x].protected,
{
    assert(post.arena@[x] == relinked(pre.arena@[x], post.arena@[x]));
    let asked = exists|k: int|
        0 <= k < roots.len() && 0 < (#[trigger] roots[k]) < pre.arena@.len() && under(
            pre.arena@,
            x,
            roots[k] as int,
        );
    if doomed(pre, roots, x) {
        let r = choose|r: int| #[trigger]
            valid_root(pre, roots, r) && under(pre.arena@, x, r);
        let k = choose|k: int| 0 <= k < roots.len() && roots[k] == r as u32;
        assert(roots[k] == r);
    }
    if asked {
        let k = choose|k: int|
            0 <= k < roots.len() && 0 < (#[trigger] roots[k]) < pre.arena@.len() && under(
                pre.arena@,
                x,
                roots[k] as int,
            );
        assert(valid_root(pre, roots, roots[k] as int));
    }
}

/// The summary of a surgery counts what went: the nodes, the files with their bytes,
/// and the folders.
pub proof fn law_summary_counts_what_went(
    pre: Tree,
    roots: Seq<u32>,
    post: Tree,
    summary: RemovedSummary,
)
    requires
        pre.wf(),
        pre.rolled_up(),
        scan_fits(pre.arena@),
        operated(pre, roots, post, summary),
        post.wf(),
    ensures
        ({
            let a = pre.arena@;
            let b = post.arena@;
            let n = a.len() as int;
            &&& summary.on_disk == sum(bytes_gone(a, b), 0, n)
            &&& summary.logical == sum(logical_gone(a, b), 0, n)
            &&& summary.files == sum(marks_gone(a, b, false), 0, n)
            &&& summary.folders == sum(marks_gone(a, b, true), 0, n)
            &&& summary.nodes == sum(marks_gone(a, b, false), 0, n) + sum(
                marks_gone(a, b, true),
                0,
                n,
            )
        }),
{
    let a = pre.arena@;
    let b = post.arena@;
    let n = a.len() as int;
    assert forall|m: Measure| m.valid() implies #[trigger] subtree_sum(pre, m, 0) <= u64::MAX by {
        lemma_scan_fits(pre, m);
    }
    let c = FileCategory::Other;
    law_totals_are_of_what_lives_below(pre, 0, c);
    law_scan_root_survives(pre, roots, post, summary);
    assert(post.arena@[0] == relinked(pre.arena@[0], post.arena@[0]));
    law_surgery_leaves_totals_of_survivors(pre, roots, post, summary, 0, c);
    lemma_root_shrinks(pre, roots, post, summary, Measure::OnDisk);
    lemma_root_shrinks(pre, roots, post, summary, Measure::Logical);
    lemma_root_shrinks(pre, roots, post, summary, Measure::Files);
    lemma_root_shrinks(pre, roots, post, summary, Measure::Folders);
    assert forall|x: int| 0 <= x < n implies {
        &&& (#[trigger] bytes_below(a, 0)(x)) == bytes_below(b, 0)(x) + bytes_gone(a, b)(x)
        &&& logical_below(a, 0)(x) == logical_below(b, 0)(x) + logical_gone(a, b)(x)
        &&& marks_below(a, 0, false)(x) == marks_below(b, 0, false)(x) + marks_gone(a, b, false)(x)
        &&& marks_below(a, 0, true)(x) == marks_below(b, 0, true)(x) + marks_gone(a, b, true)(x)
    } by {
        law_surgery_removes_what_was_asked_for(pre, roots, post, summary, x);
        lemma_under_root(pre, x);
        lemma_under_root(post, x);
    }
    let bb = bytes_below(b, 0);
    lemma_sum_add(bb, bytes_gone(a, b), bytes_below(a, 0), 0, n);
    assert forall|x: int| 0 <= x < n implies #[trigger] logical_below(a, 0)(x) == logical_below(
        b,
        0,
    )(x) + logical_gone(a, b)(x) by {
        assert(bytes_below(a, 0)(x) == bytes_below(b, 0)(x) + bytes_gone(a, b)(x));
    }
    lemma_sum_add(logical_below(b, 0), logical_gone(a, b), logical_below(a, 0), 0, n);
    assert forall|x: int| 0 <= x < n implies #[trigger] marks_below(a, 0, false)(x) == marks_below(
        b,
        0,
        false,
    )(x) + marks_gone(a, b, false)(x) by {
        assert(bytes_below(a, 0)(x) == bytes_below(b, 0)(x) + bytes_gone(a, b)(x));
    }
    lemma_sum_add(marks_below(b, 0, false), marks_gone(a, b, false), marks_below(a, 0, false), 0, n);
    assert forall|x: int| 0 <= x < n implies #[trigger] marks_below(a, 0, true)(x) == marks_below(
        b,
        0,
        true,
    )(x) + marks_gone(a, b, true)(x) by {
        assert(bytes_below(a, 0)(x) == bytes_below(b, 0)(x) + bytes_gone(a, b)(x));
    }
    lemma_sum_add(marks_below(b, 0, true), marks_gone(a, b, true), marks_below(a, 0, true), 0, n);
    let before = live_mark(pre);
    let after = live_mark(post);
    let gone = |x: int| marks_gone(a, b, false)(x) + marks_gone(a, b, true)(x);
    assert forall|x: int| 0 <= x < n implies #[trigger] before(x) == after(x) + gone(x) by {
        law_surgery_removes_what_was_asked_for(pre, roots, post, summary, x);
    }
    lemma_sum_add(after, gone, before, 0, n);
    lemma_sum_add(marks_gone(a, b, false), marks_gone(a, b, true), gone, 0, n);
}

/// Node `r` was asked for, is still there, and nothing above it was asked for. The
/// scan root cannot be asked for.
pub open spec fn topmost_asked(arena: Seq<Node>, roots: Seq<u32>, r: int) -> bool {
    &&& 0 < r < arena.len()
    &&& roots.contains(r as u32)
    &&& !arena[r].removed
    &&& forall|q: int| #[trigger]
        under(arena, r, q) && 0 < q < arena.len() && roots.contains(q as u32) ==> q == r
}

/// The allocated bytes of the topmost nodes asked for at or below `i`, by id.
pub open spec fn bytes_taken(arena: Seq<Node>, roots: Seq<u32>, i: int) -> spec_fn(int) -> nat {
    |r: int|
        if topmost_asked(arena, roots, r) && under(arena, r, i) {
            arena[r].on_disk as nat
        } else {
            0
        }
}

/// The logical bytes of the topmost nodes asked for at or below `i`, by id.
pub open spec fn logical_taken(arena: Seq<Node>, roots: Seq<u32>, i: int) -> spec_fn(int) -> nat {
    |r: int|
        if topmost_asked(arena, roots, r) && under(arena, r, i) {
            arena[r].logical as nat
        } else {
            0
        }
}

/// The bytes of one kind in the topmost nodes asked for at or below `i`, by id: a
/// folder has its total of the kind, a file counts where it is of the kind.
pub open spec fn kind_taken(t: Tree, roots: Seq<u32>, i: int, c: FileCategory) -> spec_fn(
    int,
) -> nat {
    |r: int|
        if topmost_asked(t.arena@, roots, r) && under(t.arena@, r, i) {
            if t.arena@[r].dir {
                t.dir_extras@[t.arena@[r].dir_index as int].type_sizes@[c.bits() as int] as nat
            } else if t.arena@[r].category == c {
                t.arena@[r].on_disk as nat
            } else {
                0
            }
        } else {
            0
        }
}

/// The files in the topmost nodes asked for at or below `i`, by id.
pub open spec fn files_taken(t: Tree, roots: Seq<u32>, i: int) -> spec_fn(int) -> nat {
    |r: int|
        if topmost_asked(t.arena@, roots, r) && under(t.arena@, r, i) {
            if t.arena@[r].dir {
                t.dir_extras@[t.arena@[r].dir_index as int].file_count as nat
            } else {
                1
            }
        } else {
            0
        }
}

/// `left` is `held` less `taken`, or 0 where that is more.
pub open spec fn reduced(held: u64, taken: nat, left: u64) -> bool {
    if taken <= held {
        left == held - taken
    } else {
        left == 0
    }
}

/// The nodes that are cut are the topmost ones that were asked for.
proof fn lemma_cut_is_topmost(t: Tree, roots: Seq<u32>, r: int)
    requires
        t.shaped(),
    ensures
        cut(t, roots, r) <==> topmost_asked(t.arena@, roots, r),
{
    if cut(t, roots, r) {
        assert forall|q: int| #[trigger]
            under(t.arena@, r, q) && 0 < q < t.arena@.len() && roots.contains(
                q as u32,
            ) implies q == r by {
            assert(valid_root(t, roots, q));
        }
    }
    if topmost_asked(t.arena@, roots, r) {
        assert forall|q: int| #[trigger] valid_root(t, roots, q) && under(
            t.arena@,
            r,
            q,
        ) implies q == r by {}
        assert(valid_root(t, roots, r));
    }
}

/// A folder that is left gives up what the topmost nodes held that were asked for
/// below it, each once; a folder below which nothing was asked for keeps what it
/// had.
pub proof fn law_folder_gives_up_what_was_asked_for(
    pre: Tree,
    roots: Seq<u32>,
    post: Tree,
    summary: RemovedSummary,
    i: int,
    c: FileCategory,
)
    requires
        pre.shaped(),
        operated(pre, roots, post, summary),
        0 <= i < pre.arena@.len(),
        pre.arena@[i].dir,
        !post.arena@[i].removed,
    ensures
        ({
            let n = pre.arena@.len() as int;
            let a = pre.arena@;
            let held = pre.dir_extras@[a[i].dir_index as int];
            let left = post.dir_extras@[post.arena@[i].dir_index as int];
            &&& reduced(a[i].on_disk, sum(bytes_taken(a, roots, i), 0, n), post.arena@[i].on_disk)
            &&& reduced(
                a[i].logical,
                sum(logical_taken(a, roots, i), 0, n),
                post.arena@[i].logical,
            )
            &&& reduced(
                held.type_sizes@[c.bits() as int],
                sum(kind_taken(pre, roots, i, c), 0, n),
                left.type_sizes@[c.bits() as int],
            )
            &&& reduced(held.file_count, sum(files_taken(pre, roots, i), 0, n), left.file_count)
        }),
{
    let n = pre.arena@.len() as int;
    let k = c.bits() as int;
    let a = pre.arena@;
    let f = cut_share(pre, roots, Measure::OnDisk, i);
    let g = cut_share(pre, roots, Measure::Logical, i);
    let h = cut_share(pre, roots, Measure::Type(k), i);
    let w = cut_share(pre, roots, Measure::Files, i);
    assert forall|r: int| 0 <= r < n implies #[trigger] f(r) == bytes_taken(a, roots, i)(r) by {
        lemma_cut_is_topmost(pre, roots, r);
    }
    assert forall|r: int| 0 <= r < n implies #[trigger] g(r) == logical_taken(a, roots, i)(r) by {
        lemma_cut_is_topmost(pre, roots, r);
    }
    assert forall|r: int| 0 <= r < n implies #[trigger] h(r) == kind_taken(pre, roots, i, c)(
        r,
    ) by {
        lemma_cut_is_topmost(pre, roots, r);
        law_slots_tell_categories_apart(a[r].category, c);
    }
    assert forall|r: int| 0 <= r < n implies #[trigger] w(r) == files_taken(pre, roots, i)(r) by {
        lemma_cut_is_topmost(pre, roots, r);
    }
    lemma_sum_congruent(f, bytes_taken(a, roots, i), 0, n);
    lemma_sum_congruent(g, logical_taken(a, roots, i), 0, n);
    lemma_sum_congruent(h, kind_taken(pre, roots, i, c), 0, n);
    lemma_sum_congruent(w, files_taken(pre, roots, i), 0, n);
    assert(pre.is_folder(i));
    assert(post.total(Measure::OnDisk, i) == post.arena@[i].on_disk);
    assert(post.total(Measure::Logical, i) == post.arena@[i].logical);
    assert(post.total(Measure::Type(k), i) == post.extra(i).type_sizes@[k]);
    assert(post.total(Measure::Files, i) == post.extra(i).file_count);
}

/// The slots of the categories, in their order.
pub proof fn law_slots_of_the_categories()
    ensures
        FileCategory::Video.bits() == 0,
        FileCategory::Audio.bits() == 1,
        FileCategory::Image.bits() == 2,
        FileCategory::Document.bits() == 3,
        FileCategory::Archive.bits() == 4,
        FileCategory::Code.bits() == 5,
        FileCategory::Program.bits() == 6,
        FileCategory::System.bits() == 7,
        FileCategory::Other.bits() == 8,
{
}

/// The category that prevails in a folder has the largest slot, and of those that
/// are as large the first.
pub proof fn law_prevailing_slot_is_the_first_largest(
    t: Tree,
    i: int,
    best: FileCategory,
    c: FileCategory,
)
    requires
        is_dominant(t, i, best),
    ensures
        ({
            let sizes = t.dir_extras@[t.arena@[i].dir_index as int].type_sizes@;
            let held = sizes[c.bits() as int];
            let most = sizes[best.bits() as int];
            held < most || held == most && best.bits() <= c.bits()
        }),
{
    let sizes = t.extra(i).type_sizes@;
    assert(sizes[c.bits() as int] <= sizes[best.bits() as int]);
}

} // verus!
