//! The laws of snapshots and their comparison.

use crate::lexical::lemma_precedes_total;
use crate::snapshots::changes::{
    change_of, changed, is_change, reported, reported_before, size_at, top_changes,
    ChangeView,
};
use crate::snapshots::keys::{
    has_key, last_size, lemma_key_absent, lower_rows, FolderRow,
};
use crate::snapshots::{kept_folders, FolderChange, FolderSize, MIN_FOLDER_SIZE};
use crate::text::lower_case;
use vstd::prelude::*;

verus! {

/// A reported delta is what came on top: for sizes that fit a signed number it
/// is the size after less the size before.
pub proof fn law_delta_is_the_difference(
    before: Seq<FolderRow>,
    after: Seq<FolderRow>,
    changes: Seq<FolderChange>,
    limit: int,
    k: int,
)
    requires
        top_changes(before, after, changes, limit),
        0 <= k < changes.len(),
        changes[k].before <= i64::MAX,
        changes[k].after <= i64::MAX,
    ensures
        changes[k].delta == changes[k].after - changes[k].before,
{
    let row = changes[k];
    assert(is_change(before, after, row@));
    assert(row@.delta == row.delta && row@.before == row.before && row@.after == row.after);
}

/// Changes are reported by size: no change is followed by a larger one.
pub proof fn law_larger_changes_first(
    before: Seq<FolderRow>,
    after: Seq<FolderRow>,
    changes: Seq<FolderChange>,
    limit: int,
)
    requires
        top_changes(before, after, changes, limit),
    ensures
        forall|k: int, l: int|
            0 <= k < l < changes.len() ==> {
                let x = (#[trigger] changes[k]).delta;
                let y = (#[trigger] changes[l]).delta;
                (x >= y || -x >= y) && (x >= -y || -x >= -y)
            },
{
    assert forall|k: int, l: int| 0 <= k < l < changes.len() implies {
        let x = (#[trigger] changes[k]).delta;
        let y = (#[trigger] changes[l]).delta;
        (x >= y || -x >= y) && (x >= -y || -x >= -y)
    } by {
        assert(reported_before(changes[k]@, changes[l]@));
    }
}

/// A folder that kept its size is not reported.
pub proof fn law_unchanged_is_not_reported(
    before: Seq<FolderRow>,
    after: Seq<FolderRow>,
    changes: Seq<FolderChange>,
    limit: int,
    k: int,
)
    requires
        top_changes(before, after, changes, limit),
        0 <= k < changes.len(),
    ensures
        changes[k].before != changes[k].after,
{
    let row = changes[k];
    assert(is_change(before, after, row@));
    assert(row@.before == row.before && row@.after == row.after);
}

/// Comparing the same folders reports nothing.
pub proof fn law_same_folders_no_changes(
    folders: Seq<FolderRow>,
    changes: Seq<FolderChange>,
    limit: int,
)
    requires
        top_changes(folders, folders, changes, limit),
    ensures
        changes.len() == 0,
{
    if changes.len() > 0 {
        assert(is_change(folders, folders, changes[0]@));
    }
}

/// A report below the limit leaves no change out.
pub proof fn law_nothing_dropped_below_limit(
    before: Seq<FolderRow>,
    after: Seq<FolderRow>,
    changes: Seq<FolderChange>,
    limit: int,
    key: Seq<char>,
)
    requires
        top_changes(before, after, changes, limit),
        changes.len() < limit,
        changed(before, after, key),
    ensures
        reported(changes, change_of(before, after, key)),
{
}

/// A folder that is missing on one side counts as empty there, whatever the
/// case of its path on the other side.
pub proof fn law_missing_counts_zero(folders: Seq<FolderSize>, path: Seq<char>)
    requires
        forall|k: int|
            0 <= k < folders.len() ==> lower_case((#[trigger] folders[k]).path@) != lower_case(path),
    ensures
        size_at(lower_rows(folders), lower_case(path)) == 0,
{
    let rows = lower_rows(folders);
    assert forall|k: int| !#[trigger] has_key(rows, lower_case(path), k) by {
        if 0 <= k < rows.len() {
            assert(lower_case(folders[k].path@) != lower_case(path));
        }
    }
    lemma_key_absent(rows, lower_case(path));
}

/// Case is ignored: folders that are spelled in another case and kept their
/// sizes are not reported.
pub proof fn law_case_is_ignored(
    before: Seq<FolderSize>,
    after: Seq<FolderSize>,
    changes: Seq<FolderChange>,
    limit: int,
)
    requires
        before.len() == after.len(),
        forall|k: int|
            0 <= k < before.len() ==> lower_case((#[trigger] before[k]).path@) == lower_case(
                after[k].path@,
            ) && before[k].logical == after[k].logical,
        top_changes(lower_rows(before), lower_rows(after), changes, limit),
    ensures
        changes.len() == 0,
{
    let b = lower_rows(before);
    let a = lower_rows(after);
    if changes.len() > 0 {
        assert(is_change(b, a, changes[0]@));
        let key = choose|key: Seq<char>| #[trigger]
            changed(b, a, key) && changes[0]@ == change_of(b, a, key);
        assert forall|k: int| 0 <= k < b.len() implies (#[trigger] b[k]).key == a[k].key
            && b[k].logical == a[k].logical by {
            assert(lower_case(before[k].path@) == lower_case(after[k].path@));
        }
        lemma_same_sizes(b, a, key);
    }
}

proof fn lemma_same_sizes(a: Seq<FolderRow>, b: Seq<FolderRow>, key: Seq<char>)
    requires
        a.len() == b.len(),
        forall|k: int|
            0 <= k < a.len() ==> (#[trigger] a[k]).key == b[k].key && a[k].logical == b[k].logical,
    ensures
        last_size(a, key) == last_size(b, key),
    decreases a.len(),
{
    if a.len() > 0 {
        assert(a[a.len() - 1].key == b[b.len() - 1].key);
        assert forall|k: int| 0 <= k < a.drop_last().len() implies (#[trigger] a.drop_last()[k]).key
            == b.drop_last()[k].key && a.drop_last()[k].logical == b.drop_last()[k].logical by {
            assert(a[k].key == b[k].key);
        }
        lemma_same_sizes(a.drop_last(), b.drop_last(), key);
    }
}

/// A built snapshot keeps the folders of at least [`MIN_FOLDER_SIZE`], all of
/// them, and no others.
pub proof fn law_build_keeps_large_folders(pairs: Seq<(String, u64)>)
    ensures
        forall|k: int|
            0 <= k < kept_folders(pairs).len() ==> (#[trigger] kept_folders(pairs)[k]).logical
                >= MIN_FOLDER_SIZE && pairs.contains(
                (kept_folders(pairs)[k].path, kept_folders(pairs)[k].logical),
            ),
        forall|k: int|
            0 <= k < pairs.len() && (#[trigger] pairs[k]).1 >= MIN_FOLDER_SIZE ==> kept_folders(
                pairs,
            ).contains((FolderSize { path: pairs[k].0, logical: pairs[k].1 })),
    decreases pairs.len(),
{
    reveal(Seq::filter);
    let kept = kept_folders(pairs);
    if pairs.len() > 0 {
        let front = pairs.drop_last();
        let last = pairs.last();
        law_build_keeps_large_folders(front);
        let kept_front = kept_folders(front);
        assert(kept =~= if last.1 >= MIN_FOLDER_SIZE {
            kept_front.push(FolderSize { path: last.0, logical: last.1 })
        } else {
            kept_front
        });
        assert forall|k: int| 0 <= k < kept.len() implies (#[trigger] kept[k]).logical
            >= MIN_FOLDER_SIZE && pairs.contains((kept[k].path, kept[k].logical)) by {
            if k < kept_front.len() {
                assert(kept_front[k] == kept[k]);
                assert(front.contains((kept[k].path, kept[k].logical)));
                let j = choose|j: int|
                    0 <= j < front.len() && front[j] == (kept[k].path, kept[k].logical);
                assert(pairs[j] == front[j]);
            } else {
                assert(pairs[pairs.len() - 1] == last);
            }
        }
        assert forall|k: int|
            0 <= k < pairs.len() && (#[trigger] pairs[k]).1 >= MIN_FOLDER_SIZE implies kept.contains(
            (FolderSize { path: pairs[k].0, logical: pairs[k].1 })) by {
            let row = FolderSize { path: pairs[k].0, logical: pairs[k].1 };
            if k < front.len() {
                assert(front[k] == pairs[k]);
                assert(kept_front.contains(row));
                let j = choose|j: int| 0 <= j < kept_front.len() && kept_front[j] == row;
                assert(kept[j] == row);
            } else {
                assert(kept[kept.len() - 1] == row);
            }
        }
    }
}

/// The order of the report is a strict one.
proof fn lemma_report_order(x: ChangeView, y: ChangeView)
    ensures
        !(reported_before(x, y) && reported_before(y, x)),
        !reported_before(x, x),
{
    lemma_precedes_total(x.path, y.path);
    lemma_precedes_total(x.path, x.path);
}

/// Two snapshots have one report: what is reported, and in which order, is
/// determined by the folders.
pub proof fn law_report_is_determined(
    before: Seq<FolderRow>,
    after: Seq<FolderRow>,
    one: Seq<FolderChange>,
    other: Seq<FolderChange>,
    limit: int,
)
    requires
        top_changes(before, after, one, limit),
        top_changes(before, after, other, limit),
    ensures
        one.len() == other.len(),
        forall|k: int| 0 <= k < one.len() ==> (#[trigger] one[k])@ == other[k]@,
{
    if one.len() <= other.len() {
        lemma_same_prefix(before, after, one, other, limit, one.len() as int);
        lemma_as_long(before, after, one, other, limit);
    } else {
        lemma_same_prefix(before, after, other, one, limit, other.len() as int);
        lemma_as_long(before, after, other, one, limit);
    }
}

proof fn lemma_same_prefix(
    before: Seq<FolderRow>,
    after: Seq<FolderRow>,
    one: Seq<FolderChange>,
    other: Seq<FolderChange>,
    limit: int,
    n: int,
)
    requires
        top_changes(before, after, one, limit),
        top_changes(before, after, other, limit),
        0 <= n <= one.len(),
        n <= other.len(),
    ensures
        forall|k: int| 0 <= k < n ==> (#[trigger] one[k])@ == other[k]@,
    decreases n,
{
    if n > 0 {
        lemma_same_prefix(before, after, one, other, limit, n - 1);
        let x = one[n - 1];
        let y = other[n - 1];
        if x@ != y@ {
            lemma_follows(before, after, other, one, limit, n - 1);
            lemma_follows(before, after, one, other, limit, n - 1);
            lemma_report_order(x@, y@);
        }
    }
}

/// Behind a common prefix, what one report has next comes no earlier in the
/// other.
proof fn lemma_follows(
    before: Seq<FolderRow>,
    after: Seq<FolderRow>,
    one: Seq<FolderChange>,
    other: Seq<FolderChange>,
    limit: int,
    n: int,
)
    requires
        top_changes(before, after, one, limit),
        top_changes(before, after, other, limit),
        0 <= n < one.len(),
        n < other.len(),
        forall|k: int| 0 <= k < n ==> (#[trigger] one[k])@ == other[k]@,
        one[n]@ != other[n]@,
    ensures
        reported_before(one[n]@, other[n]@),
{
    let row = other[n];
    assert(is_change(before, after, row@));
    let key = choose|key: Seq<char>| #[trigger]
        changed(before, after, key) && row@ == change_of(before, after, key);
    if reported(one, row@) {
        let p = choose|p: int| 0 <= p < one.len() && (#[trigger] one[p])@ == row@;
        if p < n {
            assert(one[p]@ == other[p]@);
            assert(reported_before(other[p]@, other[n]@));
            lemma_report_order(row@, row@);
        } else {
            assert(reported_before(one[n]@, one[p]@));
        }
    } else {
        assert(reported_before(one[n]@, change_of(before, after, key)));
    }
}

/// A report that agrees with another as far as it goes is as long.
proof fn lemma_as_long(
    before: Seq<FolderRow>,
    after: Seq<FolderRow>,
    one: Seq<FolderChange>,
    other: Seq<FolderChange>,
    limit: int,
)
    requires
        top_changes(before, after, one, limit),
        top_changes(before, after, other, limit),
        one.len() <= other.len(),
        forall|k: int| 0 <= k < one.len() ==> (#[trigger] one[k])@ == other[k]@,
    ensures
        one.len() == other.len(),
{
    if one.len() < other.len() {
        let n = one.len() as int;
        let row = other[n];
        assert(is_change(before, after, row@));
        if reported(one, row@) {
            let p = choose|p: int| 0 <= p < one.len() && (#[trigger] one[p])@ == row@;
            assert(reported_before(other[p]@, other[n]@));
            lemma_report_order(row@, row@);
        }
    }
}

} // verus!
