//! What a comparison reports, said of the folders that were compared.

use crate::lexical::{lemma_precedes_total, precedes};
use crate::snapshots::changes::{
    change_of, changed, delta_of, is_change, reported, reported_before, size_at, spelling,
    top_changes,
};
use crate::snapshots::keys::{
    first_spelling, has_key, keyed_rows, lemma_first_spelling, lemma_key_absent, lemma_last_size,
    lower_rows, FolderRow,
};
use crate::snapshots::{kept_folders, sizes, FolderChange, FolderSize, Snapshot, MAX_DIFF_ROWS};
use crate::scan::sums::lemma_sum_congruent;
use crate::text::{lower_case, lower_char};
use vstd::prelude::*;

verus! {

/// The last folder with the key has this size, or none has the key and it is 0.
pub open spec fn holds(rows: Seq<FolderRow>, key: Seq<char>, size: u64) -> bool {
    ||| size == 0 && forall|k: int| 0 <= k < rows.len() ==> (#[trigger] rows[k]).key != key
    ||| exists|k: int| #[trigger]
        is_last(rows, key, k) && rows[k].logical == size
}

/// The last folder with the key stands at `k`.
pub open spec fn is_last(rows: Seq<FolderRow>, key: Seq<char>, k: int) -> bool {
    &&& 0 <= k < rows.len()
    &&& rows[k].key == key
    &&& forall|l: int| k < l < rows.len() ==> (#[trigger] rows[l]).key != key
}

/// The first folder with the key stands at `k`.
pub open spec fn is_first(rows: Seq<FolderRow>, key: Seq<char>, k: int) -> bool {
    &&& 0 <= k < rows.len()
    &&& rows[k].key == key
    &&& forall|l: int| 0 <= l < k ==> (#[trigger] rows[l]).key != key
}

/// No folder has the key.
pub open spec fn lacks(rows: Seq<FolderRow>, key: Seq<char>) -> bool {
    forall|k: int| 0 <= k < rows.len() ==> (#[trigger] rows[k]).key != key
}

/// The path of the first folder after with the key, or else of the first before.
pub open spec fn spelled_as(
    before: Seq<FolderRow>,
    after: Seq<FolderRow>,
    key: Seq<char>,
    path: Seq<char>,
) -> bool {
    ||| exists|k: int| #[trigger] is_first(after, key, k) && after[k].path == path
    ||| lacks(after, key) && exists|k: int| #[trigger]
        is_first(before, key, k) && before[k].path == path
}

/// `delta` is `after` less `before`, up to a multiple of 2^64 where that does not
/// fit in 64 bits.
pub open spec fn is_difference(before: u64, after: u64, delta: i64) -> bool {
    ||| delta == after - before
    ||| delta == after - before + 0x1_0000_0000_0000_0000
    ||| delta == after - before - 0x1_0000_0000_0000_0000
}

/// How much a change of `delta` is, grown or shrunk.
pub open spec fn extent(delta: i64) -> int {
    if delta < 0 {
        0 - delta
    } else {
        delta as int
    }
}

proof fn lemma_size_at(rows: Seq<FolderRow>, key: Seq<char>, size: u64)
    ensures
        holds(rows, key, size) <==> size_at(rows, key) == size,
{
    if lacks(rows, key) {
        assert forall|k: int| !#[trigger] has_key(rows, key, k) by {
            if 0 <= k < rows.len() {
                assert(rows[k].key != key);
            }
        }
        lemma_key_absent(rows, key);
    } else {
        let m = choose|m: int| 0 <= m < rows.len() && (#[trigger] rows[m]).key == key;
        let k = lemma_last(rows, key, m);
        assert forall|l: int| #[trigger] has_key(rows, key, l) implies l <= k by {
            if l > k {
                assert(rows[l].key != key);
            }
        }
        assert(has_key(rows, key, k));
        lemma_last_size(rows, key, k);
        if holds(rows, key, size) {
            let j = choose|j: int| #[trigger] is_last(rows, key, j) && rows[j].logical == size;
            if j < k {
                assert(rows[k].key != key);
            } else if k < j {
                assert(rows[j].key != key);
            }
        }
    }
}

/// A key that a folder has has a last folder.
proof fn lemma_last(rows: Seq<FolderRow>, key: Seq<char>, m: int) -> (k: int)
    requires
        0 <= m < rows.len(),
        rows[m].key == key,
    ensures
        is_last(rows, key, k),
    decreases rows.len() - m,
{
    if exists|l: int| m < l < rows.len() && (#[trigger] rows[l]).key == key {
        let l = choose|l: int| m < l < rows.len() && (#[trigger] rows[l]).key == key;
        lemma_last(rows, key, l)
    } else {
        m
    }
}

/// A key that a folder has has a first folder.
proof fn lemma_first(rows: Seq<FolderRow>, key: Seq<char>, m: int) -> (k: int)
    requires
        0 <= m < rows.len(),
        rows[m].key == key,
    ensures
        is_first(rows, key, k),
    decreases m,
{
    if exists|l: int| 0 <= l < m && (#[trigger] rows[l]).key == key {
        let l = choose|l: int| 0 <= l < m && (#[trigger] rows[l]).key == key;
        lemma_first(rows, key, l)
    } else {
        m
    }
}

proof fn lemma_spelling(before: Seq<FolderRow>, after: Seq<FolderRow>, key: Seq<char>)
    requires
        !lacks(before, key) || !lacks(after, key),
    ensures
        spelled_as(before, after, key, spelling(before, after, key)),
{
    if !lacks(after, key) {
        lemma_first_row(after, key);
    } else {
        assert forall|k: int| !#[trigger] has_key(after, key, k) by {
            if 0 <= k < after.len() {
                assert(after[k].key != key);
            }
        }
        lemma_key_absent(after, key);
        lemma_first_row(before, key);
    }
}

proof fn lemma_first_row(rows: Seq<FolderRow>, key: Seq<char>) -> (k: int)
    requires
        !lacks(rows, key),
    ensures
        is_first(rows, key, k),
        first_spelling(rows, key) == Some(rows[k].path),
{
    let m = choose|m: int| 0 <= m < rows.len() && (#[trigger] rows[m]).key == key;
    let k = lemma_first(rows, key, m);
    assert forall|l: int| #[trigger] has_key(rows, key, l) implies k <= l by {
        if l < k {
            assert(rows[l].key != key);
        }
    }
    assert(has_key(rows, key, k));
    lemma_first_spelling(rows, key, k);
    k
}

/// The difference of two sizes that is reported is their difference, up to a
/// multiple of 2^64.
pub proof fn law_delta_counts_modulo_words(before: u64, after: u64)
    ensures
        is_difference(before, after, delta_of(before, after)),
{
    lemma_as_signed(before);
    lemma_as_signed(after);
}

proof fn lemma_as_signed(n: u64)
    ensures
        n < 0x8000_0000_0000_0000 ==> n as i64 == n,
        n >= 0x8000_0000_0000_0000 ==> n as i64 == n - 0x1_0000_0000_0000_0000,
{
    assert(n >= 0x8000_0000_0000_0000u64 ==> n as i64 == n - 0x1_0000_0000_0000_0000)
        by (bit_vector);
}

/// Two numbers in the signed range that are the difference of the same sizes are
/// equal.
proof fn lemma_one_difference(before: u64, after: u64, d: i64, e: i64)
    requires
        is_difference(before, after, d),
        is_difference(before, after, e),
    ensures
        d == e,
{
}

/// Every reported change is that of one folder: with the sizes that the two sides
/// hold, and the path as it is spelled.
pub proof fn law_reports_say_what_the_sides_hold(
    before: Seq<FolderRow>,
    after: Seq<FolderRow>,
    changes: Seq<FolderChange>,
    limit: int,
    k: int,
) -> (key: Seq<char>)
    requires
        top_changes(before, after, changes, limit),
        0 <= k < changes.len(),
    ensures
        holds(before, key, changes[k].before),
        holds(after, key, changes[k].after),
        changes[k].before != changes[k].after,
        spelled_as(before, after, key, changes[k].path@),
        is_difference(changes[k].before, changes[k].after, changes[k].delta),
{
    let row = changes[k];
    assert(is_change(before, after, row@));
    let key = choose|key: Seq<char>| #[trigger]
        changed(before, after, key) && row@ == change_of(before, after, key);
    assert(row@.before == row.before && row@.after == row.after && row@.delta == row.delta
        && row@.path == row.path@);
    lemma_size_at(before, key, row.before);
    lemma_size_at(after, key, row.after);
    lemma_touched(before, after, key);
    lemma_spelling(before, after, key);
    law_delta_counts_modulo_words(row.before, row.after);
    key
}

/// A key that changed is that of a folder.
proof fn lemma_touched(before: Seq<FolderRow>, after: Seq<FolderRow>, key: Seq<char>)
    requires
        changed(before, after, key),
    ensures
        !lacks(before, key) || !lacks(after, key),
{
    lemma_size_at(before, key, 0);
    lemma_size_at(after, key, 0);
}

/// A larger change is never reported behind a smaller one. Changes that are as
/// large come in the order of their paths.
pub proof fn law_report_is_by_extent(
    before: Seq<FolderRow>,
    after: Seq<FolderRow>,
    changes: Seq<FolderChange>,
    limit: int,
    k: int,
    l: int,
)
    requires
        top_changes(before, after, changes, limit),
        0 <= k < l < changes.len(),
    ensures
        extent(changes[k].delta) >= extent(changes[l].delta),
        extent(changes[k].delta) == extent(changes[l].delta) ==> precedes(
            changes[k].path@,
            changes[l].path@,
        ) || (changes[k].path@ == changes[l].path@ && changes[k].before < changes[l].before),
{
    assert(reported_before(changes[k]@, changes[l]@));
    assert(changes[k]@.delta == changes[k].delta && changes[l]@.delta == changes[l].delta);
    assert(changes[k]@.path == changes[k].path@ && changes[l]@.path == changes[l].path@);
    assert(changes[k]@.before == changes[k].before && changes[l]@.before == changes[l].before);
}

/// A folder whose size differs is reported, unless the report is full and every
/// change in it is at least as large.
pub proof fn law_change_is_reported_or_outdone(
    before: Seq<FolderRow>,
    after: Seq<FolderRow>,
    changes: Seq<FolderChange>,
    limit: int,
    key: Seq<char>,
    was: u64,
    is: u64,
    delta: i64,
)
    requires
        top_changes(before, after, changes, limit),
        holds(before, key, was),
        holds(after, key, is),
        was != is,
        is_difference(was, is, delta),
    ensures
        (exists|k: int|
            0 <= k < changes.len() && (#[trigger] changes[k]).before == was && changes[k].after
                == is && changes[k].delta == delta && spelled_as(
                before,
                after,
                key,
                changes[k].path@,
            )) || (changes.len() == limit && forall|k: int|
            0 <= k < changes.len() ==> extent((#[trigger] changes[k]).delta) >= extent(delta)),
{
    lemma_size_at(before, key, was);
    lemma_size_at(after, key, is);
    assert(changed(before, after, key));
    lemma_touched(before, after, key);
    lemma_spelling(before, after, key);
    law_delta_counts_modulo_words(was, is);
    lemma_one_difference(was, is, delta, delta_of(was, is));
    let change = change_of(before, after, key);
    if reported(changes, change) {
        let k = choose|k: int| 0 <= k < changes.len() && (#[trigger] changes[k])@ == change;
        let row = changes[k];
        assert(row@.before == row.before && row@.after == row.after && row@.delta == row.delta
            && row@.path == row.path@);
        assert(changes[k].before == was);
    } else {
        assert forall|k: int| 0 <= k < changes.len() implies extent((#[trigger] changes[k]).delta)
            >= extent(delta) by {
            assert(reported_before(changes[k]@, change));
            assert(changes[k]@.delta == changes[k].delta);
        }
    }
}

/// A folder is compared under its path in lower case.
pub proof fn law_folders_go_by_lower_case(folders: Seq<FolderSize>, k: int)
    requires
        0 <= k < folders.len(),
    ensures
        lower_rows(folders).len() == folders.len(),
        lower_rows(folders)[k].key == lower_case(folders[k].path@),
        lower_rows(folders)[k].path == folders[k].path@,
        lower_rows(folders)[k].logical == folders[k].logical,
{
}

/// Lower case is taken character by character: that of two texts in a row is that
/// of the one and then that of the other.
pub proof fn law_lower_case_is_by_character(a: Seq<char>, b: Seq<char>, c: char)
    ensures
        lower_case(a + b) == lower_case(a) + lower_case(b),
        lower_case(seq![c]) == lower_char(c),
        lower_case(Seq::empty()) == Seq::<char>::empty(),
    decreases b.len(),
{
    assert(seq![c].drop_last() =~= Seq::<char>::empty());
    assert(lower_case(Seq::empty()) =~= Seq::<char>::empty());
    assert(lower_case(seq![c]) =~= lower_char(c));
    if b.len() == 0 {
        assert(a + b =~= a);
        assert(lower_case(a) + lower_case(b) =~= lower_case(a));
    } else {
        law_lower_case_is_by_character(a, b.drop_last(), c);
        assert((a + b).drop_last() =~= a + b.drop_last());
        assert(lower_case(a + b) =~= lower_case(a) + lower_case(b));
    }
}

/// A text comes before another where, at the first place at which they differ, it
/// has the smaller character or has ended.
pub proof fn law_order_goes_by_first_difference(a: Seq<char>, b: Seq<char>, k: int)
    requires
        0 <= k <= a.len(),
        k < b.len(),
        forall|j: int| 0 <= j < k ==> a[j] == b[j],
        k < a.len() ==> a[k] != b[k],
    ensures
        precedes(a, b) <==> k == a.len() || a[k] < b[k],
        !precedes(a, a),
    decreases a.len(),
{
    lemma_precedes_total(a, a);
    if k > 0 {
        assert forall|j: int| 0 <= j < k - 1 implies a.skip(1)[j] == b.skip(1)[j] by {
            assert(a[j + 1] == b[j + 1]);
        }
        law_order_goes_by_first_difference(a.skip(1), b.skip(1), k - 1);
        assert(a[0] == b[0]);
    }
}

/// A built snapshot holds its folders in the order in which they were given: there
/// is a place for each, and the places ascend.
pub proof fn law_build_keeps_the_order(pairs: Seq<(String, u64)>) -> (places: Seq<int>)
    ensures
        places.len() == kept_folders(pairs).len(),
        forall|k: int|
            0 <= k < places.len() ==> 0 <= #[trigger] places[k] < pairs.len() && kept_folders(
                pairs,
            )[k].path == pairs[places[k]].0 && kept_folders(pairs)[k].logical
                == pairs[places[k]].1,
        forall|k: int, l: int|
            0 <= k < l < places.len() ==> #[trigger] places[k] < #[trigger] places[l],
        forall|j: int|
            0 <= j < pairs.len() && (#[trigger] pairs[j]).1 >= 1048576 ==> places.contains(j),
        forall|k: int| 0 <= k < places.len() ==> pairs[#[trigger] places[k]].1 >= 1048576,
    decreases pairs.len(),
{
    reveal(Seq::filter);
    let kept = kept_folders(pairs);
    if pairs.len() == 0 {
        assert(kept =~= Seq::empty());
        Seq::empty()
    } else {
        let front = pairs.drop_last();
        let last = pairs.last();
        let held = law_build_keeps_the_order(front);
        let kept_front = kept_folders(front);
        if last.1 >= 1048576 {
            let places = held.push(pairs.len() - 1);
            assert(kept =~= kept_front.push(FolderSize { path: last.0, logical: last.1 }));
            assert forall|j: int|
                0 <= j < pairs.len() && (#[trigger] pairs[j]).1
                    >= 1048576 implies places.contains(j) by {
                if j < front.len() {
                    assert(front[j].1 >= 1048576);
                    let k = choose|k: int| 0 <= k < held.len() && held[k] == j;
                    assert(places[k] == j);
                } else {
                    assert(places[held.len() as int] == j);
                }
            }
            places
        } else {
            assert(kept =~= kept_front);
            assert forall|j: int|
                0 <= j < pairs.len() && (#[trigger] pairs[j]).1
                    >= 1048576 implies held.contains(j) by {
                assert(front[j].1 >= 1048576);
            }
            held
        }
    }
}

/// Adding a folder adds its size to the total, as far as a total can grow.
pub proof fn law_total_adds_up(shorter: Snapshot, longer: Snapshot)
    requires
        longer.folders@.len() > 0,
        shorter.folders@ == longer.folders@.drop_last(),
    ensures
        longer.spec_total() == if shorter.spec_total() + longer.folders@.last().logical
            <= u64::MAX {
            shorter.spec_total() + longer.folders@.last().logical
        } else {
            u64::MAX as int
        },
{
    let n = longer.folders@.len() as int;
    let f = sizes(shorter.folders@);
    let g = sizes(longer.folders@);
    assert forall|k: int| 0 <= k < n - 1 implies #[trigger] f(k) == g(k) by {
        assert(shorter.folders@[k] == longer.folders@[k]);
    }
    lemma_sum_congruent(f, g, 0, n - 1);
}

/// Without folders there is nothing in total.
pub proof fn law_nothing_totals_zero(s: Snapshot)
    requires
        s.folders@.len() == 0,
    ensures
        s.spec_total() == 0,
{
}

/// A folder is compared under the key that it is given.
pub proof fn law_folders_go_by_their_keys(folders: Seq<FolderSize>, keys: Seq<Vec<char>>, k: int)
    requires
        0 <= k < folders.len(),
    ensures
        keyed_rows(folders, keys).len() == folders.len(),
        keyed_rows(folders, keys)[k].key == keys[k]@,
        keyed_rows(folders, keys)[k].path == folders[k].path@,
        keyed_rows(folders, keys)[k].logical == folders[k].logical,
{
}

/// A report is full at two hundred changes: it holds no more, and one that holds
/// fewer lacks no folder whose size differs.
pub proof fn law_report_is_full_at_two_hundred(
    before: Seq<FolderRow>,
    after: Seq<FolderRow>,
    changes: Seq<FolderChange>,
    key: Seq<char>,
    was: u64,
    is: u64,
)
    requires
        top_changes(before, after, changes, MAX_DIFF_ROWS as int),
        holds(before, key, was),
        holds(after, key, is),
        was != is,
    ensures
        changes.len() <= 200,
        changes.len() < 200 ==> exists|k: int|
            0 <= k < changes.len() && (#[trigger] changes[k]).before == was && changes[k].after
                == is && spelled_as(before, after, key, changes[k].path@),
{
    law_delta_counts_modulo_words(was, is);
    law_change_is_reported_or_outdone(
        before,
        after,
        changes,
        MAX_DIFF_ROWS as int,
        key,
        was,
        is,
        delta_of(was, is),
    );
}

/// No change is reported twice.
pub proof fn law_no_change_is_reported_twice(
    before: Seq<FolderRow>,
    after: Seq<FolderRow>,
    changes: Seq<FolderChange>,
    limit: int,
    k: int,
    l: int,
)
    requires
        top_changes(before, after, changes, limit),
        0 <= k < l < changes.len(),
    ensures
        changes[k].path@ != changes[l].path@ || changes[k].before != changes[l].before
            || changes[k].delta != changes[l].delta,
{
    law_report_is_by_extent(before, after, changes, limit, k, l);
    if changes[k].path@ == changes[l].path@ {
        lemma_precedes_total(changes[k].path@, changes[k].path@);
    }
}

} // verus!
