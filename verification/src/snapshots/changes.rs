//! Comparing two snapshots.

use crate::lexical::{
    chars_of, comes_before, lemma_precedes_total, lemma_precedes_transitive, precedes, same_chars,
};
use crate::snapshots::keys::{
    entry_holds, first_spelling, has_key, is_key_map, keyed, keyed_rows, last_size,
    lemma_key_absent, lemma_key_present, lower_rows, FolderRow, KeyEntry, SnapshotKeys,
};
use crate::snapshots::{FolderChange, Snapshot, SnapshotDiff, MAX_DIFF_ROWS};
use crate::sorting::{ranked, sort, Ranked};
use crate::text::lower_case;
use vstd::prelude::*;
use vstd::seq_lib::group_to_multiset_ensures;

verus! {

/// What a change says.
pub struct ChangeView {
    /// Path as reported.
    pub path: Seq<char>,
    /// Size before.
    pub before: u64,
    /// Size after.
    pub after: u64,
    /// What came on top.
    pub delta: i64,
}

impl View for FolderChange {
    type V = ChangeView;

    open spec fn view(&self) -> ChangeView {
        ChangeView {
            path: self.path@,
            before: self.before,
            after: self.after,
            delta: self.delta,
        }
    }
}

/// The size of a folder; 0 where it is missing.
pub open spec fn size_at(folders: Seq<FolderRow>, key: Seq<char>) -> u64 {
    match last_size(folders, key) {
        Some(size) => size,
        None => 0,
    }
}

/// The folder with this key changed its size.
pub open spec fn changed(before: Seq<FolderRow>, after: Seq<FolderRow>, key: Seq<char>) -> bool {
    size_at(before, key) != size_at(after, key)
}

/// The path under which a key is reported: as spelled after, or else before.
pub open spec fn spelling(
    before: Seq<FolderRow>,
    after: Seq<FolderRow>,
    key: Seq<char>,
) -> Seq<char> {
    match first_spelling(after, key) {
        Some(path) => path,
        None => match first_spelling(before, key) {
            Some(path) => path,
            None => key,
        },
    }
}

/// The difference of two sizes as a signed number, wrapped where it is too
/// large for one.
pub open spec fn delta_of(before: u64, after: u64) -> i64 {
    (after as i64).wrapping_sub(before as i64)
}

/// The change of the folder with this key.
pub open spec fn change_of(
    before: Seq<FolderRow>,
    after: Seq<FolderRow>,
    key: Seq<char>,
) -> ChangeView {
    ChangeView {
        path: spelling(before, after, key),
        before: size_at(before, key),
        after: size_at(after, key),
        delta: delta_of(size_at(before, key), size_at(after, key)),
    }
}

/// The size of a change.
pub open spec fn magnitude(delta: i64) -> int {
    if delta < 0 {
        -delta
    } else {
        delta as int
    }
}

/// `x` is reported before `y`: larger changes first, then by path, then by the
/// size before.
pub open spec fn reported_before(x: ChangeView, y: ChangeView) -> bool {
    ||| magnitude(x.delta) > magnitude(y.delta)
    ||| magnitude(x.delta) == magnitude(y.delta) && precedes(x.path, y.path)
    ||| magnitude(x.delta) == magnitude(y.delta) && x.path == y.path && x.before < y.before
}

/// The change is that of a key.
pub open spec fn is_change(
    before: Seq<FolderRow>,
    after: Seq<FolderRow>,
    change: ChangeView,
) -> bool {
    exists|key: Seq<char>| #[trigger]
        changed(before, after, key) && change == change_of(before, after, key)
}

/// One of the rows has this path and this key.
pub open spec fn spells(rows: Seq<FolderRow>, path: Seq<char>, key: Seq<char>) -> bool {
    exists|k: int|
        0 <= k < rows.len() && (#[trigger] rows[k]).path == path && rows[k].key == key
}

/// A row before or after has this path and this key.
pub open spec fn keyed_as(
    before: Seq<FolderRow>,
    after: Seq<FolderRow>,
    path: Seq<char>,
    key: Seq<char>,
) -> bool {
    spells(before, path, key) || spells(after, path, key)
}

/// One path does not have two keys.
pub open spec fn one_key_per_path(before: Seq<FolderRow>, after: Seq<FolderRow>) -> bool {
    forall|path: Seq<char>, x: Seq<char>, y: Seq<char>| #[trigger]
        keyed_as(before, after, path, x) && #[trigger] keyed_as(before, after, path, y) ==> x == y
}

/// One of the changes is this one.
pub open spec fn reported(changes: Seq<FolderChange>, change: ChangeView) -> bool {
    exists|k: int| 0 <= k < changes.len() && (#[trigger] changes[k])@ == change
}

/// `changes` are the first of all changes in the order of the report, no more
/// than `limit` of them.
pub open spec fn top_changes(
    before: Seq<FolderRow>,
    after: Seq<FolderRow>,
    changes: Seq<FolderChange>,
    limit: int,
) -> bool {
    &&& changes.len() <= limit
    &&& forall|k: int|
        0 <= k < changes.len() ==> is_change(before, after, (#[trigger] changes[k])@)
    &&& forall|k: int, l: int|
        0 <= k < l < changes.len() ==> reported_before(
            (#[trigger] changes[k])@,
            (#[trigger] changes[l])@,
        )
    &&& forall|key: Seq<char>| #[trigger]
        changed(before, after, key) && !reported(changes, change_of(before, after, key)) ==> {
            &&& changes.len() == limit
            &&& forall|k: int|
                0 <= k < changes.len() ==> reported_before(
                    (#[trigger] changes[k])@,
                    change_of(before, after, key),
                )
        }
}

/// A key that changed is spelled as one of its rows is.
pub proof fn lemma_spelling_keyed(before: Seq<FolderRow>, after: Seq<FolderRow>, key: Seq<char>)
    requires
        changed(before, after, key),
    ensures
        keyed_as(before, after, spelling(before, after, key), key),
{
    lemma_first_spelling_keyed(after, key);
    lemma_first_spelling_keyed(before, key);
    if first_spelling(after, key) is None && first_spelling(before, key) is None {
        if last_size(after, key) is Some {
            lemma_key_present(after, key);
            lemma_spelled(after, key);
        } else {
            lemma_key_present(before, key);
            lemma_spelled(before, key);
        }
    }
}

proof fn lemma_first_spelling_keyed(folders: Seq<FolderRow>, key: Seq<char>)
    ensures
        first_spelling(folders, key) matches Some(path) ==> spells(folders, path, key),
    decreases folders.len(),
{
    if folders.len() > 0 {
        let front = folders.drop_last();
        lemma_first_spelling_keyed(front, key);
        match first_spelling(front, key) {
            Some(path) => {
                let k = choose|k: int|
                    0 <= k < front.len() && (#[trigger] front[k]).path == path && front[k].key == key;
                assert(folders[k] == front[k]);
            },
            None => {
                assert(folders[folders.len() - 1] == folders.last());
            },
        }
    }
}

proof fn lemma_spelled(folders: Seq<FolderRow>, key: Seq<char>)
    requires
        exists|k: int| #[trigger] has_key(folders, key, k),
    ensures
        first_spelling(folders, key) is Some,
    decreases folders.len(),
{
    let k = choose|k: int| #[trigger] has_key(folders, key, k);
    if k < folders.len() - 1 {
        assert(has_key(folders.drop_last(), key, k));
        lemma_spelled(folders.drop_last(), key);
    }
}

/// A change with the characters of its path.
pub struct ChangeRow {
    /// The change.
    pub change: FolderChange,
    /// The characters of its path.
    pub path: Vec<char>,
    /// The key that changed.
    pub key: Ghost<Seq<char>>,
}

impl ChangeRow {
    /// The characters are those of the path.
    pub open spec fn spelled(&self) -> bool {
        self.path@ == self.change.path@
    }
}

impl Ranked for ChangeRow {
    open spec fn at_most(self, other: Self) -> bool {
        let x = ChangeView { path: self.path@, ..self.change@ };
        let y = ChangeView { path: other.path@, ..other.change@ };
        reported_before(x, y) || (magnitude(x.delta) == magnitude(y.delta) && x.path == y.path
            && x.before == y.before)
    }

    proof fn at_most_total(a: Self, b: Self) {
        lemma_precedes_total(a.path@, b.path@);
    }

    proof fn at_most_transitive(a: Self, b: Self, c: Self) {
        if precedes(a.path@, b.path@) && precedes(b.path@, c.path@) {
            lemma_precedes_transitive(a.path@, b.path@, c.path@);
        }
    }

    fn may_precede(&self, other: &Self) -> (first: bool) {
        let x: u64 = magnitude_of(self.change.delta);
        let y: u64 = magnitude_of(other.change.delta);
        if x != y {
            x > y
        } else if same_chars(&self.path, &other.path) {
            proof {
                lemma_precedes_total(self.path@, other.path@);
            }
            self.change.before <= other.change.before
        } else {
            comes_before(&self.path, &other.path)
        }
    }
}

/// The size of a change.
fn magnitude_of(delta: i64) -> (size: u64)
    ensures
        size == magnitude(delta),
{
    if delta >= 0 {
        delta as u64
    } else {
        let less_one: i64 = -(delta + 1);
        less_one as u64 + 1
    }
}

/// A change of the folder with this key, spelled as in `path`.
fn change_row(path: &String, before: u64, after: u64, key: Ghost<Seq<char>>) -> (row: ChangeRow)
    ensures
        row.spelled(),
        row.key == key,
        row.change@ == (ChangeView { path: path@, before, after, delta: delta_of(before, after) }),
{
    let delta: i64 = (after as i64).wrapping_sub(before as i64);
    ChangeRow {
        path: chars_of(path.as_str()),
        change: FolderChange { path: path.clone(), before, after, delta },
        key,
    }
}

/// The keys that both lists of entries are done with: those before the entries
/// that are next.
spec fn passed(entries: Seq<KeyEntry>, at: int, key: Seq<char>) -> bool {
    at < entries.len() ==> precedes(key, entries[at].key@)
}

/// `rows` are the changes of the keys that both lists are done with.
spec fn collected(
    before: Seq<FolderRow>,
    after: Seq<FolderRow>,
    b: Seq<KeyEntry>,
    i: int,
    a: Seq<KeyEntry>,
    j: int,
    rows: Seq<ChangeRow>,
) -> bool {
    &&& forall|n: int|
        0 <= n < rows.len() ==> {
            let key = (#[trigger] rows[n]).key@;
            &&& rows[n].spelled()
            &&& changed(before, after, key)
            &&& rows[n].change@ == change_of(before, after, key)
            &&& passed(b, i, key)
            &&& passed(a, j, key)
        }
    &&& forall|m: int, n: int|
        0 <= m < n < rows.len() ==> (#[trigger] rows[m]).key@ != (#[trigger] rows[n]).key@
    &&& forall|key: Seq<char>| #[trigger]
        changed(before, after, key) && passed(b, i, key) && passed(a, j, key) ==> exists|n: int|
            0 <= n < rows.len() && (#[trigger] rows[n]).change@ == change_of(before, after, key)
}

/// A key without an entry is not among the folders.
proof fn lemma_no_entry(folders: Seq<FolderRow>, entries: Seq<KeyEntry>, key: Seq<char>)
    requires
        is_key_map(folders, entries),
        !keyed(entries, key),
    ensures
        last_size(folders, key) is None,
        first_spelling(folders, key) is None,
{
    assert forall|k: int| !#[trigger] has_key(folders, key, k) by {
        if has_key(folders, key, k) {
            assert(keyed(entries, folders[k].key));
        }
    }
    lemma_key_absent(folders, key);
}

/// A key before the next entry and behind the last one has no entry.
proof fn lemma_between(entries: Seq<KeyEntry>, folders: Seq<FolderRow>, at: int, key: Seq<char>)
    requires
        is_key_map(folders, entries),
        0 <= at <= entries.len(),
        at > 0 ==> precedes(entries[at - 1].key@, key),
        passed(entries, at, key),
    ensures
        !keyed(entries, key),
{
    if keyed(entries, key) {
        let i = choose|i: int| 0 <= i < entries.len() && (#[trigger] entries[i]).key@ == key;
        lemma_precedes_total(key, key);
        if i < at {
            if i < at - 1 {
                assert(precedes(entries[i].key@, entries[at - 1].key@));
                lemma_precedes_transitive(key, entries[at - 1].key@, key);
            }
        } else if i > at {
            assert(precedes(entries[at].key@, entries[i].key@));
            lemma_precedes_transitive(key, entries[at].key@, key);
        }
    }
}

/// The key that is next: that of the smaller of the two next entries.
spec fn is_next(b: Seq<KeyEntry>, i: int, a: Seq<KeyEntry>, j: int, key: Seq<char>) -> bool {
    &&& i < b.len() ==> b[i].key@ == key || precedes(key, b[i].key@)
    &&& j < a.len() ==> a[j].key@ == key || precedes(key, a[j].key@)
    &&& (i < b.len() && b[i].key@ == key) || (j < a.len() && a[j].key@ == key)
}

/// The position behind the next key.
spec fn behind(entries: Seq<KeyEntry>, at: int, key: Seq<char>) -> int {
    if at < entries.len() && entries[at].key@ == key {
        at + 1
    } else {
        at
    }
}

/// Every key that is not done yet is the next one or comes after it.
proof fn lemma_passed_step(
    folders: Seq<FolderRow>,
    entries: Seq<KeyEntry>,
    at: int,
    key: Seq<char>,
    other: Seq<char>,
)
    requires
        is_key_map(folders, entries),
        0 <= at <= entries.len(),
        at < entries.len() ==> entries[at].key@ == key || precedes(key, entries[at].key@),
    ensures
        passed(entries, at, other) && precedes(other, key) ==> passed(
            entries,
            behind(entries, at, key),
            other,
        ),
        passed(entries, behind(entries, at, key), key),
        precedes(other, key) ==> passed(entries, at, other),
{
    if at < entries.len() && entries[at].key@ == key && at + 1 < entries.len() {
        assert(precedes(entries[at].key@, entries[at + 1].key@));
        if precedes(other, key) {
            lemma_precedes_transitive(other, key, entries[at + 1].key@);
        }
    }
    if precedes(other, key) && at < entries.len() && precedes(key, entries[at].key@) {
        lemma_precedes_transitive(other, key, entries[at].key@);
    }
}

/// What both lists say of the next key.
proof fn lemma_next_key(
    folders: Seq<FolderRow>,
    entries: Seq<KeyEntry>,
    at: int,
    key: Seq<char>,
)
    requires
        is_key_map(folders, entries),
        0 <= at <= entries.len(),
        at > 0 ==> precedes(entries[at - 1].key@, key),
        at < entries.len() ==> entries[at].key@ == key || precedes(key, entries[at].key@),
    ensures
        at < entries.len() && entries[at].key@ == key ==> last_size(folders, key) == Some(
            entries[at].size,
        ) && first_spelling(folders, key) == Some(folders[entries[at].row as int].path),
        !(at < entries.len() && entries[at].key@ == key) ==> last_size(folders, key) is None
            && first_spelling(folders, key) is None,
{
    if at < entries.len() && entries[at].key@ == key {
        assert(entry_holds(folders, entries[at]));
    } else {
        lemma_between(entries, folders, at, key);
        lemma_no_entry(folders, entries, key);
    }
}

/// With the next key done, the changes of one more key are collected.
proof fn lemma_collect(
    before: Seq<FolderRow>,
    after: Seq<FolderRow>,
    b: Seq<KeyEntry>,
    i: int,
    a: Seq<KeyEntry>,
    j: int,
    key: Seq<char>,
    rows: Seq<ChangeRow>,
    more: Seq<ChangeRow>,
)
    requires
        is_key_map(before, b),
        is_key_map(after, a),
        0 <= i <= b.len(),
        0 <= j <= a.len(),
        is_next(b, i, a, j, key),
        i > 0 ==> precedes(b[i - 1].key@, key),
        j > 0 ==> precedes(a[j - 1].key@, key),
        collected(before, after, b, i, a, j, rows),
        if changed(before, after, key) {
            &&& more.len() == rows.len() + 1
            &&& more.drop_last() == rows
            &&& more.last().spelled()
            &&& more.last().key@ == key
            &&& more.last().change@ == change_of(before, after, key)
        } else {
            more == rows
        },
    ensures
        collected(before, after, b, behind(b, i, key), a, behind(a, j, key), more),
{
    let i2 = behind(b, i, key);
    let j2 = behind(a, j, key);
    if changed(before, after, key) {
        assert(more.last() == more[rows.len() as int]);
        assert forall|n: int| 0 <= n < rows.len() implies more[n] == rows[n] by {
            assert(more.drop_last()[n] == rows[n]);
        }
    }
    lemma_passed_step(before, b, i, key, key);
    lemma_passed_step(after, a, j, key, key);
    assert forall|n: int| 0 <= n < more.len() implies {
        let k = (#[trigger] more[n]).key@;
        &&& more[n].spelled()
        &&& changed(before, after, k)
        &&& more[n].change@ == change_of(before, after, k)
        &&& passed(b, i2, k)
        &&& passed(a, j2, k)
    } by {
        if n < rows.len() {
            let k = rows[n].key@;
            assert(more[n] == rows[n]);
            lemma_next_above(b, i, a, j, key, k);
            lemma_passed_step(before, b, i, key, k);
            lemma_passed_step(after, a, j, key, k);
        } else {
            assert(more[n].change.path@ == more[n].change@.path);
        }
    }
    assert forall|m: int, n: int| 0 <= m < n < more.len() implies (#[trigger] more[m]).key@ != (#[trigger] more[n]).key@ by {
        if n == rows.len() {
            let k = rows[m].key@;
            assert(more[m] == rows[m]);
            assert(more[n].change.path@ == more[n].change@.path);
            lemma_next_above(b, i, a, j, key, k);
            lemma_precedes_total(key, key);
        } else {
            assert(more[m] == rows[m] && more[n] == rows[n]);
        }
    }
    assert forall|k: Seq<char>| #[trigger]
        changed(before, after, k) && passed(b, i2, k) && passed(a, j2, k) implies exists|n: int|
        0 <= n < more.len() && (#[trigger] more[n]).change@ == change_of(before, after, k) by {
        if k == key {
            assert(more[rows.len() as int].change@ == change_of(before, after, k));
        } else {
            lemma_precedes_total(k, key);
            if precedes(k, key) {
                lemma_passed_step(before, b, i, key, k);
                lemma_passed_step(after, a, j, key, k);
                let n = choose|n: int|
                    0 <= n < rows.len() && (#[trigger] rows[n]).change@ == change_of(
                        before,
                        after,
                        k,
                    );
                assert(more[n] == rows[n]);
            } else {
                lemma_gap(before, b, i, key, k);
                lemma_gap(after, a, j, key, k);
            }
        }
    }
}

/// A key between the next one and the one after it has no entry.
proof fn lemma_gap(
    folders: Seq<FolderRow>,
    entries: Seq<KeyEntry>,
    at: int,
    key: Seq<char>,
    k: Seq<char>,
)
    requires
        is_key_map(folders, entries),
        0 <= at <= entries.len(),
        at < entries.len() ==> entries[at].key@ == key || precedes(key, entries[at].key@),
        precedes(key, k),
        passed(entries, behind(entries, at, key), k),
        at > 0 ==> precedes(entries[at - 1].key@, key),
    ensures
        last_size(folders, k) is None,
{
    let at2 = behind(entries, at, key);
    if at2 > at {
        assert(entries[at2 - 1].key@ == key);
    } else if at > 0 {
        lemma_precedes_transitive(entries[at - 1].key@, key, k);
    }
    lemma_between(entries, folders, at2, k);
    lemma_no_entry(folders, entries, k);
}

/// A key that both lists are done with comes before the next one.
proof fn lemma_next_above(
    b: Seq<KeyEntry>,
    i: int,
    a: Seq<KeyEntry>,
    j: int,
    key: Seq<char>,
    k: Seq<char>,
)
    requires
        0 <= i <= b.len(),
        0 <= j <= a.len(),
        is_next(b, i, a, j, key),
        passed(b, i, k),
        passed(a, j, k),
    ensures
        precedes(k, key),
{
}

/// Neither list is ahead of the other: what one is done with comes before what
/// is next in the other.
spec fn abreast(b: Seq<KeyEntry>, i: int, a: Seq<KeyEntry>, j: int) -> bool {
    &&& i > 0 ==> passed(b, i, b[i - 1].key@) && passed(a, j, b[i - 1].key@)
    &&& j > 0 ==> passed(b, i, a[j - 1].key@) && passed(a, j, a[j - 1].key@)
}

proof fn lemma_abreast(
    before: Seq<FolderRow>,
    after: Seq<FolderRow>,
    b: Seq<KeyEntry>,
    i: int,
    a: Seq<KeyEntry>,
    j: int,
    key: Seq<char>,
)
    requires
        is_key_map(before, b),
        is_key_map(after, a),
        0 <= i <= b.len(),
        0 <= j <= a.len(),
        is_next(b, i, a, j, key),
        abreast(b, i, a, j),
    ensures
        i > 0 ==> precedes(b[i - 1].key@, key),
        j > 0 ==> precedes(a[j - 1].key@, key),
        abreast(b, behind(b, i, key), a, behind(a, j, key)),
{
    lemma_passed_step(before, b, i, key, key);
    lemma_passed_step(after, a, j, key, key);
    if i > 0 {
        lemma_next_above(b, i, a, j, key, b[i - 1].key@);
        lemma_passed_step(before, b, i, key, b[i - 1].key@);
        lemma_passed_step(after, a, j, key, b[i - 1].key@);
    }
    if j > 0 {
        lemma_next_above(b, i, a, j, key, a[j - 1].key@);
        lemma_passed_step(before, b, i, key, a[j - 1].key@);
        lemma_passed_step(after, a, j, key, a[j - 1].key@);
    }
}

/// All changes, in no particular order.
spec fn all_changes(
    before: Seq<FolderRow>,
    after: Seq<FolderRow>,
    rows: Seq<ChangeRow>,
) -> bool {
    collected(before, after, Seq::empty(), 0, Seq::empty(), 0, rows)
}

/// Collect the changes of all keys.
fn changed_rows(
    before: &Snapshot,
    before_keys: &SnapshotKeys,
    after: &Snapshot,
    after_keys: &SnapshotKeys,
) -> (rows: Vec<ChangeRow>)
    requires
        before_keys.folders@.len() == before.folders@.len(),
        after_keys.folders@.len() == after.folders@.len(),
    ensures
        all_changes(
            keyed_rows(before.folders@, before_keys.folders@),
            keyed_rows(after.folders@, after_keys.folders@),
            rows@,
        ),
{
    let b: Vec<KeyEntry> = before.key_map(before_keys);
    let a: Vec<KeyEntry> = after.key_map(after_keys);
    let ghost bf = keyed_rows(before.folders@, before_keys.folders@);
    let ghost af = keyed_rows(after.folders@, after_keys.folders@);
    let mut rows: Vec<ChangeRow> = Vec::new();
    let mut i: usize = 0;
    let mut j: usize = 0;
    proof {
        assert forall|key: Seq<char>| #[trigger]
            changed(bf, af, key) && passed(b@, 0, key) && passed(a@, 0, key) implies exists|n: int|
            0 <= n < rows@.len() && (#[trigger] rows@[n]).change@ == change_of(bf, af, key) by {
            lemma_between(b@, bf, 0, key);
            lemma_no_entry(bf, b@, key);
            lemma_between(a@, af, 0, key);
            lemma_no_entry(af, a@, key);
        }
    }
    while i < b.len() || j < a.len()
        invariant
            bf == keyed_rows(before.folders@, before_keys.folders@),
            af == keyed_rows(after.folders@, after_keys.folders@),
            is_key_map(bf, b@),
            is_key_map(af, a@),
            i <= b@.len(),
            j <= a@.len(),
            abreast(b@, i as int, a@, j as int),
            collected(bf, af, b@, i as int, a@, j as int, rows@),
        decreases b@.len() - i + a@.len() - j,
    {
        let in_before: bool = i < b.len() && (j >= a.len() || !comes_before(&a[j].key, &b[i].key));
        let in_after: bool = j < a.len() && (i >= b.len() || !comes_before(&b[i].key, &a[j].key));
        let ghost key = if in_before {
            b@[i as int].key@
        } else {
            a@[j as int].key@
        };
        proof {
            if i < b@.len() && j < a@.len() {
                lemma_precedes_total(a@[j as int].key@, b@[i as int].key@);
            }
            assert(is_next(b@, i as int, a@, j as int, key));
            lemma_abreast(bf, af, b@, i as int, a@, j as int, key);
            lemma_next_key(bf, b@, i as int, key);
            lemma_next_key(af, a@, j as int, key);
            if i < b@.len() {
                assert(entry_holds(bf, b@[i as int]));
            }
            if j < a@.len() {
                assert(entry_holds(af, a@[j as int]));
            }
        }
        let size_before: u64 = if in_before {
            b[i].size
        } else {
            0
        };
        let size_after: u64 = if in_after {
            a[j].size
        } else {
            0
        };
        let ghost held = rows@;
        if size_before != size_after {
            let path: &String = if in_after {
                &after.folders[a[j].row].path
            } else {
                &before.folders[b[i].row].path
            };
            rows.push(change_row(path, size_before, size_after, Ghost(key)));
            assert(rows@.drop_last() =~= held);
        }
        proof {
            lemma_collect(bf, af, b@, i as int, a@, j as int, key, held, rows@);
            if i < b@.len() && j < a@.len() {
                lemma_precedes_total(key, key);
            }
        }
        if in_before {
            i = i + 1;
        }
        if in_after {
            j = j + 1;
        }
    }
    proof {
        assert forall|n: int| 0 <= n < rows@.len() implies {
            let key = (#[trigger] rows@[n]).key@;
            &&& rows@[n].spelled()
            &&& changed(bf, af, key)
            &&& rows@[n].change@ == change_of(bf, af, key)
        } by {}
    }
    rows
}

/// Sorting keeps every row, and rows stay those of different keys.
proof fn lemma_sorted_rows(
    before: Seq<FolderRow>,
    after: Seq<FolderRow>,
    rows: Seq<ChangeRow>,
    sorted: Seq<ChangeRow>,
)
    requires
        all_changes(before, after, rows),
        one_key_per_path(before, after),
        ranked(sorted),
        sorted.to_multiset() == rows.to_multiset(),
    ensures
        all_changes(before, after, sorted),
        forall|k: int, l: int|
            0 <= k < l < sorted.len() ==> reported_before(
                (#[trigger] sorted[k]).change@,
                (#[trigger] sorted[l]).change@,
            ),
{
    broadcast use group_to_multiset_ensures;

    assert forall|x: ChangeRow| #[trigger] sorted.contains(x) <==> rows.contains(x) by {
        vstd::seq_lib::to_multiset_contains(sorted, x);
        vstd::seq_lib::to_multiset_contains(rows, x);
    }
    assert(rows.no_duplicates()) by {
        assert forall|m: int, n: int|
            0 <= m < rows.len() && 0 <= n < rows.len() && m != n implies rows[m] != rows[n] by {
            if m < n {
                assert(rows[m].key@ != rows[n].key@);
            } else {
                assert(rows[n].key@ != rows[m].key@);
            }
        }
    }
    rows.lemma_multiset_has_no_duplicates();
    sorted.lemma_multiset_has_no_duplicates_conv();
    assert forall|n: int| 0 <= n < sorted.len() implies rows.contains(#[trigger] sorted[n]) by {
        assert(sorted.contains(sorted[n]));
    }
    assert forall|n: int| 0 <= n < sorted.len() implies {
        let key = (#[trigger] sorted[n]).key@;
        &&& sorted[n].spelled()
        &&& changed(before, after, key)
        &&& sorted[n].change@ == change_of(before, after, key)
    } by {
        assert(rows.contains(sorted[n]));
        let k = choose|k: int| 0 <= k < rows.len() && rows[k] == sorted[n];
        assert(rows[k].spelled());
    }
    assert forall|m: int, n: int| 0 <= m < n < sorted.len() implies (#[trigger] sorted[m]).key@ != (#[trigger] sorted[n]).key@ by {
        assert(rows.contains(sorted[m]) && rows.contains(sorted[n]));
        let k = choose|k: int| 0 <= k < rows.len() && rows[k] == sorted[m];
        let l = choose|l: int| 0 <= l < rows.len() && rows[l] == sorted[n];
        assert(sorted[m] != sorted[n]);
        if k < l {
            assert(rows[k].key@ != rows[l].key@);
        } else {
            assert(rows[l].key@ != rows[k].key@);
        }
    }
    assert forall|key: Seq<char>| #[trigger]
        changed(before, after, key) implies exists|n: int|
        0 <= n < sorted.len() && (#[trigger] sorted[n]).change@ == change_of(
            before,
            after,
            key,
        ) by {
        assert(passed(Seq::<KeyEntry>::empty(), 0, key));
        let k = choose|k: int|
            0 <= k < rows.len() && (#[trigger] rows[k]).change@ == change_of(before, after, key);
        assert(rows.contains(rows[k]));
        assert(sorted.contains(rows[k]));
        let n = choose|n: int| 0 <= n < sorted.len() && sorted[n] == rows[k];
        assert(sorted[n].change@ == change_of(before, after, key));
    }
    assert forall|k: int, l: int| 0 <= k < l < sorted.len() implies reported_before(
        (#[trigger] sorted[k]).change@,
        (#[trigger] sorted[l]).change@,
    ) by {
        assert(sorted[k].at_most(sorted[l]));
        assert(sorted[k].spelled() && sorted[l].spelled());
        assert(sorted[k].key@ != sorted[l].key@);
        lemma_spelling_keyed(before, after, sorted[k].key@);
        lemma_spelling_keyed(before, after, sorted[l].key@);
        assert(sorted[k].change@.path != sorted[l].change@.path);
    }
}

/// The largest changes, largest first.
fn largest_changes(
    before: &Snapshot,
    before_keys: &SnapshotKeys,
    after: &Snapshot,
    after_keys: &SnapshotKeys,
) -> (changes: Vec<FolderChange>)
    requires
        before_keys.folders@.len() == before.folders@.len(),
        after_keys.folders@.len() == after.folders@.len(),
        one_key_per_path(
            keyed_rows(before.folders@, before_keys.folders@),
            keyed_rows(after.folders@, after_keys.folders@),
        ),
    ensures
        top_changes(
            keyed_rows(before.folders@, before_keys.folders@),
            keyed_rows(after.folders@, after_keys.folders@),
            changes@,
            MAX_DIFF_ROWS as int,
        ),
{
    let ghost bf = keyed_rows(before.folders@, before_keys.folders@);
    let ghost af = keyed_rows(after.folders@, after_keys.folders@);
    let rows: Vec<ChangeRow> = changed_rows(before, before_keys, after, after_keys);
    let ghost unsorted = rows@;
    let sorted: Vec<ChangeRow> = sort(rows);
    proof {
        lemma_sorted_rows(bf, af, unsorted, sorted@);
    }
    let mut changes: Vec<FolderChange> = Vec::new();
    let mut k: usize = 0;
    while k < sorted.len() && k < MAX_DIFF_ROWS
        invariant
            k <= sorted@.len(),
            k <= MAX_DIFF_ROWS,
            changes@.len() == k,
            forall|n: int| 0 <= n < k ==> (#[trigger] changes@[n])@ == sorted@[n].change@,
        decreases sorted@.len() - k,
    {
        let change: &FolderChange = &sorted[k].change;
        changes.push(
            FolderChange {
                path: change.path.clone(),
                before: change.before,
                after: change.after,
                delta: change.delta,
            },
        );
        k = k + 1;
    }
    proof {
        lemma_top_changes(bf, af, sorted@, changes@);
    }
    changes
}

proof fn lemma_top_changes(
    before: Seq<FolderRow>,
    after: Seq<FolderRow>,
    sorted: Seq<ChangeRow>,
    changes: Seq<FolderChange>,
)
    requires
        all_changes(before, after, sorted),
        forall|k: int, l: int|
            0 <= k < l < sorted.len() ==> reported_before(
                (#[trigger] sorted[k]).change@,
                (#[trigger] sorted[l]).change@,
            ),
        changes.len() == sorted.len() || (changes.len() == MAX_DIFF_ROWS && sorted.len()
            >= MAX_DIFF_ROWS),
        changes.len() <= MAX_DIFF_ROWS,
        forall|n: int|
            0 <= n < changes.len() ==> (#[trigger] changes[n])@ == sorted[n].change@,
    ensures
        top_changes(before, after, changes, MAX_DIFF_ROWS as int),
{
    assert forall|k: int| 0 <= k < changes.len() implies is_change(
        before,
        after,
        (#[trigger] changes[k])@,
    ) by {
        assert(changes[k]@ == sorted[k].change@);
        assert(changed(before, after, sorted[k].key@));
    }
    assert forall|k: int, l: int| 0 <= k < l < changes.len() implies reported_before(
        (#[trigger] changes[k])@,
        (#[trigger] changes[l])@,
    ) by {
        assert(reported_before(sorted[k].change@, sorted[l].change@));
    }
    assert forall|key: Seq<char>| #[trigger]
        changed(before, after, key) && !reported(
            changes,
            change_of(before, after, key),
        ) implies changes.len() == MAX_DIFF_ROWS && forall|k: int|
        0 <= k < changes.len() ==> reported_before(
            (#[trigger] changes[k])@,
            change_of(before, after, key),
        ) by {
        assert(passed(Seq::<KeyEntry>::empty(), 0, key));
        let n = choose|n: int|
            0 <= n < sorted.len() && (#[trigger] sorted[n]).change@ == change_of(
                before,
                after,
                key,
            );
        if n < changes.len() {
            assert(changes[n]@ == change_of(before, after, key));
        }
        assert forall|k: int| 0 <= k < changes.len() implies reported_before(
            (#[trigger] changes[k])@,
            change_of(before, after, key),
        ) by {
            assert(reported_before(sorted[k].change@, sorted[n].change@));
        }
    }
}

/// Compare two snapshots, where these are the keys of their roots and folders. A
/// folder that one of them lacks counts as empty there; folders of the same size
/// are not reported.
pub fn diff_by_keys(
    before: &Snapshot,
    before_keys: &SnapshotKeys,
    after: &Snapshot,
    after_keys: &SnapshotKeys,
) -> (diff: SnapshotDiff)
    requires
        before_keys.folders@.len() == before.folders@.len(),
        after_keys.folders@.len() == after.folders@.len(),
        one_key_per_path(
            keyed_rows(before.folders@, before_keys.folders@),
            keyed_rows(after.folders@, after_keys.folders@),
        ),
    ensures
        diff.different_roots == (before_keys.root@ != after_keys.root@),
        diff.root_before == before.root,
        diff.root_after == after.root,
        top_changes(
            keyed_rows(before.folders@, before_keys.folders@),
            keyed_rows(after.folders@, after_keys.folders@),
            diff.changes@,
            MAX_DIFF_ROWS as int,
        ),
        diff.totals == (before.spec_total(), after.spec_total()),
{
    SnapshotDiff {
        different_roots: !same_chars(&before_keys.root, &after_keys.root),
        root_before: before.root.clone(),
        root_after: after.root.clone(),
        changes: largest_changes(before, before_keys, after, after_keys),
        totals: (before.total(), after.total()),
    }
}

/// Compare two snapshots, without regard to case.
#[must_use]
pub fn diff(before: &Snapshot, after: &Snapshot) -> (diff: SnapshotDiff)
    ensures
        diff.different_roots == (lower_case(before.root@) != lower_case(after.root@)),
        diff.root_before == before.root,
        diff.root_after == after.root,
        top_changes(
            lower_rows(before.folders@),
            lower_rows(after.folders@),
            diff.changes@,
            MAX_DIFF_ROWS as int,
        ),
        diff.totals == (before.spec_total(), after.spec_total()),
{
    let before_keys: SnapshotKeys = before.keys();
    let after_keys: SnapshotKeys = after.keys();
    proof {
        let b = lower_rows(before.folders@);
        let a = lower_rows(after.folders@);
        assert forall|path: Seq<char>, key: Seq<char>| #[trigger]
            keyed_as(b, a, path, key) implies key == lower_case(path) by {}
    }
    diff_by_keys(before, &before_keys, after, &after_keys)
}

} // verus!
