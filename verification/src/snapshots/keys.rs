//! Folders by key. The key of a path is the path in lower case: paths that differ
//! in case only are those of one folder.

use crate::lexical::{
    comes_before, lemma_precedes_total, lemma_precedes_transitive, lower_chars, precedes, same_chars,
};
use crate::snapshots::{FolderSize, Snapshot};
use crate::sorting::{ranked, sort, Ranked};
use crate::text::lower_case;
use vstd::prelude::*;
use vstd::seq_lib::group_to_multiset_ensures;

verus! {

/// A folder with its key.
pub struct FolderRow {
    /// The key.
    pub key: Seq<char>,
    /// The path.
    pub path: Seq<char>,
    /// The logical size.
    pub logical: u64,
}

/// The keys of a snapshot.
#[derive(Debug)]
pub struct SnapshotKeys {
    /// The key of the root.
    pub root: Vec<char>,
    /// The keys of the folders, in their order.
    pub folders: Vec<Vec<char>>,
}

/// The folders with these keys.
pub open spec fn keyed_rows(folders: Seq<FolderSize>, keys: Seq<Vec<char>>) -> Seq<FolderRow> {
    Seq::new(
        folders.len(),
        |k: int|
            FolderRow { key: keys[k]@, path: folders[k].path@, logical: folders[k].logical },
    )
}

/// The folders with their paths in lower case as keys.
pub open spec fn lower_rows(folders: Seq<FolderSize>) -> Seq<FolderRow> {
    Seq::new(
        folders.len(),
        |k: int|
            FolderRow {
                key: lower_case(folders[k].path@),
                path: folders[k].path@,
                logical: folders[k].logical,
            },
    )
}

/// The folder at position `k` has this key.
pub open spec fn has_key(folders: Seq<FolderRow>, key: Seq<char>, k: int) -> bool {
    0 <= k < folders.len() && folders[k].key == key
}

/// The size that is kept under a key: that of the last folder with the key.
pub open spec fn last_size(folders: Seq<FolderRow>, key: Seq<char>) -> Option<u64>
    decreases folders.len(),
{
    if folders.len() == 0 {
        None
    } else if folders.last().key == key {
        Some(folders.last().logical)
    } else {
        last_size(folders.drop_last(), key)
    }
}

/// How a key is spelled: as the path of the first folder with the key.
pub open spec fn first_spelling(folders: Seq<FolderRow>, key: Seq<char>) -> Option<Seq<char>>
    decreases folders.len(),
{
    if folders.len() == 0 {
        None
    } else {
        match first_spelling(folders.drop_last(), key) {
            Some(path) => Some(path),
            None => if folders.last().key == key {
                Some(folders.last().path)
            } else {
                None
            },
        }
    }
}

/// No folder has the key: there is neither a size nor a spelling.
pub proof fn lemma_key_absent(folders: Seq<FolderRow>, key: Seq<char>)
    requires
        forall|k: int| !#[trigger] has_key(folders, key, k),
    ensures
        last_size(folders, key) is None,
        first_spelling(folders, key) is None,
    decreases folders.len(),
{
    if folders.len() > 0 {
        let front = folders.drop_last();
        assert forall|k: int| !#[trigger] has_key(front, key, k) by {
            assert(!has_key(folders, key, k));
        }
        lemma_key_absent(front, key);
        assert(!has_key(folders, key, folders.len() - 1));
    }
}

/// The last folder with a key gives its size.
pub proof fn lemma_last_size(folders: Seq<FolderRow>, key: Seq<char>, k: int)
    requires
        has_key(folders, key, k),
        forall|l: int| #[trigger] has_key(folders, key, l) ==> l <= k,
    ensures
        last_size(folders, key) == Some(folders[k].logical),
    decreases folders.len(),
{
    if k < folders.len() - 1 {
        let front = folders.drop_last();
        assert(!has_key(folders, key, folders.len() - 1));
        assert forall|l: int| #[trigger] has_key(front, key, l) implies l <= k by {
            assert(has_key(folders, key, l));
        }
        lemma_last_size(front, key, k);
    }
}

/// The first folder with a key gives its spelling.
pub proof fn lemma_first_spelling(folders: Seq<FolderRow>, key: Seq<char>, k: int)
    requires
        has_key(folders, key, k),
        forall|l: int| #[trigger] has_key(folders, key, l) ==> k <= l,
    ensures
        first_spelling(folders, key) == Some(folders[k].path),
    decreases folders.len(),
{
    let front = folders.drop_last();
    if k < folders.len() - 1 {
        assert(has_key(front, key, k));
        assert forall|l: int| #[trigger] has_key(front, key, l) implies k <= l by {
            assert(has_key(folders, key, l));
        }
        lemma_first_spelling(front, key, k);
    } else {
        assert forall|l: int| !#[trigger] has_key(front, key, l) by {
            if has_key(front, key, l) {
                assert(has_key(folders, key, l));
            }
        }
        lemma_key_absent(front, key);
    }
}

/// A key that is kept has a folder.
pub proof fn lemma_key_present(folders: Seq<FolderRow>, key: Seq<char>)
    requires
        last_size(folders, key) is Some || first_spelling(folders, key) is Some,
    ensures
        exists|k: int| #[trigger] has_key(folders, key, k),
{
    if forall|k: int| !#[trigger] has_key(folders, key, k) {
        lemma_key_absent(folders, key);
    }
}

/// The position of a folder, with its key.
#[derive(Debug)]
pub struct KeyRow {
    /// The key.
    pub key: Vec<char>,
    /// The position.
    pub row: usize,
}

impl Ranked for KeyRow {
    open spec fn at_most(self, other: Self) -> bool {
        precedes(self.key@, other.key@) || (self.key@ == other.key@ && self.row <= other.row)
    }

    proof fn at_most_total(a: Self, b: Self) {
        lemma_precedes_total(a.key@, b.key@);
    }

    proof fn at_most_transitive(a: Self, b: Self, c: Self) {
        if precedes(a.key@, b.key@) && precedes(b.key@, c.key@) {
            lemma_precedes_transitive(a.key@, b.key@, c.key@);
        }
    }

    fn may_precede(&self, other: &Self) -> (first: bool) {
        comes_before(&self.key, &other.key) || (same_chars(&self.key, &other.key) && self.row
            <= other.row)
    }
}

/// What is kept under one key.
#[derive(Debug)]
pub struct KeyEntry {
    /// The key.
    pub key: Vec<char>,
    /// Size of the last folder with the key.
    pub size: u64,
    /// Position of the first folder with the key.
    pub row: usize,
}

/// The entry says what the folders keep under its key.
pub open spec fn entry_holds(folders: Seq<FolderRow>, entry: KeyEntry) -> bool {
    &&& last_size(folders, entry.key@) == Some(entry.size)
    &&& has_key(folders, entry.key@, entry.row as int)
    &&& first_spelling(folders, entry.key@) == Some(folders[entry.row as int].path)
}

/// One of the entries has this key.
pub open spec fn keyed(entries: Seq<KeyEntry>, key: Seq<char>) -> bool {
    exists|i: int| 0 <= i < entries.len() && (#[trigger] entries[i]).key@ == key
}

/// The entries are in the order of their keys, no key occurs twice, every entry
/// holds, and every key has its entry.
pub open spec fn is_key_map(folders: Seq<FolderRow>, entries: Seq<KeyEntry>) -> bool {
    &&& forall|i: int| 0 <= i < entries.len() ==> entry_holds(folders, #[trigger] entries[i])
    &&& forall|i: int, j: int|
        0 <= i < j < entries.len() ==> precedes(
            (#[trigger] entries[i]).key@,
            (#[trigger] entries[j]).key@,
        )
    &&& forall|k: int|
        0 <= k < folders.len() ==> #[trigger] keyed(entries, folders[k].key)
}

/// Row `i` is that of the folder at position `k`.
spec fn row_of(folders: Seq<FolderRow>, rows: Seq<KeyRow>, k: int, i: int) -> bool {
    0 <= i < rows.len() && rows[i].row == k && rows[i].key@ == folders[k].key
}

/// The folder at position `k` has a row.
spec fn has_row(folders: Seq<FolderRow>, rows: Seq<KeyRow>, k: int) -> bool {
    exists|i: int| #[trigger] row_of(folders, rows, k, i)
}

/// The rows are those of all folders, in the order of keys and positions.
spec fn sorted_rows(folders: Seq<FolderRow>, rows: Seq<KeyRow>) -> bool {
    &&& ranked(rows)
    &&& forall|i: int|
        0 <= i < rows.len() ==> has_key(folders, (#[trigger] rows[i]).key@, rows[i].row as int)
    &&& forall|k: int| 0 <= k < folders.len() ==> #[trigger] has_row(folders, rows, k)
}

fn sorted_key_rows(folders: &Vec<FolderSize>, keys: &Vec<Vec<char>>) -> (rows: Vec<KeyRow>)
    requires
        keys@.len() == folders@.len(),
    ensures
        sorted_rows(keyed_rows(folders@, keys@), rows@),
{
    let ghost listed = keyed_rows(folders@, keys@);
    let mut rows: Vec<KeyRow> = Vec::new();
    let mut k: usize = 0;
    while k < folders.len()
        invariant
            k <= folders@.len(),
            keys@.len() == folders@.len(),
            rows@.len() == k,
            forall|i: int|
                0 <= i < k ==> (#[trigger] rows@[i]).row == i && rows@[i].key@ == keys@[i]@,
        decreases folders@.len() - k,
    {
        rows.push(KeyRow { key: copy_chars(&keys[k]), row: k });
        k = k + 1;
    }
    let ghost unsorted = rows@;
    let sorted: Vec<KeyRow> = sort(rows);
    proof {
        broadcast use group_to_multiset_ensures;

        assert forall|x: KeyRow| #[trigger] sorted@.contains(x) <==> unsorted.contains(x) by {
            assert(sorted@.to_multiset().count(x) == unsorted.to_multiset().count(x));
        }
        assert forall|i: int| 0 <= i < sorted@.len() implies has_key(
            listed,
            (#[trigger] sorted@[i]).key@,
            sorted@[i].row as int,
        ) by {
            assert(sorted@.contains(sorted@[i]));
            let j = choose|j: int| 0 <= j < unsorted.len() && unsorted[j] == sorted@[i];
            assert(unsorted[j].row == j);
        }
        assert forall|k: int| 0 <= k < listed.len() implies #[trigger] has_row(
            listed,
            sorted@,
            k,
        ) by {
            assert(unsorted[k].row == k);
            assert(unsorted.contains(unsorted[k]));
            assert(sorted@.contains(unsorted[k]));
            let i = choose|i: int| 0 <= i < sorted@.len() && sorted@[i] == unsorted[k];
            assert(row_of(listed, sorted@, k, i));
        }
    }
    sorted
}

/// The rows `from..to` are those of one key: the first of them has its spelling,
/// the last its size.
proof fn lemma_key_group(
    folders: Seq<FolderRow>,
    rows: Seq<KeyRow>,
    from: int,
    to: int,
    key: Seq<char>,
)
    requires
        sorted_rows(folders, rows),
        0 <= from < to <= rows.len(),
        forall|i: int| from <= i < to ==> (#[trigger] rows[i]).key@ == key,
        forall|i: int| 0 <= i < from ==> precedes((#[trigger] rows[i]).key@, key),
        to < rows.len() ==> rows[to].key@ != key,
    ensures
        last_size(folders, key) == Some(folders[rows[to - 1].row as int].logical),
        first_spelling(folders, key) == Some(folders[rows[from].row as int].path),
        forall|i: int| to <= i < rows.len() ==> precedes(key, (#[trigger] rows[i]).key@),
{
    assert forall|i: int| to <= i < rows.len() implies precedes(key, (#[trigger] rows[i]).key@) by {
        assert(rows[to - 1].key@ == key);
        assert(rows[to - 1].at_most(rows[to]));
        assert(precedes(key, rows[to].key@));
        if i > to {
            assert(rows[to].at_most(rows[i]));
            if precedes(rows[to].key@, rows[i].key@) {
                lemma_precedes_transitive(key, rows[to].key@, rows[i].key@);
            }
        }
    }
    let first = rows[from].row as int;
    let last = rows[to - 1].row as int;
    assert(has_key(folders, rows[from].key@, first));
    assert(has_key(folders, rows[to - 1].key@, last));
    assert forall|l: int| #[trigger] has_key(folders, key, l) implies first <= l <= last by {
        assert(has_row(folders, rows, l));
        let i = choose|i: int| #[trigger] row_of(folders, rows, l, i);
        lemma_precedes_total(key, key);
        assert(from <= i < to);
        if i > from {
            assert(rows[from].at_most(rows[i]));
        }
        if i < to - 1 {
            assert(rows[i].at_most(rows[to - 1]));
        }
    }
    lemma_last_size(folders, key, last);
    lemma_first_spelling(folders, key, first);
}

impl Snapshot {
    /// The keys: the root and the paths in lower case.
    pub fn keys(&self) -> (keys: SnapshotKeys)
        ensures
            keys.root@ == lower_case(self.root@),
            keys.folders@.len() == self.folders@.len(),
            keyed_rows(self.folders@, keys.folders@) == lower_rows(self.folders@),
    {
        let mut folders: Vec<Vec<char>> = Vec::new();
        let mut k: usize = 0;
        while k < self.folders.len()
            invariant
                k <= self.folders@.len(),
                folders@.len() == k,
                forall|i: int|
                    0 <= i < k ==> (#[trigger] folders@[i])@ == lower_case(self.folders@[i].path@),
            decreases self.folders@.len() - k,
        {
            folders.push(lower_chars(self.folders[k].path.as_str()));
            k = k + 1;
        }
        assert(keyed_rows(self.folders@, folders@) =~= lower_rows(self.folders@));
        SnapshotKeys { root: lower_chars(self.root.as_str()), folders }
    }

    /// The folders by key, where these are the keys.
    pub fn key_map(&self, keys: &SnapshotKeys) -> (entries: Vec<KeyEntry>)
        requires
            keys.folders@.len() == self.folders@.len(),
        ensures
            is_key_map(keyed_rows(self.folders@, keys.folders@), entries@),
    {
        let rows: Vec<KeyRow> = sorted_key_rows(&self.folders, &keys.folders);
        let ghost folders = keyed_rows(self.folders@, keys.folders@);
        let mut entries: Vec<KeyEntry> = Vec::new();
        let mut from: usize = 0;
        while from < rows.len()
            invariant
                from <= rows@.len(),
                folders == keyed_rows(self.folders@, keys.folders@),
                sorted_rows(folders, rows@),
                forall|i: int|
                    0 <= i < entries@.len() ==> entry_holds(folders, #[trigger] entries@[i]),
                forall|i: int, j: int|
                    0 <= i < j < entries@.len() ==> precedes(
                        (#[trigger] entries@[i]).key@,
                        (#[trigger] entries@[j]).key@,
                    ),
                forall|n: int| 0 <= n < from ==> keyed(entries@, (#[trigger] rows@[n]).key@),
                forall|i: int, n: int|
                    0 <= i < entries@.len() && from <= n < rows@.len() ==> precedes(
                        (#[trigger] entries@[i]).key@,
                        (#[trigger] rows@[n]).key@,
                    ),
                forall|m: int, n: int|
                    0 <= m < from <= n < rows@.len() ==> precedes(
                        (#[trigger] rows@[m]).key@,
                        (#[trigger] rows@[n]).key@,
                    ),
            decreases rows@.len() - from,
        {
            let mut to: usize = from + 1;
            let ghost key = rows@[from as int].key@;
            while to < rows.len() && same_chars(&rows[to].key, &rows[from].key)
                invariant
                    from < to <= rows@.len(),
                    key == rows@[from as int].key@,
                    forall|i: int| from <= i < to ==> (#[trigger] rows@[i]).key@ == key,
                decreases rows@.len() - to,
            {
                to = to + 1;
            }
            proof {
                assert forall|i: int| 0 <= i < from implies precedes(
                    (#[trigger] rows@[i]).key@,
                    key,
                ) by {
                    assert(rows@[from as int].key@ == key);
                }
                lemma_key_group(folders, rows@, from as int, to as int, key);
                assert(has_key(folders, rows@[to - 1].key@, rows@[to - 1].row as int));
                assert(has_key(folders, rows@[from as int].key@, rows@[from as int].row as int));
            }
            let size: u64 = self.folders[rows[to - 1].row].logical;
            let entry: KeyEntry = KeyEntry { key: copy_chars(&rows[from].key), size, row: rows[from].row };
            let ghost before = entries@;
            entries.push(entry);
            proof {
                assert(entries@[before.len() as int].key@ == key);
                assert forall|i: int, j: int| 0 <= i < j < entries@.len() implies precedes(
                    (#[trigger] entries@[i]).key@,
                    (#[trigger] entries@[j]).key@,
                ) by {
                    if j == before.len() {
                        assert(rows@[from as int].key@ == key);
                        assert(entries@[i] == before[i]);
                    }
                }
                assert forall|n: int| 0 <= n < to implies keyed(
                    entries@,
                    (#[trigger] rows@[n]).key@,
                ) by {
                    if n < from {
                        assert(keyed(before, rows@[n].key@));
                        let i = choose|i: int|
                            0 <= i < before.len() && (#[trigger] before[i]).key@ == rows@[n].key@;
                        assert(entries@[i].key@ == rows@[n].key@);
                    } else {
                        assert(entries@[before.len() as int].key@ == rows@[n].key@);
                    }
                }
            }
            from = to;
        }
        proof {
            assert forall|k: int| 0 <= k < folders.len() implies #[trigger] keyed(
                entries@,
                folders[k].key,
            ) by {
                assert(has_row(folders, rows@, k));
                let n = choose|n: int| #[trigger] row_of(folders, rows@, k, n);
                assert(keyed(entries@, rows@[n].key@));
            }
        }
        entries
    }
}

/// The characters once more.
fn copy_chars(chars: &Vec<char>) -> (copy: Vec<char>)
    ensures
        copy@ == chars@,
{
    let mut copy: Vec<char> = Vec::new();
    let mut k: usize = 0;
    while k < chars.len()
        invariant
            k <= chars@.len(),
            copy@ == chars@.take(k as int),
        decreases chars@.len() - k,
    {
        copy.push(chars[k]);
        k = k + 1;
        assert(copy@ =~= chars@.take(k as int));
    }
    assert(chars@.take(k as int) =~= chars@);
    copy
}

} // verus!
