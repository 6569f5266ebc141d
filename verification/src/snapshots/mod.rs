//! Snapshots: what the folders of a scan held at one time, and what changed
//! between two times.
//!
//! A snapshot keeps the folders of at least 1 MB. Two snapshots are compared
//! folder by folder, without regard to case; a folder that one of them lacks
//! counts as empty there.

pub mod changes;
pub mod keys;
pub mod laws;
pub mod report_laws;
pub mod store;

pub use crate::snapshots::changes::diff;

use crate::scan::sums::{saturated, sum};
use vstd::prelude::*;

verus! {

/// Folders below this logical size are not kept.
pub const MIN_FOLDER_SIZE: u64 = 1048576;

/// A comparison reports no more than this many changes.
pub const MAX_DIFF_ROWS: usize = 200;

/// One folder of a snapshot.
#[derive(Debug, Clone, PartialEq, Eq)]
pub struct FolderSize {
    /// Path as shown when the snapshot was taken.
    pub path: String,
    /// Logical size in bytes.
    pub logical: u64,
}

/// The folders of one scan.
#[derive(Debug, Clone, PartialEq, Eq)]
pub struct Snapshot {
    /// Id of the snapshot.
    pub id: String,
    /// Path of the scanned root.
    pub root: String,
    /// Unix seconds at which it was taken.
    pub taken_at: i64,
    /// The folders.
    pub folders: Vec<FolderSize>,
}

/// A snapshot as the list of snapshots shows it.
#[derive(Debug, Clone, PartialEq, Eq)]
pub struct SnapshotSummary {
    /// Id of the snapshot.
    pub id: String,
    /// Path of the scanned root.
    pub root: String,
    /// Unix seconds at which it was taken.
    pub date: i64,
    /// Logical size of the kept folders together.
    pub total: u64,
    /// Number of kept folders.
    pub folder_count: u64,
}

/// One folder that changed.
#[derive(Debug, PartialEq, Eq)]
pub struct FolderChange {
    /// Path as spelled in the later snapshot, or in the earlier one where the
    /// later one lacks the folder.
    pub path: String,
    /// Logical size before; 0 where the folder was missing.
    pub before: u64,
    /// Logical size after; 0 where the folder is missing.
    pub after: u64,
    /// What came on top; negative where the folder shrank.
    pub delta: i64,
}

impl Clone for FolderChange {
    fn clone(&self) -> (copy: Self)
        ensures
            copy == *self,
    {
        FolderChange {
            path: self.path.clone(),
            before: self.before,
            after: self.after,
            delta: self.delta,
        }
    }
}

/// What changed between two snapshots.
#[derive(Debug, PartialEq, Eq)]
pub struct SnapshotDiff {
    /// The snapshots are of different roots.
    pub different_roots: bool,
    /// Root of the earlier snapshot.
    pub root_before: String,
    /// Root of the later snapshot.
    pub root_after: String,
    /// The largest changes, largest first.
    pub changes: Vec<FolderChange>,
    /// Totals of the earlier and the later snapshot.
    pub totals: (u64, u64),
}

impl Clone for SnapshotDiff {
    fn clone(&self) -> (copy: Self)
        ensures
            copy.different_roots == self.different_roots,
            copy.root_before == self.root_before,
            copy.root_after == self.root_after,
            copy.changes@ == self.changes@,
            copy.totals == self.totals,
    {
        SnapshotDiff {
            different_roots: self.different_roots,
            root_before: self.root_before.clone(),
            root_after: self.root_after.clone(),
            changes: self.changes.clone(),
            totals: self.totals,
        }
    }
}

/// The folders kept of `pairs`, in their order.
pub open spec fn kept_folders(pairs: Seq<(String, u64)>) -> Seq<FolderSize> {
    pairs.filter(|pair: (String, u64)| pair.1 >= MIN_FOLDER_SIZE).map_values(
        |pair: (String, u64)| FolderSize { path: pair.0, logical: pair.1 },
    )
}

/// The sizes of folders by position.
pub open spec fn sizes(folders: Seq<FolderSize>) -> spec_fn(int) -> nat {
    |k: int| folders[k].logical as nat
}

impl Snapshot {
    /// The (saturated) logical size of the kept folders together.
    pub open spec fn spec_total(&self) -> u64 {
        saturated(sum(sizes(self.folders@), 0, self.folders@.len() as int))
    }

    /// Take a snapshot of `pairs` of paths and logical sizes; folders below
    /// [`MIN_FOLDER_SIZE`] are dropped.
    #[must_use]
    pub fn build(id: String, root: String, taken_at: i64, pairs: Vec<(String, u64)>) -> (snapshot:
        Self)
        ensures
            snapshot.id == id,
            snapshot.root == root,
            snapshot.taken_at == taken_at,
            snapshot.folders@ == kept_folders(pairs@),
    {
        let ghost all = pairs@;
        let ghost keep = |pair: (String, u64)| pair.1 >= MIN_FOLDER_SIZE;
        let mut folders: Vec<FolderSize> = Vec::new();
        proof {
            reveal(Seq::filter);
            assert(kept_folders(all.take(0)) =~= Seq::<FolderSize>::empty());
        }
        for pair in it: pairs
            invariant
                it.seq() == all,
                folders@ == kept_folders(all.take(it.index() as int)),
        {
            proof {
                reveal(Seq::filter);
                assert(all.take(it.index() + 1).drop_last() =~= all.take(it.index() as int));
            }
            let (path, logical): (String, u64) = pair;
            if logical >= MIN_FOLDER_SIZE {
                folders.push(FolderSize { path, logical });
            }
            assert(folders@ =~= kept_folders(all.take(it.index() + 1)));
        }
        assert(all.take(all.len() as int) =~= all);
        Snapshot { id, root, taken_at, folders }
    }

    /// Logical size of the kept folders together; it saturates.
    #[must_use]
    pub fn total(&self) -> (total: u64)
        ensures
            total == self.spec_total(),
    {
        let mut total: u64 = 0;
        let mut k: usize = 0;
        while k < self.folders.len()
            invariant
                k <= self.folders@.len(),
                total == saturated(sum(sizes(self.folders@), 0, k as int)),
            decreases self.folders@.len() - k,
        {
            total = total.saturating_add(self.folders[k].logical);
            k = k + 1;
        }
        total
    }
}

/// The row of a snapshot in the list of snapshots.
#[must_use]
pub fn summarize(s: &Snapshot) -> (summary: SnapshotSummary)
    ensures
        summary.id == s.id,
        summary.root == s.root,
        summary.date == s.taken_at,
        summary.total == s.spec_total(),
        summary.folder_count == s.folders@.len(),
{
    SnapshotSummary {
        id: s.id.clone(),
        root: s.root.clone(),
        date: s.taken_at,
        total: s.total(),
        folder_count: s.folders.len() as u64,
    }
}

} // verus!
