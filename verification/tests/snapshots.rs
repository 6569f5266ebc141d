//! Snapshots and what changed between them.

use diskbytes_core::error::CoreError;
use diskbytes_core::snapshots::changes::diff_by_keys;
use diskbytes_core::snapshots::keys::SnapshotKeys;
use diskbytes_core::snapshots::store::{
    delete_step, parse_failed, read_failed, snapshot_file_name, temp_file_name, write_step,
    DeleteAction, DeleteEvent, WriteAction, WriteEvent,
};
use diskbytes_core::snapshots::{
    diff, summarize, FolderChange, FolderSize, Snapshot, SnapshotSummary, MAX_DIFF_ROWS,
    MIN_FOLDER_SIZE,
};

fn snap(id: &str, root: &str, at: i64, pairs: Vec<(&str, u64)>) -> Snapshot {
    Snapshot::build(
        id.to_string(),
        root.to_string(),
        at,
        pairs.into_iter().map(|(p, s)| (p.to_string(), s)).collect(),
    )
}

#[test]
fn small_folders_are_excluded() {
    let s = snap(
        "s1",
        "C:\\",
        1000,
        vec![("C:\\Big", 5 * 1024 * 1024), ("C:\\Tiny", 4096)],
    );
    assert_eq!(s.folders.len(), 1);
    assert_eq!(s.folders[0].path, "C:\\Big");
    assert_eq!(s.total(), 5 * 1024 * 1024);
    // exactly 1 MB is kept (>= threshold)
    let s2 = snap("s2", "C:\\", 1, vec![("C:\\Edge", MIN_FOLDER_SIZE)]);
    assert_eq!(s2.folders.len(), 1);
}

#[test]
fn diff_is_case_insensitive_and_missing_counts_zero() {
    // Sizes in MiB — Snapshot::build drops rows below the 1 MB floor.
    const MB: u64 = 1024 * 1024;
    let before = snap(
        "a",
        "C:\\Users\\me",
        10,
        vec![
            ("C:\\Users\\me\\Docs", 100 * MB),
            ("C:\\Users\\me\\Gone", 50 * MB),
        ],
    );
    let after = snap(
        "b",
        "C:\\Users\\me",
        20,
        vec![
            ("C:\\Users\\me\\DOCS", 140 * MB),
            ("C:\\Users\\me\\New", 30 * MB),
        ],
    );
    let d = diff(&before, &after);
    assert!(!d.different_roots);
    // Docs grew 100→140 MiB (+40); Gone vanished 50→0 (−50); New 0→30 (+30).
    assert_eq!(d.changes.len(), 3);
    // Largest absolute change first: −50 MiB (Gone).
    assert_eq!(d.changes[0].path, "C:\\Users\\me\\Gone");
    assert_eq!(d.changes[0].delta, -(50 * MB as i64));
    // Docs row uses the AFTER spelling (uppercase DOCS).
    let docs = d
        .changes
        .iter()
        .find(|c| c.path.to_ascii_lowercase().contains("docs"))
        .unwrap();
    assert_eq!(docs.path, "C:\\Users\\me\\DOCS");
    assert_eq!(docs.before, 100 * MB);
    assert_eq!(docs.after, 140 * MB);
    assert_eq!(docs.delta, 40 * MB as i64);
    let new = d.changes.iter().find(|c| c.path.ends_with("New")).unwrap();
    assert_eq!(new.before, 0);
    assert_eq!(new.after, 30 * MB);
}

#[test]
fn diff_flags_different_roots_case_insensitively() {
    let a = snap("a", "C:\\Work", 1, vec![]);
    let b = snap("b", "c:\\work", 2, vec![]);
    assert!(!diff(&a, &b).different_roots);
    let c = snap("c", "D:\\Work", 3, vec![]);
    assert!(diff(&a, &c).different_roots);
}

#[test]
fn diff_truncates_to_top_200_sorted_by_absolute_change() {
    const MB: u64 = 1024 * 1024;
    let mut pairs_before: Vec<(String, u64)> = Vec::new();
    let mut pairs_after: Vec<(String, u64)> = Vec::new();
    for i in 0u32..600 {
        let p = format!("C:\\F\\folder-{i:03}");
        pairs_before.push((p.clone(), 100 * MB + u64::from(i)));
        // growth proportional to (600 - i): folder-000 grows most
        pairs_after.push((p, 100 * MB + u64::from(600 - i)));
    }
    let before = Snapshot::build("a".into(), "C:\\F".into(), 1, pairs_before);
    let after = Snapshot::build("b".into(), "C:\\F".into(), 2, pairs_after);
    let d = diff(&before, &after);
    assert_eq!(d.changes.len(), MAX_DIFF_ROWS);
    // All deltas are distinct; the top row must be the biggest growth.
    assert_eq!(d.changes[0].delta, 600);
    assert_eq!(d.changes[0].path, "C:\\F\\folder-000");
}
#[test]
fn unchanged_rows_are_not_reported() {
    let a = snap("a", "C:\\", 1, vec![("C:\\Same", 100)]);
    let b = snap("b", "C:\\", 2, vec![("C:\\SAME", 100)]);
    assert_eq!(diff(&a, &b).changes.len(), 0);
}

#[test]
fn summary_row_matches_snapshot() {
    let s = snap("id-9", "C:\\Data", 77, vec![("C:\\Data\\A", 1048576)]);
    let sum = summarize(&s);
    assert_eq!(sum.id, "id-9");
    assert_eq!(sum.root, "C:\\Data");
    assert_eq!(sum.date, 77);
    assert_eq!(sum.total, 1048576);
    assert_eq!(sum.folder_count, 1);
}

fn raw(root: &str, rows: Vec<(&str, u64)>) -> Snapshot {
    Snapshot {
        id: "raw".to_string(),
        root: root.to_string(),
        taken_at: 0,
        folders: rows
            .into_iter()
            .map(|(p, s)| FolderSize {
                path: p.to_string(),
                logical: s,
            })
            .collect(),
    }
}

fn change(path: &str, before: u64, after: u64, delta: i64) -> FolderChange {
    FolderChange {
        path: path.to_string(),
        before,
        after,
        delta,
    }
}

/// Building keeps the rows in their order.
#[test]
fn build_keeps_order_of_large_folders() {
    let s = snap(
        "s",
        "C:\\",
        5,
        vec![
            ("z", MIN_FOLDER_SIZE),
            ("y", MIN_FOLDER_SIZE - 1),
            ("x", MIN_FOLDER_SIZE + 1),
            ("z", 2 * MIN_FOLDER_SIZE),
        ],
    );
    let rows: Vec<(&str, u64)> = s.folders.iter().map(|f| (f.path.as_str(), f.logical)).collect();
    assert_eq!(
        rows,
        vec![
            ("z", MIN_FOLDER_SIZE),
            ("x", MIN_FOLDER_SIZE + 1),
            ("z", 2 * MIN_FOLDER_SIZE)
        ]
    );
    assert_eq!(s.id, "s");
    assert_eq!(s.root, "C:\\");
    assert_eq!(s.taken_at, 5);
}

/// Totals saturate.
#[test]
fn totals_saturate() {
    let s = raw("r", vec![("a", u64::MAX), ("b", 5)]);
    assert_eq!(s.total(), u64::MAX);
    assert_eq!(raw("r", vec![]).total(), 0);
}

/// Rows are reported by size, then by path.
#[test]
fn ties_are_reported_by_path() {
    let before = raw("r", vec![("b", 10), ("a", 30), ("C", 7), ("same", 1)]);
    let after = raw("r", vec![("a", 10), ("b", 30), ("SAME", 1), ("\u{e9}", 7)]);
    let d = diff(&before, &after);
    assert_eq!(
        d.changes,
        vec![
            change("a", 30, 10, -20),
            change("b", 10, 30, 20),
            change("C", 7, 0, -7),
            change("\u{e9}", 0, 7, 7),
        ]
    );
    assert_eq!(d.totals, (48, 48));
    assert_eq!(d.root_before, "r");
    assert_eq!(d.root_after, "r");
}

/// Of several rows with one key the last gives the size, the first the spelling.
#[test]
fn last_row_wins_first_row_spells() {
    let before = raw("r", vec![("Dir", 1), ("DIR", 5)]);
    let after = raw("r", vec![("dIR", 9), ("dir", 7)]);
    assert_eq!(diff(&before, &after).changes, vec![change("dIR", 5, 7, 2)]);
    let gone = raw("r", vec![]);
    assert_eq!(diff(&before, &gone).changes, vec![change("Dir", 5, 0, -5)]);
}

/// Letters outside ASCII fold too.
#[test]
fn folding_knows_letters_outside_ascii() {
    let before = Snapshot::build("a".into(), "C:\\\u{c9}".into(), 1, vec![("C:\\\u{C4}".into(), 2_097_152)]);
    let after = Snapshot::build("b".into(), "c:\\\u{e9}".into(), 2, vec![("C:\\\u{E4}".into(), 2_097_152)]);
    let d = diff(&before, &after);
    assert!(!d.different_roots);
    assert!(d.changes.is_empty());
    let grown = raw("r", vec![("c:\\\u{e4}", 3_000_000)]);
    assert_eq!(
        diff(&before, &grown).changes,
        vec![change("c:\\\u{e4}", 2_097_152, 3_000_000, 902_848)]
    );
}

/// A letter folds alike wherever it stands in a word.
#[test]
fn folding_does_not_look_at_neighbours() {
    let before = raw("\u{39F}\u{3A3}", vec![("\u{39F}\u{394}\u{39F}\u{3A3}", 5)]);
    let after = raw("\u{3BF}\u{3C3}", vec![("\u{3BF}\u{3B4}\u{3BF}\u{3C3}", 5)]);
    let d = diff(&before, &after);
    assert!(!d.different_roots);
    assert!(d.changes.is_empty());
    // One letter may become two.
    let dotted = raw("\u{130}", vec![]);
    assert_eq!(dotted.keys().root, vec!['i', '\u{307}']);
}

/// Keys decide which folders are the same.
#[test]
fn folders_are_compared_by_key() {
    let before = raw("x", vec![("p", 5), ("q", 7)]);
    let after = raw("y", vec![("P!", 6), ("Q!", 7)]);
    let keys = |root: &str, folders: &[&str]| SnapshotKeys {
        root: root.chars().collect(),
        folders: folders.iter().map(|f| f.chars().collect()).collect(),
    };
    let d = diff_by_keys(&before, &keys("k", &["1", "2"]), &after, &keys("k", &["1", "2"]));
    assert!(!d.different_roots);
    assert_eq!(d.changes, vec![change("P!", 5, 6, 1)]);
    let d = diff_by_keys(&before, &keys("k", &["1", "2"]), &after, &keys("l", &["3", "2"]));
    assert!(d.different_roots);
    assert_eq!(d.changes, vec![change("P!", 0, 6, 6), change("p", 5, 0, -5)]);
    let lower = before.keys();
    assert_eq!(lower.root, vec!['x']);
    assert_eq!(lower.folders, vec![vec!['p'], vec!['q']]);
}

/// A copy of a comparison says the same.
#[test]
fn comparisons_are_copied_in_full() {
    let d = diff(&raw("r", vec![("a", 1), ("b", 9)]), &raw("s", vec![("a", 4)]));
    assert_eq!(d.changes.len(), 2);
    assert_eq!(d.clone(), d);
}

/// A snapshot does not differ from itself.
#[test]
fn same_snapshot_has_no_changes() {
    let s = raw("r", vec![("a", 1), ("A", 2), ("b", 0), ("c", u64::MAX)]);
    assert!(diff(&s, &s).changes.is_empty());
    assert!(!diff(&s, &s).different_roots);
}

/// Deltas of sizes beyond a signed number wrap.
#[test]
fn large_deltas_wrap() {
    let before = raw("r", vec![("a", 0)]);
    let after = raw("r", vec![("a", u64::MAX)]);
    assert_eq!(diff(&before, &after).changes, vec![change("a", 0, u64::MAX, -1)]);
    let top = raw("r", vec![("a", 1 << 63)]);
    let d = diff(&before, &top);
    assert_eq!(d.changes[0].delta, i64::MIN);
    assert_eq!(d.changes[0].delta.unsigned_abs(), 1 << 63);
}

/// No change is left out below the limit.
#[test]
fn exactly_the_limit_is_reported() {
    let rows: Vec<(String, u64)> = (0..MAX_DIFF_ROWS + 1)
        .map(|i| (format!("f{i:03}"), MIN_FOLDER_SIZE + i as u64))
        .collect();
    let empty = raw("r", vec![]);
    let full = Snapshot::build("x".into(), "r".into(), 0, rows[..MAX_DIFF_ROWS].to_vec());
    assert_eq!(diff(&empty, &full).changes.len(), MAX_DIFF_ROWS);
    let over = Snapshot::build("x".into(), "r".into(), 0, rows);
    let d = diff(&empty, &over);
    assert_eq!(d.changes.len(), MAX_DIFF_ROWS);
    assert_eq!(d.changes[0].path, format!("f{MAX_DIFF_ROWS:03}"));
    assert!(!d.changes.iter().any(|c| c.path == "f000"));
}

#[test]
fn files_of_the_store_are_named() {
    assert_eq!(snapshot_file_name("d1"), "d1.json");
    assert_eq!(temp_file_name(Some("index.json"), 4711), "index.json.4711.tmp");
    assert_eq!(temp_file_name(None, 0), "snapshot.0.tmp");
    assert_eq!(temp_file_name(Some("x"), u32::MAX), "x.4294967295.tmp");
}

fn message(error: CoreError) -> String {
    match error {
        CoreError::SnapshotParse(m) => m,
        other => panic!("unexpected {other:?}"),
    }
}

#[test]
fn failures_name_the_file() {
    assert_eq!(message(read_failed("/s/a.json", "denied")), "read /s/a.json: denied");
    assert_eq!(message(parse_failed("/s/a.json", "eof")), "parse /s/a.json: eof");
}

#[test]
fn writing_goes_step_by_step() {
    let p = "/s/a.json";
    assert!(matches!(
        write_step(p, WriteEvent::Started { has_parent: true }),
        WriteAction::Serialize
    ));
    match write_step(p, WriteEvent::Started { has_parent: false }) {
        WriteAction::Fail(e) => assert_eq!(message(e), "snapshot path has no parent directory"),
        other => panic!("unexpected {other:?}"),
    }
    assert!(matches!(
        write_step(p, WriteEvent::Serialized),
        WriteAction::WriteAndRename
    ));
    match write_step(p, WriteEvent::SerializeFailed("bad".to_string())) {
        WriteAction::Fail(e) => assert_eq!(message(e), "serialize /s/a.json: bad"),
        other => panic!("unexpected {other:?}"),
    }
    assert!(matches!(write_step(p, WriteEvent::Renamed), WriteAction::Done));
    match write_step(p, WriteEvent::WriteFailed("full".to_string())) {
        WriteAction::RemoveTempAndFail(e) => {
            assert_eq!(message(e), "atomic write /s/a.json: full");
        }
        other => panic!("unexpected {other:?}"),
    }
}

fn row(id: &str) -> SnapshotSummary {
    SnapshotSummary {
        id: id.to_string(),
        root: "r".to_string(),
        date: 1,
        total: 2,
        folder_count: 3,
    }
}

#[test]
fn deleting_goes_step_by_step() {
    let (id, f) = ("d1", "/s/d1.json");
    assert!(matches!(
        delete_step(id, f, DeleteEvent::FileRemoved),
        DeleteAction::ReadIndex
    ));
    assert!(matches!(
        delete_step(id, f, DeleteEvent::FileMissing),
        DeleteAction::ReadIndex
    ));
    match delete_step(id, f, DeleteEvent::FileStuck("busy".to_string())) {
        DeleteAction::Fail(e) => assert_eq!(message(e), "delete /s/d1.json: busy"),
        other => panic!("unexpected {other:?}"),
    }
    assert!(matches!(
        delete_step(id, f, DeleteEvent::IndexUnreadable),
        DeleteAction::Done
    ));
    assert!(matches!(
        delete_step(id, f, DeleteEvent::IndexCorrupt),
        DeleteAction::Done
    ));
    assert!(matches!(
        delete_step(id, f, DeleteEvent::IndexWritten),
        DeleteAction::Done
    ));
    match delete_step(
        id,
        f,
        DeleteEvent::IndexWriteFailed(CoreError::SnapshotParse("no".to_string())),
    ) {
        DeleteAction::Fail(e) => assert_eq!(message(e), "no"),
        other => panic!("unexpected {other:?}"),
    }
}

#[test]
fn deleting_twice_is_a_noop() {
    let rows = vec![row("d1"), row("d2"), row("D1"), row("d1")];
    let kept = match delete_step("d1", "f", DeleteEvent::IndexRead(rows)) {
        DeleteAction::WriteIndex(kept) => kept,
        other => panic!("unexpected {other:?}"),
    };
    assert_eq!(kept, vec![row("d2"), row("D1")]);
    assert!(matches!(
        delete_step("d1", "f", DeleteEvent::IndexRead(kept)),
        DeleteAction::Done
    ));
}
