//! Taking subtrees out of a tree.

use diskbytes_core::scan::categories::FileCategory;
use diskbytes_core::scan::node::{BatchEntry, Node, Tree};
use diskbytes_core::scan::rollup::finalize;
use diskbytes_core::scan::surgery::{
    fixup_navigation, node_gone, remove_subtrees, RemovedSummary,
};

fn category_of(name: &str) -> FileCategory {
    if name.ends_with(".mp4") {
        FileCategory::Video
    } else if name.ends_with(".txt") {
        FileCategory::Document
    } else if name.ends_with(".dll") {
        FileCategory::Program
    } else if name.ends_with(".sys") {
        FileCategory::System
    } else {
        FileCategory::Other
    }
}

fn dir(name: &str) -> BatchEntry {
    let mut node = Node::new_dir();
    node.modified = 1;
    BatchEntry {
        name: name.encode_utf16().collect(),
        node,
    }
}

fn file(name: &str, size: u64) -> BatchEntry {
    let mut node = Node::new_file();
    node.logical = size;
    node.on_disk = size;
    node.modified = 2;
    node.set_category(category_of(name));
    BatchEntry {
        name: name.encode_utf16().collect(),
        node,
    }
}

fn build() -> Tree {
    let mut t = Tree::new(1);
    t.add_root_path(0, "C:\\S");
    t.append_batch(0, vec![dir("a"), dir("b"), file("root.bin", 10)]);
    t.append_batch(
        1,
        vec![file("a1.mp4", 100), file("a2.txt", 20), dir("deep")],
    );
    t.append_batch(6, vec![file("d1.mp4", 40)]);
    t.append_batch(2, vec![file("b1.bin", 5)]);
    finalize(&mut t);
    t
}

#[test]
fn removes_subtree_and_subtracts_ancestors() {
    let mut t = build();
    // ids: 0 root, 1 a, 2 b, 3 root.bin, 4 a1, 5 a2, 6 deep, 7 d1, 8 b1.
    let s = remove_subtrees(&mut t, &[1]);
    // a, a1, a2, deep, d1 — the whole subtree.
    assert_eq!(s.nodes, 5);
    assert_eq!(s.on_disk, 160);
    assert_eq!(s.files, 3);
    assert_eq!(s.folders, 2); // a + deep
                              // Root totals: 175 → 15.
    let root = t.node(0).unwrap();
    assert_eq!(root.on_disk, 15);
    let root_extra = &t.dir_extras[root.dir_index as usize];
    assert_eq!(root_extra.file_count, 2); // root.bin + b1
    assert_eq!(root_extra.folder_count, 1); // b
                                            // Video type bytes: 140 → 0.
    assert_eq!(
        root_extra.type_sizes[FileCategory::Video.as_bits() as usize],
        0
    );
    // Generation bumped.
    assert_eq!(t.generation, 2);
    // children_sorted no longer lists a.
    let kids = t.children_sorted(0).to_vec();
    assert!(!kids.contains(&1));
    assert!(kids.contains(&2));
}

#[test]
fn nested_roots_absorbed_no_double_subtract() {
    let mut t = build();
    let s = remove_subtrees(&mut t, &[1, 6]); // deep nested inside a
    assert_eq!(s.on_disk, 160); // not 200
    let root = t.node(0).unwrap();
    assert_eq!(root.on_disk, 15);
}

#[test]
fn double_commit_is_noop() {
    let mut t = build();
    let first = remove_subtrees(&mut t, &[1]);
    let again = remove_subtrees(&mut t, &[1]);
    assert_eq!(first.on_disk, 160);
    assert_eq!(again.on_disk, 0);
    assert_eq!(again.nodes, 0);
    // Generation did NOT bump on the no-op.
    assert_eq!(t.generation, 2);
}

#[test]
fn order_rebuilt_sorted_for_survivors() {
    let mut t = build();
    remove_subtrees(&mut t, &[6]); // remove deep only
    let kids = t.children_sorted(1).to_vec(); // a's remaining children
    assert_eq!(kids, vec![4, 5]); // a1 (100) then a2 (20)
                                  // Compact: 8 entries → 6 (deep's slice emptied, root 3 + a 2 + b 1).
    assert_eq!(t.order.len(), 6);
}

#[test]
fn navigation_fixup_walks_up() {
    let mut t = build();
    remove_subtrees(&mut t, &[6]); // deep removed
    assert_eq!(fixup_navigation(&t, 7), 1); // d1 → a survives
    remove_subtrees(&mut t, &[1]); // a removed too
    assert_eq!(fixup_navigation(&t, 4), 0); // a1 → root
    assert_eq!(fixup_navigation(&t, 0), 0); // root stays
}

#[test]
fn gone_detection() {
    let mut t = build();
    remove_subtrees(&mut t, &[2]);
    assert!(node_gone(&t, 2));
    assert!(node_gone(&t, 8)); // b1 inside b
    assert!(!node_gone(&t, 1));
}

/// Files precede folders in every batch, so slots and ids differ.
fn build_files_first() -> Tree {
    let mut t = Tree::new(1);
    t.add_root_path(0, "C:\\S");
    // Batch: file, then dirs — dir_index != arena id from here on.
    t.append_batch(
        0,
        vec![file("pagefile.sys", 30), dir("Program Files"), dir("Users")],
    );
    // ids: 0 root, 1 pagefile, 2 PF (di=1), 3 Users (di=2).
    t.append_batch(2, vec![file("x.dll", 40)]); // 4
    t.append_batch(3, vec![file("y.txt", 100)]); // 5
    finalize(&mut t);
    t
}

/// Removing a file elsewhere leaves every other folder's list alone.
#[test]
fn files_first_tree_survives_unrelated_file_removal() {
    let mut t = build_files_first();
    let before_pf: Vec<u32> = t.children_sorted(2).to_vec();
    let before_users: Vec<u32> = t.children_sorted(3).to_vec();
    assert_eq!(before_pf, vec![4]);
    assert_eq!(before_users, vec![5]);
    let s = remove_subtrees(&mut t, &[5]); // remove Users/y.txt (unrelated to PF)
    assert_eq!(s.nodes, 1);
    // Program Files must still show x.dll.
    assert_eq!(t.children_sorted(2).to_vec(), vec![4]);
    // Users' slice is now empty but VALID (not corrupted).
    assert!(t.children_sorted(3).is_empty());
    // Every folder's slice stays consistent after ANY surgery.
    for id in 0..t.arena.len() as u32 {
        if let Some(n) = t.node(id) {
            if n.is_dir() && !n.is_removed() {
                for &kid in t.children_sorted(id) {
                    let k = t.node(kid).expect("child in range");
                    assert!(!k.is_removed(), "live folder {id} lists removed kid {kid}");
                }
            }
        }
    }
}

/// Removing a folder leaves its siblings' lists alone.
#[test]
fn files_first_all_folders_keep_slices_after_dir_removal() {
    let mut t = build_files_first();
    remove_subtrees(&mut t, &[3]); // remove Users (dir)
    assert_eq!(t.children_sorted(2).to_vec(), vec![4], "PF keeps x.dll");
    assert_eq!(
        t.children_sorted(0).to_vec(),
        vec![2, 1],
        "root keeps PF + pagefile, size-desc"
    );
}

/// Removing a file takes one file off every folder above it.
#[test]
fn file_removal_decrements_ancestor_file_count() {
    let mut t = build_files_first();
    let root_extra = &t.dir_extras[t.node(0).unwrap().dir_index as usize];
    assert_eq!(root_extra.file_count, 3);
    let s = remove_subtrees(&mut t, &[5]); // y.txt
    assert_eq!(s.files, 1, "summary counts the removed file");
    assert_eq!(s.nodes, 1);
    let root_extra = &t.dir_extras[t.node(0).unwrap().dir_index as usize];
    assert_eq!(root_extra.file_count, 2, "root file_count 3 -> 2");
    let users_extra = &t.dir_extras[t.node(3).unwrap().dir_index as usize];
    assert_eq!(users_extra.file_count, 0, "Users file_count 1 -> 0");
}

/// Children that take no space stay listed.
#[test]
fn zero_on_disk_child_survives_surgery() {
    // One batch per parent (tree invariant): x.dll + tiny.dat together.
    let mut t = Tree::new(1);
    t.add_root_path(0, "C:\\S");
    t.append_batch(
        0,
        vec![file("pagefile.sys", 30), dir("Program Files"), dir("Users")],
    );
    // ids: 0 root, 1 pagefile, 2 PF (di=1), 3 Users (di=2).
    let mut tiny = Node::new_file();
    tiny.logical = 12;
    tiny.on_disk = 0; // MFT-resident: on-disk allocation reports 0.
    tiny.set_category(category_of("tiny.dat"));
    t.append_batch(
        2,
        vec![
            file("x.dll", 40),
            BatchEntry {
                name: "tiny.dat".encode_utf16().collect(),
                node: tiny,
            },
        ],
    );
    // id 4 = x.dll, 5 = tiny.dat, 6 = y.txt
    t.append_batch(3, vec![file("y.txt", 100)]);
    finalize(&mut t);
    let before: Vec<u32> = t.children_sorted(2).to_vec();
    assert_eq!(before.len(), 2, "PF has x.dll + tiny.dat after rollup");
    remove_subtrees(&mut t, &[6]); // unrelated removal in Users
    let after = t.children_sorted(2).to_vec();
    assert_eq!(after.len(), 2, "zero-on_disk tiny.dat must NOT be dropped");
    assert!(after.contains(&5), "tiny.dat (id 5) still listed");
}

/// The scan root is never removed.
#[test]
fn root_removal_is_rejected() {
    let mut t = build();
    let s = remove_subtrees(&mut t, &[0]);
    assert_eq!(s.nodes, 0);
    assert_eq!(s.on_disk, 0);
    assert_eq!(t.generation, 1, "no-op must not bump generation");
    assert!(!t.node(0).unwrap().is_removed());
    // And the whole family is still there.
    assert_eq!(t.children_sorted(0).len(), 3);
}

/// A folder that shrinks below its sibling changes places with it.
#[test]
fn shrunken_folder_is_listed_behind_larger_sibling() {
    let mut t = Tree::new(7);
    t.append_batch(0, vec![dir("big"), dir("small"), file("mid.bin", 50)]);
    t.append_batch(1, vec![file("x.mp4", 100), file("y.bin", 10)]);
    t.append_batch(2, vec![file("z.bin", 30)]);
    finalize(&mut t);
    assert_eq!(t.children_sorted(0).to_vec(), vec![1, 3, 2]);
    let s = remove_subtrees(&mut t, &[4]);
    assert_eq!(s.nodes, 1);
    assert_eq!(t.node(1).unwrap().on_disk, 10);
    assert_eq!(t.children_sorted(0).to_vec(), vec![3, 2, 1]);
    assert_eq!(t.children_sorted(1).to_vec(), vec![5]);
}

/// The scan root shrinks by what the summary reports, in every measure.
#[test]
fn root_shrinks_by_summary() {
    let before = build();
    let mut t = before.clone();
    let s = remove_subtrees(&mut t, &[6, 8, 3]);
    assert_eq!(
        s,
        RemovedSummary {
            nodes: 4,
            on_disk: 55,
            logical: 55,
            files: 3,
            folders: 1,
        }
    );
    let (b, a) = (before.node(0).unwrap(), t.node(0).unwrap());
    assert_eq!(a.on_disk, b.on_disk - s.on_disk);
    assert_eq!(a.logical, b.logical - s.logical);
    let (be, ae) = (before.dir_extras[0], t.dir_extras[0]);
    assert_eq!(ae.file_count, be.file_count - s.files);
    assert_eq!(ae.folder_count, be.folder_count - s.folders);
    assert_eq!(
        ae.type_sizes[FileCategory::Video.as_bits() as usize],
        be.type_sizes[FileCategory::Video.as_bits() as usize] - 40
    );
}

/// What is left is what rolling up the survivors alone gives.
#[test]
fn totals_are_those_of_the_survivors() {
    let mut t = build();
    remove_subtrees(&mut t, &[4, 2]);
    // Left: a (a2 20, deep (d1 40)), root.bin 10.
    assert_eq!(t.node(0).unwrap().on_disk, 70);
    assert_eq!(t.node(1).unwrap().on_disk, 60);
    assert_eq!(t.node(6).unwrap().on_disk, 40);
    assert_eq!(t.dir_extras[0].file_count, 3);
    assert_eq!(t.dir_extras[0].folder_count, 2);
    assert_eq!(t.children_sorted(0).to_vec(), vec![1, 3]);
    assert_eq!(t.children_sorted(1).to_vec(), vec![6, 5]);
}

/// Which of two nested roots is named first makes no difference.
#[test]
fn nested_roots_in_any_order() {
    let mut one = build();
    let mut other = build();
    let mut alone = build();
    let a = remove_subtrees(&mut one, &[6, 7, 1, 1]);
    let b = remove_subtrees(&mut other, &[1, 6]);
    let c = remove_subtrees(&mut alone, &[1]);
    assert_eq!(a, b);
    assert_eq!(b, c);
    assert_eq!(one, other);
    assert_eq!(other, alone);
}

/// Unknown ids are passed over.
#[test]
fn unknown_ids_are_ignored() {
    let before = build();
    let mut t = before.clone();
    assert_eq!(remove_subtrees(&mut t, &[]), RemovedSummary::default());
    assert_eq!(
        remove_subtrees(&mut t, &[9, u32::MAX, 0]),
        RemovedSummary::default()
    );
    assert_eq!(t, before);
    assert!(node_gone(&t, 9));
    assert_eq!(fixup_navigation(&t, 9), 0);
    assert_eq!(fixup_navigation(&t, u32::MAX), 0);
}

/// Ids stay: the arena keeps removed nodes, and they stay removed.
#[test]
fn ids_are_never_reused() {
    let mut t = build();
    remove_subtrees(&mut t, &[1]);
    remove_subtrees(&mut t, &[2]);
    assert_eq!(t.len(), 9);
    assert_eq!(t.generation, 3);
    for id in [1u32, 4, 5, 6, 7, 2, 8] {
        assert!(node_gone(&t, id));
    }
    assert_eq!(t.name(4), "a1.mp4");
    assert_eq!(t.order, vec![3]);
}

/// The generation stays at its end.
#[test]
fn generation_saturates() {
    let mut t = build();
    t.generation = u64::MAX;
    assert_eq!(remove_subtrees(&mut t, &[3]).nodes, 1);
    assert_eq!(t.generation, u64::MAX);
}

/// Totals that overflowed are saturated, and subtracting stops at zero.
#[test]
fn saturated_totals_stop_at_zero() {
    let mut t = Tree::new(1);
    t.append_batch(
        0,
        vec![file("x.bin", u64::MAX), file("y.bin", u64::MAX), file("z.bin", 1)],
    );
    finalize(&mut t);
    assert_eq!(t.node(0).unwrap().on_disk, u64::MAX);
    let s = remove_subtrees(&mut t, &[1]);
    assert_eq!(s.on_disk, u64::MAX);
    assert_eq!(t.node(0).unwrap().on_disk, 0);
    assert_eq!(t.children_sorted(0).to_vec(), vec![2, 3]);
}

/// Order, repeats and nodes below a root make no difference.
#[test]
fn lists_with_the_same_closure_do_the_same() {
    let mut plain = build();
    let expected = remove_subtrees(&mut plain, &[2, 6]);
    for roots in [
        vec![6u32, 2],
        vec![2, 6, 2, 6],
        vec![7, 8, 6, 2],
        vec![6, 0, 99, 7, 2, 8, 2],
    ] {
        let mut t = build();
        assert_eq!(remove_subtrees(&mut t, &roots), expected);
        assert_eq!(t, plain);
    }
}

/// Two surgeries add up to one on both lists.
#[test]
fn surgeries_add_up() {
    for (a, b) in [
        (vec![4u32], vec![8u32]),
        (vec![7], vec![1]),
        (vec![1], vec![7, 5]),
        (vec![6, 3], vec![6, 2]),
        (vec![], vec![1]),
    ] {
        let mut steps = build();
        let first = remove_subtrees(&mut steps, &a);
        let second = remove_subtrees(&mut steps, &b);
        let mut whole = build();
        let all: Vec<u32> = a.iter().chain(b.iter()).copied().collect();
        let both = remove_subtrees(&mut whole, &all);
        assert_eq!(both.nodes, first.nodes + second.nodes);
        assert_eq!(both.on_disk, first.on_disk + second.on_disk);
        assert_eq!(both.logical, first.logical + second.logical);
        assert_eq!(both.files, first.files + second.files);
        assert_eq!(both.folders, first.folders + second.folders);
        for id in 0..whole.len() as u32 {
            let (x, y) = (whole.node(id).unwrap(), steps.node(id).unwrap());
            assert_eq!(x.is_removed(), y.is_removed());
            if x.is_removed() {
                continue;
            }
            assert_eq!((x.on_disk, x.logical), (y.on_disk, y.logical));
            if x.is_dir() {
                let (e, f) = (
                    &whole.dir_extras[x.dir_index as usize],
                    &steps.dir_extras[y.dir_index as usize],
                );
                assert_eq!((e.file_count, e.folder_count), (f.file_count, f.folder_count));
                assert_eq!(e.type_sizes, f.type_sizes);
            }
        }
    }
}

/// The latest change below a folder outlives what was changed.
#[test]
fn latest_changes_stay_after_surgery() {
    let mut newest = file("new.bin", 5);
    newest.node.modified = 77;
    let mut t = Tree::new(1);
    t.append_batch(0, vec![dir("a"), file("f", 1)]);
    t.append_batch(1, vec![newest, file("g", 1)]);
    finalize(&mut t);
    let latest = |t: &Tree| {
        t.dir_extras
            .iter()
            .map(|e| e.max_descendant_modified)
            .collect::<Vec<i64>>()
    };
    assert_eq!(latest(&t), vec![77, 77]);
    assert_eq!(remove_subtrees(&mut t, &[3]).nodes, 1);
    assert_eq!(latest(&t), vec![77, 77]);
    assert_eq!(remove_subtrees(&mut t, &[1]).nodes, 2);
    assert_eq!(latest(&t), vec![77, 77]);
}
