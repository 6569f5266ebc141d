//! Building a tree, rolling it up, and reading it.

use diskbytes_core::scan::categories::FileCategory;
use diskbytes_core::scan::node::{BatchEntry, Node, Tree, NONE};
use diskbytes_core::scan::rollup::finalize;

fn entry(name: &str, dir: bool, on_disk: u64, category: FileCategory) -> BatchEntry {
    let mut node = if dir { Node::new_dir() } else { Node::new_file() };
    node.on_disk = on_disk;
    node.logical = on_disk / 2;
    node.set_category(category);
    BatchEntry {
        name: name.encode_utf16().collect(),
        node,
    }
}

fn dir(name: &str) -> BatchEntry {
    entry(name, true, 0, FileCategory::Other)
}

fn file(name: &str, on_disk: u64) -> BatchEntry {
    entry(name, false, on_disk, FileCategory::Other)
}

/// Sums over the subtree, node by node: bytes on disk, logical bytes, files and
/// folders.
fn sum_subtree(t: &Tree, id: u32) -> (u64, u64, u64, u64) {
    let n = t.node(id).unwrap();
    if !n.is_dir() {
        return (n.on_disk, n.logical, 1, 0);
    }
    let (mut od, mut lg, mut f, mut d) = (0u64, 0u64, 0u64, 0u64);
    for &kid in t.children_sorted(id) {
        let (kod, klg, kf, kd) = sum_subtree(t, kid);
        od = od.saturating_add(kod);
        lg = lg.saturating_add(klg);
        f = f.saturating_add(kf);
        d = d.saturating_add(kd);
        if t.node(kid).unwrap().is_dir() {
            d = d.saturating_add(1);
        }
    }
    (od, lg, f, d)
}

fn random_tree(seed: u64, fan: u32) -> Tree {
    let mut s = seed.wrapping_mul(0x9E37_79B9_7F4A_7C15).wrapping_add(1);
    let mut next = || {
        s = s
            .wrapping_mul(6_364_136_223_846_793_005)
            .wrapping_add(1_442_695_040_888_963_407);
        s >> 33
    };
    let mut t = Tree::new(1);
    t.add_root_path(0, "C:\\prop");
    let mut open: Vec<u32> = vec![0];
    while let Some(parent) = open.pop() {
        if t.len() > 400 {
            break;
        }
        let mut batch: Vec<BatchEntry> = Vec::new();
        for i in 0..(next() % u64::from(fan)) {
            let d = next();
            if d % 3 == 0 {
                batch.push(dir(&format!("d{i}")));
            } else {
                batch.push(file(&format!("f{i}"), d % 5000));
            }
        }
        let dirs: Vec<bool> = batch.iter().map(|e| e.node.is_dir()).collect();
        let base = t.append_batch(parent, batch);
        for (i, is_dir) in dirs.into_iter().enumerate() {
            if is_dir {
                open.push(base + i as u32);
            }
        }
    }
    finalize(&mut t);
    t
}

#[test]
fn new_tree_holds_its_root() {
    let t = Tree::new(42);
    assert_eq!(t.len(), 1);
    assert_eq!(t.generation, 42);
    let root = t.node(0).unwrap();
    assert!(root.is_dir());
    assert!(!root.is_removed());
    assert_eq!(root.parent, NONE);
    assert_eq!(root.dir_index, 0);
    assert!(t.node(1).is_none());
    assert!(t.children_sorted(0).is_empty());
}

#[test]
fn batches_get_ids_in_a_row() {
    let mut t = Tree::new(1);
    assert_eq!(t.append_batch(0, vec![file("a", 1), dir("b"), dir("c")]), 1);
    assert_eq!(t.append_batch(3, vec![file("d", 2)]), 4);
    assert_eq!(t.append_batch(2, vec![]), 5);
    assert_eq!(t.len(), 5);
    assert_eq!(t.node(0).unwrap().first_child, 1);
    assert_eq!(t.node(0).unwrap().child_count, 3);
    assert_eq!(t.node(3).unwrap().first_child, 4);
    assert_eq!(t.node(2).unwrap().child_count, 0);
    assert_eq!(t.node(4).unwrap().parent, 3);
    // Slots count folders alone.
    assert_eq!(t.node(1).unwrap().dir_index, NONE);
    assert_eq!(t.node(2).unwrap().dir_index, 1);
    assert_eq!(t.node(3).unwrap().dir_index, 2);
    assert_eq!(t.dir_extras.len(), 3);
}

#[test]
fn parents_come_first_and_children_together() {
    for seed in 0..20 {
        let t = random_tree(seed, 12);
        for id in 1..t.len() as u32 {
            let n = t.node(id).unwrap();
            assert!(n.parent < id);
            let p = t.node(n.parent).unwrap();
            assert!(p.first_child <= id && id < p.first_child + p.child_count);
        }
    }
}

#[test]
fn totals_equal_subtree_sums() {
    for seed in 0..20 {
        let t = random_tree(seed, 12);
        for id in 0..t.len() as u32 {
            let n = t.node(id).unwrap();
            if !n.is_dir() {
                continue;
            }
            let extra = &t.dir_extras[n.dir_index as usize];
            assert_eq!(
                (n.on_disk, n.logical, extra.file_count, extra.folder_count),
                sum_subtree(&t, id)
            );
            assert_eq!(extra.type_sizes.iter().sum::<u64>(), n.on_disk);
        }
    }
}

#[test]
fn children_are_sorted_and_complete() {
    for seed in 0..20 {
        let t = random_tree(seed, 16);
        for id in 0..t.len() as u32 {
            let n = t.node(id).unwrap();
            let kids = t.children_sorted(id);
            assert_eq!(kids.len(), n.child_count as usize);
            for w in kids.windows(2) {
                let (a, b) = (t.node(w[0]).unwrap(), t.node(w[1]).unwrap());
                assert!(a.on_disk > b.on_disk || (a.on_disk == b.on_disk && w[0] < w[1]));
            }
        }
    }
}

#[test]
fn rollup_by_category() {
    let mut t = Tree::new(1);
    t.append_batch(
        0,
        vec![
            entry("v", false, 10, FileCategory::Video),
            entry("w", false, 30, FileCategory::Video),
            entry("a", false, 35, FileCategory::Archive),
            dir("d"),
        ],
    );
    t.append_batch(4, vec![entry("x", false, 20, FileCategory::Archive)]);
    finalize(&mut t);
    let sizes = t.dir_extras[0].type_sizes;
    assert_eq!(sizes[FileCategory::Video.as_bits() as usize], 40);
    assert_eq!(sizes[FileCategory::Archive.as_bits() as usize], 55);
    assert_eq!(t.dominant_category(0), FileCategory::Archive);
    assert_eq!(t.dominant_category(1), FileCategory::Video);
    assert_eq!(t.dominant_category(4), FileCategory::Archive);
    assert_eq!(t.dominant_category(99), FileCategory::Other);
    // Of equals the first prevails; nothing at all is the first too.
    assert_eq!(Tree::new(1).dominant_category(0), FileCategory::Video);
    for bits in 0..9u8 {
        assert_eq!(FileCategory::from_bits(bits).as_bits(), bits);
    }
    assert_eq!(FileCategory::from_bits(200), FileCategory::Other);
}

#[test]
fn rollup_saturates() {
    let mut t = Tree::new(1);
    t.append_batch(0, vec![dir("d"), file("x", u64::MAX)]);
    t.append_batch(1, vec![file("y", u64::MAX), file("z", 3)]);
    finalize(&mut t);
    assert_eq!(t.node(1).unwrap().on_disk, u64::MAX);
    assert_eq!(t.node(0).unwrap().on_disk, u64::MAX);
    assert_eq!(t.dir_extras[0].file_count, 3);
    assert_eq!(t.dir_extras[0].folder_count, 1);
    assert_eq!(t.node(0).unwrap().logical, (u64::MAX / 2) * 2 + 1);
}

#[test]
fn ancestors_are_found() {
    let mut t = Tree::new(1);
    t.append_batch(0, vec![dir("a"), dir("b")]);
    t.append_batch(1, vec![dir("c")]);
    assert!(t.is_descendant_of(3, 3));
    assert!(t.is_descendant_of(3, 1));
    assert!(t.is_descendant_of(3, 0));
    assert!(!t.is_descendant_of(3, 2));
    assert!(!t.is_descendant_of(1, 3));
    assert!(!t.is_descendant_of(0, NONE));
}

#[test]
fn names_and_paths() {
    let mut t = Tree::new(1);
    t.add_root_path(0, "C:\\");
    t.append_batch(0, vec![dir("Users"), file("\u{1d11e}.txt", 1)]);
    t.append_batch(1, vec![file("me", 2)]);
    assert_eq!(t.name(1), "Users");
    assert_eq!(t.name(2), "\u{1d11e}.txt");
    assert_eq!(t.name_u16(3), "me".encode_utf16().collect::<Vec<u16>>());
    assert_eq!(t.name(0), "");
    assert_eq!(t.name(77), "");
    assert!(t.name_u16(77).is_empty());
    assert_eq!(t.node_path(0, '\\'), "C:\\");
    assert_eq!(t.node_path(1, '\\'), "C:\\Users");
    assert_eq!(t.node_path(3, '\\'), "C:\\Users\\me");
    assert_eq!(t.node_path(3, '/'), "C:\\/Users/me");
    // A path that was named for a node below the root is used for what is in it.
    t.add_root_path(1, "/home");
    t.add_root_path(1, "/elsewhere");
    assert_eq!(t.node_path(3, '/'), "/home/me");
}

#[test]
fn half_a_pair_is_replaced_in_names() {
    let mut t = Tree::new(1);
    let entry = BatchEntry {
        name: vec![0xD834, 0xDD1E, 0x6D, 0xDD1E, 0x69, 0xD834],
        node: Node::new_file(),
    };
    t.append_batch(0, vec![entry]);
    assert_eq!(t.name(1), "\u{1d11e}m\u{fffd}i\u{fffd}");
}

#[test]
fn node_flags() {
    let mut n = Node::new_file();
    assert!(!n.is_dir() && !n.is_removed() && !n.is_cloud_placeholder() && !n.is_protected());
    n.cloud = true;
    n.protected = true;
    n.set_removed(true);
    assert!(n.is_cloud_placeholder() && n.is_protected() && n.is_removed());
    n.set_category(FileCategory::Code);
    assert_eq!(n.category(), FileCategory::Code);
}

/// A folder stores the latest change below it, its own time not counted.
#[test]
fn latest_changes_are_rolled_up() {
    let at = |mut e: BatchEntry, modified: i64| {
        e.node.modified = modified;
        e
    };
    let mut t = Tree::new(1);
    t.append_batch(0, vec![at(dir("a"), 900), at(dir("b"), 10), at(file("x", 1), 5)]);
    t.append_batch(1, vec![at(file("y", 1), 70), at(dir("deep"), 20), at(file("z", 1), -3)]);
    t.append_batch(5, vec![at(file("w", 1), 300)]);
    t.append_batch(2, vec![at(file("old", 1), -8)]);
    finalize(&mut t);
    let latest = |t: &Tree, id: u32| {
        t.dir_extras[t.node(id).unwrap().dir_index as usize].max_descendant_modified
    };
    assert_eq!(latest(&t, 0), 900);
    assert_eq!(latest(&t, 1), 300);
    assert_eq!(latest(&t, 5), 300);
    // Nothing below was changed after the epoch.
    assert_eq!(latest(&t, 2), 0);
}
