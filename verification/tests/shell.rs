//! What the shell commands answer.

use diskbytes_core::scan::categories::FileCategory;
use diskbytes_core::scan::node::{BatchEntry, Node, Tree};
use diskbytes_core::scan::rollup::finalize;
use diskbytes_core::shell::{
    guarded, hover_facts, hover_label, node_display_path, open_node, open_target, open_url, preview_failed,
    preview_source, preview_text, PREVIEW_CAP,
};

fn tree() -> Tree {
    let mut t = Tree::new(5);
    t.add_root_path(0, "/data");
    let mut doc = Node::new_file();
    doc.on_disk = 30;
    doc.set_category(FileCategory::Document);
    let mut cloud = Node::new_file();
    cloud.on_disk = 10;
    cloud.cloud = true;
    cloud.protected = true;
    let entry = |name: &str, node: Node| BatchEntry {
        name: name.encode_utf16().collect(),
        node,
    };
    t.append_batch(
        0,
        vec![
            entry("docs", Node::new_dir()),
            entry("far.bin", cloud),
        ],
    );
    t.append_batch(1, vec![entry("a.txt", doc)]);
    finalize(&mut t);
    t
}

#[test]
fn requests_are_for_the_current_scan() {
    let t = tree();
    assert_eq!(guarded(None, 5, 0).unwrap_err(), "no scan yet");
    assert_eq!(
        guarded(Some(&t), 4, 0).unwrap_err(),
        "stale generation 4 (current 5)"
    );
    assert_eq!(guarded(Some(&t), 5, 10).unwrap_err(), "node 10 not in tree");
    assert_eq!(guarded(Some(&t), 5, 3).unwrap().on_disk, 30);
    assert_eq!(
        guarded(Some(&t), u64::MAX, 0).unwrap_err(),
        "stale generation 18446744073709551615 (current 5)"
    );
}

#[test]
fn paths_are_shown() {
    let t = tree();
    assert_eq!(node_display_path(Some(&t), 5, 3, '/').unwrap(), "/data/docs/a.txt");
    assert_eq!(node_display_path(Some(&t), 5, 2, '/').unwrap(), "/data/far.bin");
    assert_eq!(node_display_path(None, 5, 3, '/').unwrap_err(), "no scan yet");
    assert_eq!(
        node_display_path(Some(&t), 5, 4, '/').unwrap_err(),
        "node 4 not in tree"
    );
}

#[test]
fn cloud_data_is_neither_opened_nor_read() {
    let t = tree();
    assert_eq!(open_node(Some(&t), 5, 3, '/').unwrap(), "/data/docs/a.txt");
    assert_eq!(open_node(Some(&t), 5, 1, '/').unwrap(), "/data/docs");
    assert_eq!(
        open_node(Some(&t), 5, 2, '/').unwrap_err(),
        "Stored in the cloud (not downloaded) — opening is disabled."
    );
    assert_eq!(
        preview_source(Some(&t), 5, 2, '/').unwrap_err(),
        "Stored in the cloud (not downloaded) — preview is disabled."
    );
    assert_eq!(open_node(Some(&t), 6, 2, '/').unwrap_err(), "stale generation 6 (current 5)");
}

#[test]
fn files_alone_have_a_preview() {
    let t = tree();
    assert_eq!(
        preview_source(Some(&t), 5, 1, '/').unwrap_err(),
        "Folders have no text preview."
    );
    let source = preview_source(Some(&t), 5, 3, '/').unwrap();
    assert_eq!(source.path, "/data/docs/a.txt");
    assert_eq!(source.name, "a.txt");
    assert_eq!(preview_source(None, 5, 3, '/').unwrap_err(), "no scan yet");
    assert_eq!(preview_failed("a.txt", "denied"), "Couldn't read a.txt: denied");
}

#[test]
fn previews_are_capped() {
    let p = preview_text("grüße".as_bytes(), 7);
    assert_eq!(p.text, "grüße");
    assert_eq!(p.read, 7);
    assert!(!p.truncated);
    let long = vec![b'x'; PREVIEW_CAP + 10];
    let p = preview_text(&long, long.len() as u64);
    assert_eq!(p.read, PREVIEW_CAP);
    assert_eq!(p.text.len(), PREVIEW_CAP);
    assert!(p.truncated);
    let p = preview_text(&long[..PREVIEW_CAP], PREVIEW_CAP as u64);
    assert!(!p.truncated);
    // Bytes that are no text are replaced.
    let p = preview_text(&[0x61, 0xFF, 0x62], 3);
    assert_eq!(p.text, "a\u{fffd}b");
    assert_eq!(preview_text(&[], 0).text, "");
}

#[test]
fn https_links_alone_are_opened() {
    assert!(open_url("https://example.org/buy").is_ok());
    assert!(open_url("https://").is_ok());
    for url in ["http://example.org", "HTTPS://example.org", "", "https:/", "file:///x"] {
        assert_eq!(open_url(url).unwrap_err(), "only https links can be opened");
    }
}

#[test]
fn recycle_bin_is_the_trash() {
    assert_eq!(open_target("/data/x", Some("/home/me")), "/data/x");
    assert_eq!(
        open_target("shell:RecycleBinFolder", Some("/home/me")),
        "/home/me/.Trash"
    );
    assert_eq!(open_target("shell:RecycleBinFolder", None), "//.Trash");
    assert_eq!(open_target("shell:RecycleBinFolder2", None), "shell:RecycleBinFolder2");
}

#[test]
fn hover_facts_of_files_and_folders() {
    let t = tree();
    let f = hover_facts(Some(&t), 5, 1).unwrap();
    assert_eq!((f.id, f.name.as_str(), f.is_dir), (1, "docs", true));
    assert_eq!((f.size, f.root_total, f.file_count), (30, 40, 1));
    assert_eq!(f.category, FileCategory::Document);
    assert!(!f.is_cloud && !f.is_protected);
    let f = hover_facts(Some(&t), 5, 2).unwrap();
    assert_eq!((f.size, f.file_count), (10, 0));
    assert!(f.is_cloud && f.is_protected && !f.is_dir);
    assert_eq!(f.category, FileCategory::Other);
    assert_eq!(hover_facts(None, 5, 2).unwrap_err(), "no scan yet");
    assert_eq!(
        hover_facts(Some(&t), 5, 3333).unwrap_err(),
        "node 3333 not in tree"
    );
}

#[test]
fn folders_are_called_folders() {
    assert_eq!(hover_label(true, "Video".to_string()), "Folder");
    assert_eq!(hover_label(false, "Video".to_string()), "Video");
}
