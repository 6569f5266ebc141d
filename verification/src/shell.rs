//! What the shell commands decide: whether a request is answered, with which
//! path, and with which words it is refused.
//!
//! Files whose data is stored in the cloud only are never opened or read.

use crate::lexical::{same_text, starts_with};
use crate::scan::categories::FileCategory;
use crate::scan::node::{Node, Tree};
use crate::scan::totals::is_dominant;
use crate::text::{decimal, from_utf8, push_decimal, utf16_text, utf8_text};
use vstd::prelude::*;

verus! {

/// A preview shows no more bytes than this.
pub const PREVIEW_CAP: usize = 65536;

/// The beginning of a file as text.
#[derive(Debug, Clone)]
pub struct TextPreview {
    /// The text.
    pub text: String,
    /// The file is longer than what is shown.
    pub truncated: bool,
    /// Number of bytes shown.
    pub read: usize,
}

/// A file that may be read for a preview.
#[derive(Debug, Clone)]
pub struct PreviewSource {
    /// Path of the file.
    pub path: String,
    /// Name of the file.
    pub name: String,
}

/// What is shown of a node that is pointed at.
#[derive(Debug, Clone)]
pub struct HoverFacts {
    /// The node.
    pub id: u32,
    /// Its name.
    pub name: String,
    /// True for folders.
    pub is_dir: bool,
    /// Allocated bytes.
    pub size: u64,
    /// Allocated bytes of the whole scan.
    pub root_total: u64,
    /// Files below a folder; 0 for files.
    pub file_count: u64,
    /// True for files whose data is stored in the cloud only.
    pub is_cloud: bool,
    /// True for items that must not be offered for removal.
    pub is_protected: bool,
    /// Kind of data; for a folder the kind that prevails in it.
    pub category: FileCategory,
}

/// Why a request for node `id` of scan `generation` is refused, if it is.
pub open spec fn guard_error(tree: Option<&Tree>, generation: u64, id: u32) -> Option<Seq<char>> {
    match tree {
        None => Some("no scan yet"@),
        Some(t) => if t.generation != generation {
            Some(
                "stale generation "@ + decimal(generation as nat) + " (current "@ + decimal(
                    t.generation as nat,
                ) + ")"@,
            )
        } else if id >= t.count() {
            Some("node "@ + decimal(id as nat) + " not in tree"@)
        } else {
            None
        },
    }
}

/// The node that a request asks for, if the request is for the current scan.
pub fn guarded(tree: Option<&Tree>, generation: u64, id: u32) -> (node: Result<&Node, String>)
    ensures
        match node {
            Ok(n) => guard_error(tree, generation, id) is None && *n
                == tree->0.arena@[id as int],
            Err(message) => guard_error(tree, generation, id) == Some(message@),
        },
{
    let t: &Tree = match tree {
        Some(t) => t,
        None => {
            return Err("no scan yet".to_owned());
        },
    };
    if t.generation != generation {
        let mut message: String = "stale generation ".to_owned();
        push_decimal(&mut message, generation);
        message.append(" (current ");
        push_decimal(&mut message, t.generation);
        message.append(")");
        return Err(message);
    }
    match t.node(id) {
        Some(node) => Ok(node),
        None => {
            let mut message: String = "node ".to_owned();
            push_decimal(&mut message, id as u64);
            message.append(" not in tree");
            Err(message)
        },
    }
}

/// The path of a node of the current scan.
pub fn node_display_path(tree: Option<&Tree>, generation: u64, id: u32, separator: char) -> (path:
    Result<String, String>)
    ensures
        match path {
            Ok(p) => guard_error(tree, generation, id) is None && p@ == tree->0.path_text(
                id as int,
                separator,
            ),
            Err(message) => guard_error(tree, generation, id) == Some(message@),
        },
{
    match guarded(tree, generation, id) {
        Ok(_) => match tree {
            Some(t) => Ok(t.node_path(id, separator)),
            None => Err("no scan yet".to_owned()),
        },
        Err(message) => Err(message),
    }
}

/// Why a node is not opened, if it is not.
pub open spec fn open_error(tree: Option<&Tree>, generation: u64, id: u32) -> Option<Seq<char>> {
    match guard_error(tree, generation, id) {
        Some(message) => Some(message),
        None => if tree->0.arena@[id as int].cloud {
            Some("Stored in the cloud (not downloaded) — opening is disabled."@)
        } else {
            None
        },
    }
}

/// The path to open for a node.
pub fn open_node(tree: Option<&Tree>, generation: u64, id: u32, separator: char) -> (path: Result<
    String,
    String,
>)
    ensures
        match path {
            Ok(p) => open_error(tree, generation, id) is None && p@ == tree->0.path_text(
                id as int,
                separator,
            ),
            Err(message) => open_error(tree, generation, id) == Some(message@),
        },
{
    match guarded(tree, generation, id) {
        Ok(node) => {
            if node.is_cloud_placeholder() {
                return Err(
                    "Stored in the cloud (not downloaded) — opening is disabled.".to_owned(),
                );
            }
            node_display_path(tree, generation, id, separator)
        },
        Err(message) => Err(message),
    }
}

/// Why a node has no preview, if it has none.
pub open spec fn preview_error(tree: Option<&Tree>, generation: u64, id: u32) -> Option<Seq<char>> {
    match guard_error(tree, generation, id) {
        Some(message) => Some(message),
        None => if tree->0.arena@[id as int].cloud {
            Some("Stored in the cloud (not downloaded) — preview is disabled."@)
        } else if tree->0.arena@[id as int].dir {
            Some("Folders have no text preview."@)
        } else {
            None
        },
    }
}

/// The file to read for a preview of a node.
pub fn preview_source(tree: Option<&Tree>, generation: u64, id: u32, separator: char) -> (source:
    Result<PreviewSource, String>)
    ensures
        match source {
            Ok(s) => {
                &&& preview_error(tree, generation, id) is None
                &&& s.path@ == tree->0.path_text(id as int, separator)
                &&& s.name@ == utf16_text(tree->0.name_units(id as int))
            },
            Err(message) => preview_error(tree, generation, id) == Some(message@),
        },
{
    match guarded(tree, generation, id) {
        Ok(node) => {
            if node.is_cloud_placeholder() {
                return Err(
                    "Stored in the cloud (not downloaded) — preview is disabled.".to_owned(),
                );
            }
            if node.is_dir() {
                return Err("Folders have no text preview.".to_owned());
            }
            match tree {
                Some(t) => Ok(
                    PreviewSource { path: t.node_path(id, separator), name: t.name(id) },
                ),
                None => Err("no scan yet".to_owned()),
            }
        },
        Err(message) => Err(message),
    }
}

/// The preview of a file of `file_len` bytes of which `bytes` were read.
pub fn preview_text(bytes: &[u8], file_len: u64) -> (preview: TextPreview)
    ensures
        preview.read == if bytes@.len() < PREVIEW_CAP {
            bytes@.len()
        } else {
            PREVIEW_CAP as nat
        },
        preview.truncated == (file_len > PREVIEW_CAP),
        preview.text@ == utf8_text(bytes@.take(preview.read as int)),
{
    let read: usize = if bytes.len() < PREVIEW_CAP {
        bytes.len()
    } else {
        PREVIEW_CAP
    };
    let shown: &[u8] = vstd::slice::slice_subrange(bytes, 0, read);
    TextPreview { text: from_utf8(shown), truncated: file_len > PREVIEW_CAP as u64, read }
}

/// The words for a file that could not be read.
pub fn preview_failed(name: &str, reason: &str) -> (message: String)
    ensures
        message@ == "Couldn't read "@ + name@ + ": "@ + reason@,
{
    let mut message: String = "Couldn't read ".to_owned();
    message.append(name);
    message.append(": ");
    message.append(reason);
    message
}

/// A link that is opened starts with "https://"; any other is refused.
pub fn open_url(url: &str) -> (answer: Result<(), String>)
    ensures
        match answer {
            Ok(_) => "https://"@.is_prefix_of(url@),
            Err(message) => !"https://"@.is_prefix_of(url@) && message@
                == "only https links can be opened"@,
        },
{
    if !starts_with(url, "https://") {
        return Err("only https links can be opened".to_owned());
    }
    Ok(())
}

/// What is opened for a path: the path itself, or the trash of the home
/// directory where the path stands for the recycle bin.
pub fn open_target(path: &str, home: Option<&str>) -> (target: String)
    ensures
        target@ == if path@ == "shell:RecycleBinFolder"@ {
            (match home {
                Some(directory) => directory@,
                None => "/"@,
            }) + "/.Trash"@
        } else {
            path@
        },
{
    if same_text(path, "shell:RecycleBinFolder") {
        let mut target: String = match home {
            Some(directory) => directory.to_owned(),
            None => "/".to_owned(),
        };
        target.append("/.Trash");
        target
    } else {
        path.to_owned()
    }
}

/// What is shown of a node of the current scan that is pointed at.
pub fn hover_facts(tree: Option<&Tree>, generation: u64, id: u32) -> (facts: Result<
    HoverFacts,
    String,
>)
    requires
        tree matches Some(t) ==> t.shaped(),
    ensures
        match facts {
            Ok(f) => {
                let t = *tree->0;
                let node = t.arena@[id as int];
                &&& guard_error(tree, generation, id) is None
                &&& f.id == id
                &&& f.name@ == utf16_text(t.name_units(id as int))
                &&& f.is_dir == node.dir
                &&& f.size == node.on_disk
                &&& f.root_total == t.arena@[0].on_disk
                &&& f.file_count == if node.dir {
                    t.extra(id as int).file_count
                } else {
                    0
                }
                &&& f.is_cloud == node.cloud
                &&& f.is_protected == node.protected
                &&& if node.dir {
                    is_dominant(t, id as int, f.category)
                } else {
                    f.category == node.category
                }
            },
            Err(message) => guard_error(tree, generation, id) == Some(message@),
        },
{
    match guarded(tree, generation, id) {
        Ok(node) => match tree {
            Some(t) => {
                assert(t.slotted(id as int));
                let file_count: u64 = if node.dir {
                    t.dir_extras[node.dir_index as usize].file_count
                } else {
                    0
                };
                Ok(
                    HoverFacts {
                        id,
                        name: t.name(id),
                        is_dir: node.dir,
                        size: node.on_disk,
                        root_total: t.arena[t.root as usize].on_disk,
                        file_count,
                        is_cloud: node.cloud,
                        is_protected: node.protected,
                        category: t.dominant_category(id),
                    },
                )
            },
            None => Err("no scan yet".to_owned()),
        },
        Err(message) => Err(message),
    }
}

/// The words for the kind of a node: folders are called that, files by their kind
/// of data.
pub fn hover_label(is_dir: bool, label: String) -> (text: String)
    ensures
        text@ == if is_dir {
            "Folder"@
        } else {
            label@
        },
{
    if is_dir {
        "Folder".to_owned()
    } else {
        label
    }
}

/// Data that is stored in the cloud only is neither opened nor read.
pub proof fn law_cloud_is_refused(tree: Tree, generation: u64, id: u32)
    requires
        id < tree.count(),
        tree.arena@[id as int].cloud,
    ensures
        open_error(Some(&tree), generation, id) is Some,
        preview_error(Some(&tree), generation, id) is Some,
{
}

/// A request for another scan than the current one is refused by every command.
pub proof fn law_stale_is_refused(tree: Tree, generation: u64, id: u32)
    requires
        tree.generation != generation,
    ensures
        guard_error(Some(&tree), generation, id) is Some,
        open_error(Some(&tree), generation, id) is Some,
        preview_error(Some(&tree), generation, id) is Some,
{
}

/// A request is answered exactly when there is a scan, it is the one that the
/// request is for, and it has the node. Opening and preview refuse for the same
/// reasons and with the same words; besides, nothing in the cloud is opened or
/// read, and folders are not read.
pub proof fn law_requests_are_answered_when_current(
    tree: Option<&Tree>,
    generation: u64,
    id: u32,
)
    ensures
        guard_error(tree, generation, id) is None <==> tree is Some && tree->0.generation
            == generation && id < tree->0.arena@.len(),
        guard_error(tree, generation, id) is Some ==> open_error(tree, generation, id)
            == guard_error(tree, generation, id) && preview_error(tree, generation, id)
            == guard_error(tree, generation, id),
        open_error(tree, generation, id) is None <==> guard_error(tree, generation, id) is None
            && !tree->0.arena@[id as int].cloud,
        preview_error(tree, generation, id) is None <==> guard_error(tree, generation, id) is None
            && !tree->0.arena@[id as int].cloud && !tree->0.arena@[id as int].dir,
{
}

/// Each refusal says why: that there is no scan; which scan was asked for and which
/// is current; which node is not there; that the data is in the cloud; that a folder
/// has no text.
pub proof fn law_refusals_say_why(tree: Tree, generation: u64, id: u32)
    ensures
        guard_error(None, generation, id) == Some("no scan yet"@),
        tree.generation != generation ==> guard_error(Some(&tree), generation, id) == Some(
            "stale generation "@ + decimal(generation as nat) + " (current "@ + decimal(
                tree.generation as nat,
            ) + ")"@,
        ),
        tree.generation == generation && id >= tree.arena@.len() ==> guard_error(
            Some(&tree),
            generation,
            id,
        ) == Some("node "@ + decimal(id as nat) + " not in tree"@),
        tree.generation == generation && id < tree.arena@.len() && tree.arena@[id as int].cloud ==> {
            &&& open_error(Some(&tree), generation, id) == Some(
                "Stored in the cloud (not downloaded) — opening is disabled."@,
            )
            &&& preview_error(Some(&tree), generation, id) == Some(
                "Stored in the cloud (not downloaded) — preview is disabled."@,
            )
        },
        tree.generation == generation && id < tree.arena@.len() && !tree.arena@[id as int].cloud
            && tree.arena@[id as int].dir ==> preview_error(Some(&tree), generation, id) == Some(
            "Folders have no text preview."@,
        ),
{
}

/// A preview shows no more than the first 64 KiB.
pub proof fn law_preview_is_capped()
    ensures
        PREVIEW_CAP == 64 * 1024,
{
}

} // verus!
