//! The arena tree of one scan.
//!
//! Nodes live in one vector and are named by their index. A parent always
//! precedes its children, the children of a node are contiguous, and ids are
//! never reused: a removed node is flagged and stays. Folders own a slot of
//! [`DirExtra`] with the totals of what lies below them and with their slice
//! of `order`, which lists their children largest first.

use crate::scan::categories::FileCategory;
use vstd::prelude::*;

verus! {

/// The id that stands for "no node" and the slot that stands for "no slot".
pub const NONE: u32 = u32::MAX;

/// One file or folder.
#[derive(Debug, Clone, Copy, PartialEq, Eq, Structural)]
pub struct Node {
    /// Id of the parent; [`NONE`] for the root.
    pub parent: u32,
    /// Id of the first child (meaningful when there are children).
    pub first_child: u32,
    /// Number of children.
    pub child_count: u32,
    /// Slot in `dir_extras`; [`NONE`] for files.
    pub dir_index: u32,
    /// Logical size in bytes; for a folder the total below it.
    pub logical: u64,
    /// Allocated size in bytes; for a folder the total below it.
    pub on_disk: u64,
    /// Unix seconds of the last change.
    pub modified: i64,
    /// Start of the name in `names`.
    pub name_start: usize,
    /// End of the name in `names`.
    pub name_end: usize,
    /// Kind of data (files).
    pub category: FileCategory,
    /// True for folders.
    pub dir: bool,
    /// True once the node was removed.
    pub removed: bool,
    /// True for files whose data is stored in the cloud only.
    pub cloud: bool,
    /// True for items that must not be offered for removal.
    pub protected: bool,
}

impl Node {
    /// A folder without content, not yet in a tree.
    pub fn new_dir() -> (node: Self)
        ensures
            node == Self::blank(true),
    {
        Node {
            parent: NONE,
            first_child: 0,
            child_count: 0,
            dir_index: NONE,
            logical: 0,
            on_disk: 0,
            modified: 0,
            name_start: 0,
            name_end: 0,
            category: FileCategory::Other,
            dir: true,
            removed: false,
            cloud: false,
            protected: false,
        }
    }

    /// An empty file, not yet in a tree.
    pub fn new_file() -> (node: Self)
        ensures
            node == Self::blank(false),
    {
        let mut node = Node::new_dir();
        node.dir = false;
        node
    }

    /// A node without content that is in no tree.
    pub open spec fn blank(dir: bool) -> Self {
        Node {
            parent: NONE,
            first_child: 0,
            child_count: 0,
            dir_index: NONE,
            logical: 0,
            on_disk: 0,
            modified: 0,
            name_start: 0,
            name_end: 0,
            category: FileCategory::Other,
            dir,
            removed: false,
            cloud: false,
            protected: false,
        }
    }

    /// True for folders.
    pub fn is_dir(&self) -> (b: bool)
        ensures
            b == self.dir,
    {
        self.dir
    }

    /// True once the node was removed.
    pub fn is_removed(&self) -> (b: bool)
        ensures
            b == self.removed,
    {
        self.removed
    }

    /// True for files whose data is stored in the cloud only.
    pub fn is_cloud_placeholder(&self) -> (b: bool)
        ensures
            b == self.cloud,
    {
        self.cloud
    }

    /// True for items that must not be offered for removal.
    pub fn is_protected(&self) -> (b: bool)
        ensures
            b == self.protected,
    {
        self.protected
    }

    /// Kind of data.
    pub fn category(&self) -> (category: FileCategory)
        ensures
            category == self.category,
    {
        self.category
    }

    /// Set the kind of data.
    pub fn set_category(&mut self, category: FileCategory)
        ensures
            *final(self) == (Node { category, ..*old(self) }),
    {
        self.category = category;
    }

    /// Flag the node as removed, or take the flag back.
    pub fn set_removed(&mut self, removed: bool)
        ensures
            *final(self) == (Node { removed, ..*old(self) }),
    {
        self.removed = removed;
    }
}

/// What a folder knows of everything below it.
#[derive(Debug, Clone, Copy, PartialEq, Eq)]
pub struct DirExtra {
    /// Files below.
    pub file_count: u64,
    /// Folders below (the folder itself not counted).
    pub folder_count: u64,
    /// Allocated bytes below, by category slot.
    pub type_sizes: [u64; 9],
    /// Unix seconds of the latest change below, removed nodes counted; 0 where
    /// there is none or none is later.
    pub max_descendant_modified: i64,
    /// Start of the folder's slice of `order`.
    pub order_offset: u32,
    /// Length of the folder's slice of `order`.
    pub order_count: u32,
}

/// The display path of a scanned root.
#[derive(Debug, Clone, PartialEq, Eq)]
pub struct RootPath {
    /// The node that the path names.
    pub id: u32,
    /// The path as shown.
    pub path: String,
}

/// A child to be added to the tree.
#[derive(Debug, Clone, PartialEq, Eq)]
pub struct BatchEntry {
    /// The name as UTF-16 units.
    pub name: Vec<u16>,
    /// Size, times and flags; the links are filled in by the tree.
    pub node: Node,
}

/// The tree of one scan.
#[derive(Debug, Clone, PartialEq, Eq)]
pub struct Tree {
    /// All nodes by id.
    pub arena: Vec<Node>,
    /// Folder totals and slices by slot.
    pub dir_extras: Vec<DirExtra>,
    /// The folders' children, largest first, slice after slice.
    pub order: Vec<u32>,
    /// All names, one behind the other.
    pub names: Vec<u16>,
    /// Display paths of the scanned roots.
    pub roots: Vec<RootPath>,
    /// Id of the scan root.
    pub root: u32,
    /// Bumped by every change that stale readers must notice.
    pub generation: u64,
}

/// `anc` is `id` or one of its ancestors.
pub open spec fn under(arena: Seq<Node>, id: int, anc: int) -> bool
    decreases id,
{
    id == anc || (0 < id < arena.len() && arena[id].parent < id && under(
        arena,
        arena[id].parent as int,
        anc,
    ))
}

impl Tree {
    /// Number of nodes.
    pub open spec fn count(&self) -> int {
        self.arena@.len() as int
    }

    /// The extras of folder `i`.
    pub open spec fn extra(&self, i: int) -> DirExtra {
        self.dir_extras@[self.arena@[i].dir_index as int]
    }

    /// `i` is a folder of the arena.
    pub open spec fn is_folder(&self, i: int) -> bool {
        0 <= i < self.count() && self.arena@[i].dir
    }

    /// `i` is a folder of the arena that was not removed.
    pub open spec fn is_live_folder(&self, i: int) -> bool {
        self.is_folder(i) && !self.arena@[i].removed
    }

    /// `j` is a child of `i`.
    pub open spec fn is_child(&self, i: int, j: int) -> bool {
        0 < j < self.count() && self.arena@[j].parent == i
    }

    /// Folder `i`'s slice of `order`.
    pub open spec fn slice(&self, i: int) -> Seq<u32> {
        self.order@.subrange(
            self.extra(i).order_offset as int,
            self.extra(i).order_offset + self.extra(i).order_count,
        )
    }

    /// Node `i`'s parent precedes it, is a folder, and counts it among its
    /// children.
    pub open spec fn linked(&self, i: int) -> bool {
        let p = self.arena@[i].parent as int;
        &&& p < i
        &&& self.arena@[p].dir
        &&& self.arena@[p].first_child <= i < self.arena@[p].first_child
            + self.arena@[p].child_count
    }

    /// Node `i`'s children lie behind it in the arena, and all name it as
    /// their parent.
    pub open spec fn ranged(&self, i: int) -> bool {
        let first = self.arena@[i].first_child;
        let past = first + self.arena@[i].child_count;
        &&& self.arena@[i].child_count > 0 ==> self.arena@[i].dir && i < first && past
            <= self.count()
        &&& forall|j: int| first <= j < past ==> (#[trigger] self.arena@[j]).parent == i
    }

    /// Folders own a slot of extras, files own none.
    pub open spec fn slotted(&self, i: int) -> bool {
        if self.arena@[i].dir {
            self.arena@[i].dir_index < self.dir_extras@.len()
        } else {
            self.arena@[i].dir_index == NONE
        }
    }

    /// The links are those of a tree: every parent precedes its children, the
    /// children of a node are exactly its range of ids, and folders own
    /// distinct slots of extras.
    pub open spec fn shaped(&self) -> bool {
        &&& 0 < self.count() <= u32::MAX
        &&& self.root == 0
        &&& self.arena@[0].parent == NONE
        &&& self.arena@[0].dir
        &&& forall|i: int| 0 < i < self.count() ==> #[trigger] self.linked(i)
        &&& forall|i: int| 0 <= i < self.count() ==> #[trigger] self.ranged(i)
        &&& forall|i: int| 0 <= i < self.count() ==> #[trigger] self.slotted(i)
        &&& forall|i: int, j: int|
            0 <= i < j < self.count() && #[trigger] self.is_folder(i) && #[trigger] self.is_folder(
                j,
            ) ==> self.arena@[i].dir_index != self.arena@[j].dir_index
        &&& self.dir_extras@.len() <= self.count()
    }

    /// A child of a removed folder is removed too.
    pub open spec fn inherits_removal(&self, i: int) -> bool {
        self.arena@[self.arena@[i].parent as int].removed ==> self.arena@[i].removed
    }

    /// The root was not removed, and what lies below a removed folder is
    /// removed too.
    pub open spec fn removal_closed(&self) -> bool {
        &&& !self.arena@[0].removed
        &&& forall|i: int| 0 < i < self.count() ==> #[trigger] self.inherits_removal(i)
    }

    /// Folder `i`'s slice lists its children that were not removed, each once
    /// and largest first.
    pub open spec fn slice_ordered(&self, i: int) -> bool {
        &&& self.extra(i).order_offset + self.extra(i).order_count <= self.order@.len()
        &&& self.slice(i).no_duplicates()
        &&& forall|j: int|
            #![trigger self.slice(i).contains(j as u32)]
            0 <= j < self.count() ==> (self.slice(i).contains(j as u32) <==> self.is_child(i, j)
                && !self.arena@[j].removed)
        &&& forall|k: int|
            0 <= k < self.slice(i).len() ==> (#[trigger] self.slice(i)[k]) < self.count()
        &&& forall|k: int, l: int|
            0 <= k < l < self.slice(i).len() ==> self.arena@[(#[trigger] self.slice(
                i,
            )[k]) as int].on_disk >= self.arena@[(#[trigger] self.slice(i)[l]) as int].on_disk
    }

    /// Every folder that was not removed has its children listed.
    pub open spec fn ordered(&self) -> bool {
        forall|i: int| #[trigger] self.is_live_folder(i) ==> self.slice_ordered(i)
    }

    /// The invariant of a scanned tree that is ready to be shown.
    pub open spec fn wf(&self) -> bool {
        &&& self.shaped()
        &&& self.removal_closed()
        &&& self.ordered()
    }

    /// The node with this id.
    pub fn node(&self, id: u32) -> (node: Option<&Node>)
        ensures
            match node {
                Some(n) => id < self.count() && *n == self.arena@[id as int],
                None => id >= self.count(),
            },
    {
        if (id as usize) < self.arena.len() {
            Some(&self.arena[id as usize])
        } else {
            None
        }
    }

    /// Number of nodes.
    pub fn len(&self) -> (n: usize)
        ensures
            n == self.count(),
    {
        self.arena.len()
    }

    /// True when `ancestor` is `id` or one of its ancestors.
    pub fn is_descendant_of(&self, id: u32, ancestor: u32) -> (b: bool)
        requires
            self.shaped(),
            id < self.count(),
        ensures
            b == under(self.arena@, id as int, ancestor as int),
    {
        let mut at: u32 = id;
        while at != ancestor
            invariant
                self.shaped(),
                at < self.count(),
                under(self.arena@, id as int, ancestor as int) == under(
                    self.arena@,
                    at as int,
                    ancestor as int,
                ),
            decreases at,
        {
            if at == 0 {
                return false;
            }
            assert(self.linked(at as int));
            at = self.arena[at as usize].parent;
        }
        true
    }

    /// The children of a folder that were not removed, largest first; nothing
    /// for files, removed folders and unknown ids.
    pub fn children_sorted(&self, id: u32) -> (children: &[u32])
        requires
            self.wf(),
        ensures
            children@ == if self.is_live_folder(id as int) {
                self.slice(id as int)
            } else {
                Seq::empty()
            },
    {
        if (id as usize) < self.arena.len() {
            let node: &Node = &self.arena[id as usize];
            if node.dir && !node.removed {
                assert(self.is_live_folder(id as int));
                assert(self.slotted(id as int));
                assert(self.slice_ordered(id as int));
                assert(self.order@.len() == self.order.len());
                let extra: &DirExtra = &self.dir_extras[node.dir_index as usize];
                let from: usize = extra.order_offset as usize;
                let to: usize = from + extra.order_count as usize;
                return vstd::slice::slice_subrange(self.order.as_slice(), from, to);
            }
        }
        vstd::slice::slice_subrange(self.order.as_slice(), 0, 0)
    }
}

} // verus!
