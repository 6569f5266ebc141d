//! Folder totals: what a node adds to its parent, and how a folder's stored
//! totals are read and changed.

use crate::scan::categories::{FileCategory, CATEGORY_COUNT};
use crate::scan::node::{DirExtra, Node, Tree};
use crate::scan::sums::{saturated, sum};
use vstd::prelude::*;

verus! {

/// One quantity that folders total up.
pub enum Measure {
    /// Allocated bytes.
    OnDisk,
    /// Logical bytes.
    Logical,
    /// Files.
    Files,
    /// Folders.
    Folders,
    /// Allocated bytes of one category slot.
    Type(int),
}

impl Measure {
    /// The slot, if there is one, is a category's.
    pub open spec fn valid(self) -> bool {
        self matches Measure::Type(k) ==> 0 <= k < CATEGORY_COUNT
    }
}

impl Tree {
    /// The stored total of folder `i`.
    pub open spec fn total(&self, m: Measure, i: int) -> u64 {
        match m {
            Measure::OnDisk => self.arena@[i].on_disk,
            Measure::Logical => self.arena@[i].logical,
            Measure::Files => self.extra(i).file_count,
            Measure::Folders => self.extra(i).folder_count,
            Measure::Type(k) => self.extra(i).type_sizes@[k],
        }
    }

    /// What node `i` adds to the total of the folder it lies in: a file counts
    /// itself, a folder counts its total and, among the folders, itself.
    pub open spec fn share(&self, m: Measure, i: int) -> u64 {
        let node = self.arena@[i];
        if node.dir {
            match m {
                Measure::Folders => saturated((self.total(m, i) + 1) as nat),
                _ => self.total(m, i),
            }
        } else {
            match m {
                Measure::OnDisk => node.on_disk,
                Measure::Logical => node.logical,
                Measure::Files => 1,
                Measure::Folders => 0,
                Measure::Type(k) => if node.category.bits() == k {
                    node.on_disk
                } else {
                    0
                },
            }
        }
    }

    /// The shares by id; removed nodes add nothing.
    pub open spec fn live_share(&self, m: Measure) -> spec_fn(int) -> nat {
        |j: int|
            if self.arena@[j].removed {
                0
            } else {
                self.share(m, j) as nat
            }
    }

    /// The sum of the shares of folder `i`'s children that were not removed.
    pub open spec fn children_sum(&self, m: Measure, i: int) -> nat {
        sum(
            self.live_share(m),
            self.arena@[i].first_child as int,
            self.arena@[i].first_child + self.arena@[i].child_count,
        )
    }

    /// Every folder that was not removed stores the (saturated) sum of what
    /// its children add.
    pub open spec fn rolled_up(&self) -> bool {
        forall|i: int, m: Measure|
            #![trigger self.total(m, i)]
            self.is_live_folder(i) && m.valid() ==> self.total(m, i) == saturated(
                self.children_sum(m, i),
            )
    }
}

/// The shares of one node.
#[derive(Debug, Clone, Copy)]
pub struct Shares {
    /// Allocated bytes.
    pub on_disk: u64,
    /// Logical bytes.
    pub logical: u64,
    /// Files.
    pub files: u64,
    /// Folders.
    pub folders: u64,
    /// Allocated bytes by category slot.
    pub types: [u64; 9],
}

impl Shares {
    /// The share in one measure.
    pub open spec fn of(&self, m: Measure) -> u64 {
        match m {
            Measure::OnDisk => self.on_disk,
            Measure::Logical => self.logical,
            Measure::Files => self.files,
            Measure::Folders => self.folders,
            Measure::Type(k) => self.types@[k],
        }
    }
}

/// The node with other sizes and another removal flag.
pub open spec fn relinked(node: Node, other: Node) -> Node {
    Node { on_disk: other.on_disk, logical: other.logical, removed: other.removed, ..node }
}

/// `post` is `pre` but for sizes, removal flags and extras.
pub open spec fn same_links(pre: Tree, post: Tree) -> bool {
    &&& post.count() == pre.count()
    &&& post.dir_extras@.len() == pre.dir_extras@.len()
    &&& post.root == pre.root
    &&& post.names == pre.names
    &&& post.roots == pre.roots
    &&& forall|i: int|
        0 <= i < pre.count() ==> (#[trigger] post.arena@[i]) == relinked(
            pre.arena@[i],
            post.arena@[i],
        )
}

/// The extras are the same but for the totals.
pub open spec fn same_besides_totals(pre: DirExtra, post: DirExtra) -> bool {
    &&& post.max_descendant_modified == pre.max_descendant_modified
    &&& post.order_offset == pre.order_offset
    &&& post.order_count == pre.order_count
}

/// `post` is `pre` but for the totals of folder `p`.
pub open spec fn retotalled(pre: Tree, post: Tree, p: int) -> bool {
    &&& same_links(pre, post)
    &&& post.order == pre.order
    &&& post.generation == pre.generation
    &&& forall|i: int| 0 <= i < pre.count() && i != p ==> (#[trigger] post.arena@[i]) == pre.arena@[i]
    &&& post.arena@[p].removed == pre.arena@[p].removed
    &&& forall|k: int|
        0 <= k < pre.dir_extras@.len() && k != pre.arena@[p].dir_index ==> (
        #[trigger] post.dir_extras@[k]) == pre.dir_extras@[k]
    &&& same_besides_totals(pre.extra(p), post.extra(p))
}

/// Linked alike, shaped alike.
pub proof fn lemma_same_links_shaped(pre: Tree, post: Tree)
    requires
        pre.shaped(),
        same_links(pre, post),
    ensures
        post.shaped(),
{
    assert(post.arena@[0] == relinked(pre.arena@[0], post.arena@[0]));
    assert forall|i: int| 0 < i < post.count() implies #[trigger] post.linked(i) by {
        assert(pre.linked(i));
        assert(post.arena@[i] == relinked(pre.arena@[i], post.arena@[i]));
        let p = pre.arena@[i].parent as int;
        assert(post.arena@[p] == relinked(pre.arena@[p], post.arena@[p]));
    }
    assert forall|i: int| 0 <= i < post.count() implies #[trigger] post.ranged(i) by {
        assert(pre.ranged(i));
        assert(post.arena@[i] == relinked(pre.arena@[i], post.arena@[i]));
        let first = pre.arena@[i].first_child;
        let past = first + pre.arena@[i].child_count;
        assert forall|j: int| first <= j < past implies (#[trigger] post.arena@[j]).parent == i by {
            assert(pre.arena@[j].parent == i);
            assert(post.arena@[j] == relinked(pre.arena@[j], post.arena@[j]));
        }
    }
    assert forall|i: int| 0 <= i < post.count() implies #[trigger] post.slotted(i) by {
        assert(pre.slotted(i));
        assert(post.arena@[i] == relinked(pre.arena@[i], post.arena@[i]));
    }
    assert forall|i: int, j: int|
        0 <= i < j < post.count() && #[trigger] post.is_folder(i) && #[trigger] post.is_folder(
            j,
        ) implies post.arena@[i].dir_index != post.arena@[j].dir_index by {
        assert(post.arena@[i] == relinked(pre.arena@[i], post.arena@[i]));
        assert(post.arena@[j] == relinked(pre.arena@[j], post.arena@[j]));
        assert(pre.is_folder(i) && pre.is_folder(j));
    }
}

/// Changing the totals of `p` leaves every other node's totals and shares.
pub proof fn lemma_retotalled_frame(pre: Tree, post: Tree, p: int, m: Measure, i: int)
    requires
        pre.shaped(),
        pre.is_folder(p),
        retotalled(pre, post, p),
        0 <= i < pre.count(),
        i != p,
        m.valid(),
    ensures
        post.arena@[i] == pre.arena@[i],
        pre.arena@[i].dir ==> post.extra(i) == pre.extra(i),
        pre.arena@[i].dir ==> post.total(m, i) == pre.total(m, i),
        post.share(m, i) == pre.share(m, i),
{
    assert(post.arena@[i] == pre.arena@[i]);
    if pre.arena@[i].dir {
        assert(pre.is_folder(i));
        assert(pre.slotted(i));
        assert(pre.arena@[i].dir_index != pre.arena@[p].dir_index);
        assert(post.dir_extras@[pre.arena@[i].dir_index as int]
            == pre.dir_extras@[pre.arena@[i].dir_index as int]);
    }
}

/// What node `i` adds to the folder it lies in.
pub fn shares_of(tree: &Tree, i: u32) -> (shares: Shares)
    requires
        tree.shaped(),
        i < tree.count(),
    ensures
        forall|m: Measure| m.valid() ==> #[trigger] shares.of(m) == tree.share(m, i as int),
{
    let node: &Node = &tree.arena[i as usize];
    assert(tree.slotted(i as int));
    if node.dir {
        let extra: &DirExtra = &tree.dir_extras[node.dir_index as usize];
        Shares {
            on_disk: node.on_disk,
            logical: node.logical,
            files: extra.file_count,
            folders: extra.folder_count.saturating_add(1),
            types: extra.type_sizes,
        }
    } else {
        let mut types: [u64; 9] = [0; 9];
        types[node.category.as_bits() as usize] = node.on_disk;
        Shares { on_disk: node.on_disk, logical: node.logical, files: 1, folders: 0, types }
    }
}

/// Add shares to the totals of folder `p`.
pub fn add_to(tree: &mut Tree, p: u32, shares: &Shares)
    requires
        old(tree).shaped(),
        old(tree).is_folder(p as int),
    ensures
        retotalled(*old(tree), *final(tree), p as int),
        forall|m: Measure|
            m.valid() ==> #[trigger] final(tree).total(m, p as int) == saturated(
                (old(tree).total(m, p as int) + shares.of(m)) as nat,
            ),
{
    assert(tree.slotted(p as int));
    let mut node: Node = tree.arena[p as usize];
    node.on_disk = node.on_disk.saturating_add(shares.on_disk);
    node.logical = node.logical.saturating_add(shares.logical);
    let slot: usize = node.dir_index as usize;
    let mut extra: DirExtra = tree.dir_extras[slot];
    let ghost before = extra;
    extra.file_count = extra.file_count.saturating_add(shares.files);
    extra.folder_count = extra.folder_count.saturating_add(shares.folders);
    let mut types: [u64; 9] = extra.type_sizes;
    let mut k: usize = 0;
    while k < 9
        invariant
            k <= 9,
            forall|l: int| k <= l < 9 ==> types@[l] == before.type_sizes@[l],
            forall|l: int|
                0 <= l < k ==> #[trigger] types@[l] == saturated(
                    (before.type_sizes@[l] + shares.types@[l]) as nat,
                ),
        decreases 9 - k,
    {
        types[k] = types[k].saturating_add(shares.types[k]);
        k = k + 1;
    }
    extra.type_sizes = types;
    tree.arena[p as usize] = node;
    tree.dir_extras[slot] = extra;
}

/// Subtract shares from the totals of folder `p`.
pub fn take_from(tree: &mut Tree, p: u32, shares: &Shares)
    requires
        old(tree).shaped(),
        old(tree).is_folder(p as int),
    ensures
        retotalled(*old(tree), *final(tree), p as int),
        forall|m: Measure|
            m.valid() ==> #[trigger] final(tree).total(m, p as int) == old(tree).total(
                m,
                p as int,
            ).saturating_sub(shares.of(m)),
{
    assert(tree.slotted(p as int));
    let mut node: Node = tree.arena[p as usize];
    node.on_disk = node.on_disk.saturating_sub(shares.on_disk);
    node.logical = node.logical.saturating_sub(shares.logical);
    let slot: usize = node.dir_index as usize;
    let mut extra: DirExtra = tree.dir_extras[slot];
    let ghost before = extra;
    extra.file_count = extra.file_count.saturating_sub(shares.files);
    extra.folder_count = extra.folder_count.saturating_sub(shares.folders);
    let mut types: [u64; 9] = extra.type_sizes;
    let mut k: usize = 0;
    while k < 9
        invariant
            k <= 9,
            forall|l: int| k <= l < 9 ==> types@[l] == before.type_sizes@[l],
            forall|l: int|
                0 <= l < k ==> #[trigger] types@[l] == before.type_sizes@[l].saturating_sub(
                    shares.types@[l],
                ),
        decreases 9 - k,
    {
        types[k] = types[k].saturating_sub(shares.types[k]);
        k = k + 1;
    }
    extra.type_sizes = types;
    tree.arena[p as usize] = node;
    tree.dir_extras[slot] = extra;
}

/// Category `best` holds most bytes below folder `i`; of equals it is the first.
pub open spec fn is_dominant(t: Tree, i: int, best: FileCategory) -> bool {
    let sizes = t.extra(i).type_sizes@;
    forall|k: int|
        0 <= k < CATEGORY_COUNT ==> if k < best.bits() {
            (#[trigger] sizes[k]) < sizes[best.bits() as int]
        } else {
            sizes[k] <= sizes[best.bits() as int]
        }
}

impl Tree {
    /// The category that holds most bytes below a folder, or the category of a
    /// file; [`FileCategory::Other`] for unknown ids.
    pub fn dominant_category(&self, id: u32) -> (category: FileCategory)
        requires
            self.shaped(),
        ensures
            id >= self.count() ==> category is Other,
            self.is_folder(id as int) ==> is_dominant(*self, id as int, category),
            id < self.count() && !self.arena@[id as int].dir ==> category
                == self.arena@[id as int].category,
    {
        if (id as usize) >= self.arena.len() {
            return FileCategory::Other;
        }
        assert(self.slotted(id as int));
        let node: &Node = &self.arena[id as usize];
        if !node.dir {
            return node.category;
        }
        let sizes: [u64; 9] = self.dir_extras[node.dir_index as usize].type_sizes;
        let mut best: usize = 0;
        let mut k: usize = 1;
        while k < 9
            invariant
                1 <= k <= 9,
                best < k,
                forall|l: int| 0 <= l < best ==> (#[trigger] sizes@[l]) < sizes@[best as int],
                forall|l: int| 0 <= l < k ==> (#[trigger] sizes@[l]) <= sizes@[best as int],
            decreases 9 - k,
        {
            if sizes[k] > sizes[best] {
                best = k;
            }
            k = k + 1;
        }
        FileCategory::from_bits(best as u8)
    }
}

} // verus!
