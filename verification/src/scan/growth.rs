//! Growing a tree: the scan root, and one batch of children per folder.

use crate::scan::node::{BatchEntry, DirExtra, Node, RootPath, Tree, NONE};
use crate::scan::rollup::fresh;
use crate::scan::totals::Measure;
use vstd::prelude::*;

verus! {

/// The extras of a new folder: all zero.
pub open spec fn blank_extra(extra: DirExtra) -> bool {
    &&& extra.file_count == 0
    &&& extra.folder_count == 0
    &&& forall|k: int| 0 <= k < 9 ==> #[trigger] extra.type_sizes@[k] == 0
    &&& extra.max_descendant_modified == 0
    &&& extra.order_offset == 0
    &&& extra.order_count == 0
}

/// Number of folders among the first `n` entries.
pub open spec fn folders_among(entries: Seq<BatchEntry>, n: int) -> nat
    decreases n,
{
    if n <= 0 {
        0
    } else if entries[n - 1].node.dir {
        folders_among(entries, n - 1) + 1
    } else {
        folders_among(entries, n - 1)
    }
}

/// The node of a new child: the links are those of its place in the tree, the
/// rest is as given.
pub open spec fn placed(node: Node, parent: u32, slot: u32, start: usize, end: usize) -> Node {
    Node {
        parent,
        first_child: 0,
        child_count: 0,
        dir_index: slot,
        name_start: start,
        name_end: end,
        ..node
    }
}

/// Child `k` of the batch stands in the tree with its name.
pub open spec fn stands(pre: Tree, post: Tree, parent: u32, entries: Seq<BatchEntry>, k: int) -> bool {
    let node = post.arena@[pre.count() + k];
    &&& node == placed(
        entries[k].node,
        parent,
        if entries[k].node.dir {
            (pre.dir_extras@.len() + folders_among(entries, k)) as u32
        } else {
            NONE
        },
        node.name_start,
        node.name_end,
    )
    &&& node.name_start <= node.name_end <= post.names@.len()
    &&& post.names@.subrange(node.name_start as int, node.name_end as int) == entries[k].name@
}

/// `post` is `pre` with the first `n` entries of a batch as the children of
/// `parent`: their ids follow each other behind all others.
pub open spec fn grown(pre: Tree, post: Tree, parent: u32, entries: Seq<BatchEntry>, n: int) -> bool {
    &&& post.count() == pre.count() + n
    &&& post.root == pre.root
    &&& post.roots == pre.roots
    &&& post.generation == pre.generation
    &&& post.order == pre.order
    &&& forall|i: int| 0 <= i < pre.count() && i != parent ==> (#[trigger] post.arena@[i])
        == pre.arena@[i]
    &&& post.arena@[parent as int] == if n == 0 {
        pre.arena@[parent as int]
    } else {
        Node {
            first_child: pre.count() as u32,
            child_count: n as u32,
            ..pre.arena@[parent as int]
        }
    }
    &&& forall|k: int| 0 <= k < n ==> #[trigger] stands(pre, post, parent, entries, k)
    &&& pre.names@ == post.names@.take(pre.names@.len() as int)
    &&& pre.names@.len() <= post.names@.len()
    &&& post.dir_extras@.len() == pre.dir_extras@.len() + folders_among(entries, n)
    &&& forall|k: int| 0 <= k < pre.dir_extras@.len() ==> (#[trigger] post.dir_extras@[k])
        == pre.dir_extras@[k]
    &&& forall|k: int|
        pre.dir_extras@.len() <= k < post.dir_extras@.len() ==> blank_extra(
            #[trigger] post.dir_extras@[k],
        )
}

/// A new child that was not removed; a folder comes without totals.
pub open spec fn plain(entry: BatchEntry) -> bool {
    &&& !entry.node.removed
    &&& entry.node.dir ==> entry.node.on_disk == 0 && entry.node.logical == 0
}

proof fn lemma_folders_among(entries: Seq<BatchEntry>, n: int)
    requires
        0 <= n,
    ensures
        folders_among(entries, n) <= n,
    decreases n,
{
    if n > 0 {
        lemma_folders_among(entries, n - 1);
    }
}

/// One more child behind the ones that `parent` has keeps the tree's shape.
proof fn lemma_child_added(pre: Tree, post: Tree, parent: u32, child: Node)
    requires
        pre.shaped(),
        pre.count() < u32::MAX,
        pre.is_folder(parent as int),
        pre.arena@[parent as int].child_count == 0 || pre.arena@[parent as int].first_child
            + pre.arena@[parent as int].child_count == pre.count(),
        post.root == pre.root,
        post.count() == pre.count() + 1,
        post.arena@[pre.count()] == child,
        child.parent == parent,
        child.child_count == 0,
        child.dir ==> child.dir_index == pre.dir_extras@.len() && post.dir_extras@.len()
            == pre.dir_extras@.len() + 1,
        !child.dir ==> child.dir_index == NONE && post.dir_extras@.len() == pre.dir_extras@.len(),
        forall|i: int| 0 <= i < pre.count() && i != parent ==> (#[trigger] post.arena@[i])
            == pre.arena@[i],
        post.arena@[parent as int] == (Node {
            first_child: if pre.arena@[parent as int].child_count == 0 {
                pre.count() as u32
            } else {
                pre.arena@[parent as int].first_child
            },
            child_count: (pre.arena@[parent as int].child_count + 1) as u32,
            ..pre.arena@[parent as int]
        }),
    ensures
        post.shaped(),
{
    let base = pre.count();
    assert forall|i: int| 0 < i < post.count() implies #[trigger] post.linked(i) by {
        if i < base {
            assert(pre.linked(i));
            let p = pre.arena@[i].parent as int;
            assert(p == parent || post.arena@[p] == pre.arena@[p]);
            assert(i == parent || post.arena@[i] == pre.arena@[i]);
        }
    }
    assert forall|i: int| 0 <= i < post.count() implies #[trigger] post.ranged(i) by {
        if i < base {
            assert(pre.ranged(i));
            assert(i == parent || post.arena@[i] == pre.arena@[i]);
            let first = post.arena@[i].first_child;
            let past = first + post.arena@[i].child_count;
            assert forall|j: int| first <= j < past implies (#[trigger] post.arena@[j]).parent
                == i by {
                if j < base {
                    assert(pre.arena@[j].parent == i);
                    assert(j == parent || post.arena@[j] == pre.arena@[j]);
                } else {
                    assert(i == parent);
                }
            }
        }
    }
    assert forall|i: int| 0 <= i < post.count() implies #[trigger] post.slotted(i) by {
        if i < base {
            assert(pre.slotted(i));
            assert(i == parent || post.arena@[i] == pre.arena@[i]);
        }
    }
    assert forall|i: int, j: int|
        0 <= i < j < post.count() && #[trigger] post.is_folder(i) && #[trigger] post.is_folder(
            j,
        ) implies post.arena@[i].dir_index != post.arena@[j].dir_index by {
        assert(i == parent || post.arena@[i] == pre.arena@[i]);
        assert(pre.slotted(i));
        assert(pre.is_folder(i));
        if j < base {
            assert(j == parent || post.arena@[j] == pre.arena@[j]);
            assert(pre.is_folder(j));
        }
    }
    assert(0 == parent || post.arena@[0] == pre.arena@[0]);
}

impl Tree {
    /// A tree that holds its scan root alone.
    pub fn new(generation: u64) -> (tree: Self)
        ensures
            fresh(tree),
            tree.count() == 1,
            tree.arena@[0] == (Node { dir_index: 0, ..Node::blank(true) }),
            tree.dir_extras@.len() == 1,
            blank_extra(tree.dir_extras@[0]),
            tree.order@.len() == 0,
            tree.names@.len() == 0,
            tree.roots@.len() == 0,
            tree.generation == generation,
    {
        let mut root: Node = Node::new_dir();
        root.dir_index = 0;
        let mut arena: Vec<Node> = Vec::new();
        arena.push(root);
        let mut dir_extras: Vec<DirExtra> = Vec::new();
        dir_extras.push(new_extra());
        let tree: Tree = Tree {
            arena,
            dir_extras,
            order: Vec::new(),
            names: Vec::new(),
            roots: Vec::new(),
            root: 0,
            generation,
        };
        assert forall|i: int, m: Measure|
            #![trigger tree.total(m, i)]
            tree.is_folder(i) && m.valid() implies tree.total(m, i) == 0 by {
            assert(tree.extra(i) == tree.dir_extras@[0]);
        }
        tree
    }

    /// Name the path under which the scanned root `id` is shown.
    pub fn add_root_path(&mut self, id: u32, path: &str)
        ensures
            *final(self) == (Tree { roots: final(self).roots, ..*old(self) }),
            final(self).roots@.len() == old(self).roots@.len() + 1,
            final(self).roots@.drop_last() == old(self).roots@,
            final(self).roots@.last().id == id,
            final(self).roots@.last().path@ == path@,
    {
        let entry: RootPath = RootPath { id, path: path.to_owned() };
        self.roots.push(entry);
        assert(self.roots@.drop_last() =~= old(self).roots@);
    }

    /// Add the children of folder `parent`, all of them at once; returns the id
    /// of the first.
    pub fn append_batch(&mut self, parent: u32, entries: Vec<BatchEntry>) -> (base: u32)
        requires
            old(self).shaped(),
            old(self).is_folder(parent as int),
            old(self).arena@[parent as int].child_count == 0,
            old(self).count() + entries@.len() <= u32::MAX,
        ensures
            base == old(self).count(),
            grown(*old(self), *final(self), parent, entries@, entries@.len() as int),
            final(self).shaped(),
            fresh(*old(self)) && (forall|k: int|
                0 <= k < entries@.len() ==> plain(#[trigger] entries@[k])) ==> fresh(*final(self)),
    {
        let ghost pre = *self;
        let base: u32 = self.arena.len() as u32;
        let mut k: usize = 0;
        assert(self.names@.take(self.names@.len() as int) =~= self.names@);
        while k < entries.len()
            invariant
                k <= entries@.len(),
                pre.shaped(),
                pre.is_folder(parent as int),
                pre.arena@[parent as int].child_count == 0,
                pre.count() + entries@.len() <= u32::MAX,
                self.shaped(),
                grown(pre, *self, parent, entries@, k as int),
            decreases entries@.len() - k,
        {
            let ghost before = *self;
            proof {
                lemma_folders_among(entries@, k as int);
            }
            let entry: &BatchEntry = &entries[k];
            let start: usize = self.names.len();
            append_units(&mut self.names, &entry.name);
            let end: usize = self.names.len();
            let mut node: Node = entry.node;
            node.parent = parent;
            node.first_child = 0;
            node.child_count = 0;
            node.name_start = start;
            node.name_end = end;
            if node.dir {
                node.dir_index = self.dir_extras.len() as u32;
                self.dir_extras.push(new_extra());
            } else {
                node.dir_index = NONE;
            }
            let mut above: Node = self.arena[parent as usize];
            if above.child_count == 0 {
                above.first_child = self.arena.len() as u32;
            }
            above.child_count = above.child_count + 1;
            self.arena[parent as usize] = above;
            self.arena.push(node);
            k = k + 1;
            proof {
                lemma_child_added(before, *self, parent, node);
                lemma_grown_step(pre, before, *self, parent, entries@, k - 1);
            }
        }
        proof {
            if fresh(pre) && (forall|k: int|
                0 <= k < entries@.len() ==> plain(#[trigger] entries@[k])) {
                lemma_grown_fresh(pre, *self, parent, entries@);
            }
        }
        base
    }
}

/// The extras of a new folder.
fn new_extra() -> (extra: DirExtra)
    ensures
        blank_extra(extra),
{
    DirExtra {
        file_count: 0,
        folder_count: 0,
        type_sizes: [0; 9],
        max_descendant_modified: 0,
        order_offset: 0,
        order_count: 0,
    }
}

/// Append a name to all names.
fn append_units(names: &mut Vec<u16>, name: &Vec<u16>)
    ensures
        final(names)@ == old(names)@ + name@,
{
    let ghost before = names@;
    let mut k: usize = 0;
    while k < name.len()
        invariant
            k <= name@.len(),
            names@ == before + name@.take(k as int),
        decreases name@.len() - k,
    {
        names.push(name[k]);
        k = k + 1;
        assert(names@ =~= before + name@.take(k as int));
    }
    assert(name@.take(k as int) =~= name@);
}

proof fn lemma_grown_step(
    pre: Tree,
    before: Tree,
    after: Tree,
    parent: u32,
    entries: Seq<BatchEntry>,
    k: int,
)
    requires
        pre.shaped(),
        pre.is_folder(parent as int),
        pre.arena@[parent as int].child_count == 0,
        pre.count() + entries.len() <= u32::MAX,
        0 <= k < entries.len(),
        grown(pre, before, parent, entries, k),
        before.shaped(),
        after.count() == before.count() + 1,
        after.root == before.root,
        after.roots == before.roots,
        after.generation == before.generation,
        after.order == before.order,
        after.names@ == before.names@ + entries[k].name@,
        after.names@.len() <= usize::MAX,
        after.arena@[pre.count() + k] == placed(
            entries[k].node,
            parent,
            if entries[k].node.dir {
                before.dir_extras@.len() as u32
            } else {
                NONE
            },
            before.names@.len() as usize,
            after.names@.len() as usize,
        ),
        forall|i: int| 0 <= i < before.count() && i != parent ==> (#[trigger] after.arena@[i])
            == before.arena@[i],
        after.arena@[parent as int] == (Node {
            first_child: pre.count() as u32,
            child_count: (k + 1) as u32,
            ..pre.arena@[parent as int]
        }),
        forall|i: int| 0 <= i < before.dir_extras@.len() ==> (#[trigger] after.dir_extras@[i])
            == before.dir_extras@[i],
        after.dir_extras@.len() == before.dir_extras@.len() + if entries[k].node.dir {
            1int
        } else {
            0
        },
        entries[k].node.dir ==> blank_extra(after.dir_extras@[before.dir_extras@.len() as int]),
    ensures
        grown(pre, after, parent, entries, k + 1),
{
    lemma_folders_among(entries, k);
    assert forall|i: int| 0 <= i < pre.count() && i != parent implies (#[trigger] after.arena@[i])
        == pre.arena@[i] by {
        assert(before.arena@[i] == pre.arena@[i]);
    }
    assert forall|l: int| 0 <= l < k + 1 implies #[trigger] stands(
        pre,
        after,
        parent,
        entries,
        l,
    ) by {
        let node = after.arena@[pre.count() + l];
        if l < k {
            assert(stands(pre, before, parent, entries, l));
            assert(node == before.arena@[pre.count() + l]);
            assert(after.names@.subrange(node.name_start as int, node.name_end as int)
                =~= before.names@.subrange(node.name_start as int, node.name_end as int));
        } else {
            assert(after.names@.subrange(node.name_start as int, node.name_end as int)
                =~= entries[k].name@);
        }
    }
    assert(after.names@.take(pre.names@.len() as int) =~= before.names@.take(
        pre.names@.len() as int,
    ));
    assert forall|i: int| 0 <= i < pre.dir_extras@.len() implies (#[trigger] after.dir_extras@[i])
        == pre.dir_extras@[i] by {
        assert(before.dir_extras@[i] == pre.dir_extras@[i]);
    }
    assert forall|i: int|
        pre.dir_extras@.len() <= i < after.dir_extras@.len() implies blank_extra(
        #[trigger] after.dir_extras@[i],
    ) by {
        if i < before.dir_extras@.len() {
            assert(blank_extra(before.dir_extras@[i]));
        }
    }
}

proof fn lemma_grown_fresh(pre: Tree, post: Tree, parent: u32, entries: Seq<BatchEntry>)
    requires
        fresh(pre),
        post.shaped(),
        pre.is_folder(parent as int),
        grown(pre, post, parent, entries, entries.len() as int),
        forall|k: int| 0 <= k < entries.len() ==> plain(#[trigger] entries[k]),
    ensures
        fresh(post),
{
    assert forall|i: int| 0 <= i < post.count() implies !(#[trigger] post.arena@[i]).removed by {
        if i < pre.count() {
            assert(!pre.arena@[i].removed);
            assert(i == parent || post.arena@[i] == pre.arena@[i]);
        } else {
            assert(stands(pre, post, parent, entries, i - pre.count()));
            assert(plain(entries[i - pre.count()]));
        }
    }
    assert forall|i: int, m: Measure|
        #![trigger post.total(m, i)]
        post.is_folder(i) && m.valid() implies post.total(m, i) == 0 by {
        if i < pre.count() {
            assert(i == parent || post.arena@[i] == pre.arena@[i]);
            assert(pre.is_folder(i));
            assert(pre.slotted(i));
            assert(pre.total(m, i) == 0);
            assert(post.extra(i) == pre.extra(i));
        } else {
            let k = i - pre.count();
            assert(stands(pre, post, parent, entries, k));
            assert(plain(entries[k]));
            assert(post.slotted(i));
            lemma_folders_among(entries, k);
            assert(blank_extra(post.dir_extras@[post.arena@[i].dir_index as int]));
        }
    }
    assert forall|i: int| #[trigger] post.is_folder(i) implies post.extra(
        i,
    ).max_descendant_modified == 0 by {
        if i < pre.count() {
            assert(i == parent || post.arena@[i] == pre.arena@[i]);
            assert(pre.is_folder(i));
            assert(pre.slotted(i));
            assert(post.extra(i) == pre.extra(i));
        } else {
            let k = i - pre.count();
            assert(stands(pre, post, parent, entries, k));
            assert(post.slotted(i));
            lemma_folders_among(entries, k);
            assert(blank_extra(post.dir_extras@[post.arena@[i].dir_index as int]));
        }
    }
}

/// In every tree a parent's id is smaller than its children's, and the
/// children of a folder have ids that follow each other.
pub proof fn law_parents_first_children_together(t: Tree, id: int)
    requires
        t.shaped(),
        0 <= id < t.count(),
    ensures
        id > 0 ==> t.arena@[id].parent < id,
        forall|j: int|
            0 < j < t.count() ==> (#[trigger] t.arena@[j].parent == id <==> t.arena@[id].first_child
                <= j < t.arena@[id].first_child + t.arena@[id].child_count),
{
    if id > 0 {
        assert(t.linked(id));
    }
    assert(t.ranged(id));
    assert forall|j: int| 0 < j < t.count() implies (#[trigger] t.arena@[j].parent == id
        <==> t.arena@[id].first_child <= j < t.arena@[id].first_child
        + t.arena@[id].child_count) by {
        assert(t.linked(j));
    }
}

} // verus!
