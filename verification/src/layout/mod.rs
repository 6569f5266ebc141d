//! The decisions behind the canvas layouts: which nodes are drawn, in which
//! order, on which level and in which colours, and when a layout stops.
//!
//! The geometry is the caller's. A layout asks for what it needs to know of it
//! (does this fit, how many of these fit) and says what is drawn.

pub mod bubble_laws;
pub mod bubbles;
pub mod groups;
pub mod outline;
pub mod progress;
pub mod rows;
pub mod sunburst;
pub mod sunburst_laws;
pub mod treemap;
pub mod treemap_laws;

use crate::scan::ancestry::lemma_under_transitive;
use crate::scan::categories::FileCategory;
use crate::scan::node::{under, Node, Tree};
use crate::scan::sums::{saturated, sum};
use vstd::prelude::*;

verus! {

/// What the colours of a layout stand for.
#[derive(Debug, Clone, Copy, PartialEq, Eq, Structural)]
pub enum ColorMode {
    /// The branch a node belongs to.
    ByFolder,
    /// The kind of data.
    ByType,
    /// The time of the last change.
    ByAge,
}

/// What decides the colour of a cell.
#[derive(Debug, Clone, Copy, PartialEq, Eq, Structural)]
pub enum Tint {
    /// The branch's family of colours, shaded by level and position.
    Folder {
        /// The family.
        family: usize,
        /// The level.
        depth: u16,
        /// Position among the siblings.
        sibling: usize,
    },
    /// The kind of data.
    Category(FileCategory),
    /// The node's age, shaded by position.
    Age {
        /// Position among the siblings.
        sibling: usize,
    },
}

/// The tint of a node of this category at this place.
pub open spec fn tint_of(
    color: ColorMode,
    category: FileCategory,
    family: usize,
    depth: u16,
    sibling: usize,
) -> Tint {
    match color {
        ColorMode::ByFolder => Tint::Folder { family, depth, sibling },
        ColorMode::ByType => Tint::Category(category),
        ColorMode::ByAge => Tint::Age { sibling },
    }
}

/// The tint of a node of this category at this place.
pub fn tint(
    color: ColorMode,
    category: FileCategory,
    family: usize,
    depth: u16,
    sibling: usize,
) -> (out: Tint)
    ensures
        out == tint_of(color, category, family, depth, sibling),
{
    match color {
        ColorMode::ByFolder => Tint::Folder { family, depth, sibling },
        ColorMode::ByType => Tint::Category(category),
        ColorMode::ByAge => Tint::Age { sibling },
    }
}

/// An opaque colour: red, green, blue, and full alpha in the lowest byte. What
/// stands above the three bytes of `rgb` is cut off.
pub fn pack_rgba(rgb: u32) -> (rgba: u32)
    ensures
        rgba == with_alpha(rgb, 0xFF),
{
    (rgb << 8u32) | 0xFFu32
}

/// A colour with its alpha in the lowest byte.
pub open spec fn with_alpha(rgb: u32, alpha: u32) -> u32 {
    (rgb << 8u32) | alpha
}

/// A colour of three bytes and its alpha can be read back.
pub proof fn law_rgba_reads_back(rgb: u32, alpha: u32)
    requires
        rgb <= 0xFF_FFFF,
        alpha <= 0xFF,
    ensures
        with_alpha(rgb, alpha) >> 8u32 == rgb,
        with_alpha(rgb, alpha) & 0xFFu32 == alpha,
{
    assert(((rgb << 8u32) | alpha) >> 8u32 == rgb) by (bit_vector)
        requires
            rgb <= 0xFF_FFFF,
            alpha <= 0xFF,
    ;
    assert(((rgb << 8u32) | alpha) & 0xFFu32 == alpha) by (bit_vector)
        requires
            alpha <= 0xFF,
    ;
}

/// Of a colour of more than three bytes the lowest three are kept.
pub proof fn law_rgba_keeps_three_bytes(rgb: u32, alpha: u32)
    requires
        alpha <= 0xFF,
    ensures
        with_alpha(rgb, alpha) >> 8u32 == rgb % 0x100_0000,
        with_alpha(rgb, alpha) & 0xFFu32 == alpha,
{
    assert(((rgb << 8u32) | alpha) >> 8u32 == rgb % 0x100_0000) by (bit_vector)
        requires
            alpha <= 0xFF,
    ;
    assert(((rgb << 8u32) | alpha) & 0xFFu32 == alpha) by (bit_vector)
        requires
            alpha <= 0xFF,
    ;
}

/// The family that the child at `index` of `parent` belongs to: its own where
/// the parent is where the branches part, and the inherited one elsewhere.
pub fn family_of(parent: u32, branch_root: u32, index: usize, inherited: usize) -> (family: usize)
    ensures
        family == spec_family(parent, branch_root, index, inherited),
{
    if parent == branch_root {
        index
    } else {
        inherited
    }
}

/// The family of the child at `index` of `parent`.
pub open spec fn spec_family(
    parent: u32,
    branch_root: u32,
    index: usize,
    inherited: usize,
) -> usize {
    if parent == branch_root {
        index
    } else {
        inherited
    }
}

/// What is listed under a node: nothing but for folders that were not removed.
pub open spec fn listing(t: Tree, id: int) -> Seq<u32> {
    if t.is_live_folder(id) {
        t.slice(id)
    } else {
        Seq::empty()
    }
}

/// What is listed under a node and takes space.
pub open spec fn sizeable(t: Tree, id: int) -> Seq<u32> {
    listing(t, id).filter(|kid: u32| t.arena@[kid as int].on_disk > 0)
}

/// A listed child: a child of `parent` that was not removed.
pub open spec fn is_listed(t: Tree, parent: int, kid: int) -> bool {
    t.is_child(parent, kid) && !t.arena@[kid].removed
}

/// What is listed are children that were not removed.
pub proof fn lemma_listing(t: Tree, id: int)
    requires
        t.wf(),
    ensures
        forall|k: int|
            0 <= k < listing(t, id).len() ==> is_listed(
                t,
                id,
                (#[trigger] listing(t, id)[k]) as int,
            ),
{
    assert forall|k: int| 0 <= k < listing(t, id).len() implies is_listed(
        t,
        id,
        (#[trigger] listing(t, id)[k]) as int,
    ) by {
        assert(t.slice_ordered(id));
        let kid = t.slice(id)[k];
        assert(kid < t.count());
        assert(t.slice(id).contains((kid as int) as u32));
    }
}

/// A filtered sequence holds values of the sequence that satisfy the condition.
proof fn lemma_filtered<A>(s: Seq<A>, keep: spec_fn(A) -> bool)
    ensures
        s.filter(keep).len() <= s.len(),
        forall|k: int|
            0 <= k < s.filter(keep).len() ==> s.contains(#[trigger] s.filter(keep)[k]) && keep(
                s.filter(keep)[k],
            ),
    decreases s.len(),
{
    reveal(Seq::filter);
    let out = s.filter(keep);
    if s.len() > 0 {
        let front = s.drop_last();
        lemma_filtered(front, keep);
        assert forall|k: int| 0 <= k < out.len() implies s.contains(#[trigger] out[k]) && keep(
            out[k],
        ) by {
            if k < front.filter(keep).len() {
                assert(out[k] == front.filter(keep)[k]);
                assert(front.contains(out[k]));
                let l = choose|l: int| 0 <= l < front.len() && front[l] == out[k];
                assert(s[l] == out[k]);
            } else {
                assert(out[k] == s[s.len() - 1]);
            }
        }
    }
}

/// What takes space are listed children of some size.
pub proof fn lemma_sizeable(t: Tree, id: int)
    requires
        t.wf(),
    ensures
        sizeable(t, id).len() <= listing(t, id).len(),
        forall|k: int|
            0 <= k < sizeable(t, id).len() ==> {
                let kid = (#[trigger] sizeable(t, id)[k]) as int;
                is_listed(t, id, kid) && t.arena@[kid].on_disk > 0
            },
{
    let keep = |kid: u32| t.arena@[kid as int].on_disk > 0;
    let all = listing(t, id);
    lemma_listing(t, id);
    lemma_filtered(all, keep);
    assert forall|k: int| 0 <= k < sizeable(t, id).len() implies {
        let kid = (#[trigger] sizeable(t, id)[k]) as int;
        is_listed(t, id, kid) && t.arena@[kid].on_disk > 0
    } by {
        let kid = sizeable(t, id)[k];
        assert(all.contains(kid));
        let l = choose|l: int| 0 <= l < all.len() && all[l] == kid;
        assert(is_listed(t, id, all[l] as int));
    }
}

/// What is listed under a node and takes space, largest first.
pub fn sizeable_children(tree: &Tree, id: u32) -> (kids: Vec<u32>)
    requires
        tree.wf(),
    ensures
        kids@ == sizeable(*tree, id as int),
{
    let all: &[u32] = tree.children_sorted(id);
    let mut kids: Vec<u32> = Vec::new();
    let mut k: usize = 0;
    proof {
        reveal(Seq::filter);
        assert(all@ == listing(*tree, id as int));
        lemma_listing(*tree, id as int);
        assert forall|n: int| 0 <= n < all@.len() implies is_listed(
            *tree,
            id as int,
            (#[trigger] all@[n]) as int,
        ) by {
            assert(listing(*tree, id as int)[n] == all@[n]);
        }
        assert(all@.take(0) =~= Seq::<u32>::empty());
    }
    while k < all.len()
        invariant
            k <= all@.len(),
            all@ == listing(*tree, id as int),
            forall|n: int|
                0 <= n < all@.len() ==> is_listed(*tree, id as int, (#[trigger] all@[n]) as int),
            kids@ == all@.take(k as int).filter(
                |kid: u32| tree.arena@[kid as int].on_disk > 0,
            ),
        decreases all@.len() - k,
    {
        proof {
            reveal(Seq::filter);
            assert(all@.take(k + 1).drop_last() =~= all@.take(k as int));
        }
        let kid: u32 = all[k];
        assert(is_listed(*tree, id as int, all@[k as int] as int));
        if tree.arena[kid as usize].on_disk > 0 {
            kids.push(kid);
        }
        k = k + 1;
    }
    assert(all@.take(k as int) =~= all@);
    kids
}

/// Number of levels from `id` up to `anc`.
pub open spec fn steps_up(arena: Seq<Node>, id: int, anc: int) -> nat
    decreases id,
{
    if id == anc || !(0 < id < arena.len() && arena[id].parent < id) {
        0
    } else {
        1 + steps_up(arena, arena[id].parent as int, anc)
    }
}

/// Number of levels from `id` up to `anc`, which is `id` or lies above it.
pub fn depth_below(tree: &Tree, id: u32, anc: u32) -> (depth: u32)
    requires
        tree.shaped(),
        id < tree.count(),
        under(tree.arena@, id as int, anc as int),
    ensures
        depth == steps_up(tree.arena@, id as int, anc as int),
        depth <= id,
{
    let mut at: u32 = id;
    let mut depth: u32 = 0;
    while at != anc
        invariant
            tree.shaped(),
            at <= id < tree.count(),
            depth + at <= id,
            under(tree.arena@, at as int, anc as int),
            steps_up(tree.arena@, id as int, anc as int) == depth + steps_up(
                tree.arena@,
                at as int,
                anc as int,
            ),
        decreases at,
    {
        assert(tree.linked(at as int));
        at = tree.arena[at as usize].parent;
        depth = depth + 1;
    }
    depth
}

/// Where the branches below `i` part: down from `i` for as long as a folder
/// alone takes space.
pub open spec fn parting(t: Tree, i: int) -> int
    decreases t.count() - i,
{
    let kids = sizeable(t, i);
    if 0 <= i < t.count() && kids.len() == 1 && i < kids[0] < t.count() && t.arena@[kids[0] as int].dir {
        parting(t, kids[0] as int)
    } else {
        i
    }
}

/// The node whose children are the top-level branches of a layout of `node`:
/// chains of folders with one child that takes space are passed through.
pub fn effective_branch_root(tree: &Tree, node: u32) -> (root: u32)
    requires
        tree.wf(),
        node < tree.count(),
    ensures
        root == parting(*tree, node as int),
        root < tree.count(),
        under(tree.arena@, root as int, node as int),
{
    let mut at: u32 = node;
    loop
        invariant
            tree.wf(),
            node <= at < tree.count(),
            under(tree.arena@, at as int, node as int),
            parting(*tree, node as int) == parting(*tree, at as int),
        decreases tree.count() - at,
    {
        let kids: Vec<u32> = sizeable_children(tree, at);
        if kids.len() != 1 {
            return at;
        }
        let kid: u32 = kids[0];
        proof {
            lemma_sizeable(*tree, at as int);
            assert(is_listed(*tree, at as int, sizeable(*tree, at as int)[0] as int));
            assert(tree.linked(kid as int));
            assert(under(tree.arena@, at as int, at as int));
            assert(under(tree.arena@, kid as int, at as int));
            lemma_under_transitive(tree.arena@, kid as int, at as int, node as int);
        }
        if !tree.arena[kid as usize].dir {
            return at;
        }
        at = kid;
    }
}

/// The sizes of nodes by position.
pub open spec fn sizes_of(t: Tree, ids: Seq<u32>) -> spec_fn(int) -> nat {
    |k: int| t.arena@[ids[k] as int].on_disk as nat
}

/// The sizes of nodes together; the sum saturates.
pub fn total_size(tree: &Tree, ids: &Vec<u32>) -> (total: u64)
    requires
        forall|k: int| 0 <= k < ids@.len() ==> (#[trigger] ids@[k]) < tree.count(),
    ensures
        total == saturated(sum(sizes_of(*tree, ids@), 0, ids@.len() as int)),
{
    let mut total: u64 = 0;
    let mut k: usize = 0;
    while k < ids.len()
        invariant
            k <= ids@.len(),
            forall|k: int| 0 <= k < ids@.len() ==> (#[trigger] ids@[k]) < tree.count(),
            total == saturated(sum(sizes_of(*tree, ids@), 0, k as int)),
        decreases ids@.len() - k,
    {
        assert(ids@[k as int] < tree.count());
        total = total.saturating_add(tree.arena[ids[k] as usize].on_disk);
        k = k + 1;
    }
    total
}

/// The children of one node on their way onto the canvas.
#[derive(Debug)]
pub struct Level {
    /// The node.
    pub parent: u32,
    /// The children, in the order in which they are drawn.
    pub ids: Vec<u32>,
    /// So many of them are drawn.
    pub shown: usize,
    /// Position of the one that is next.
    pub next: usize,
    /// Level of the children below the layout's root.
    pub depth: u32,
    /// Levels left, this one counted.
    pub depth_left: u32,
    /// Family of colours that the node was given.
    pub family: usize,
}

impl Level {
    /// The children are listed children of a node at or below the layout's
    /// root.
    pub open spec fn wf(&self, t: Tree, root: u32) -> bool {
        &&& self.parent < t.count()
        &&& under(t.arena@, self.parent as int, root as int)
        &&& self.depth == steps_up(t.arena@, self.parent as int, root as int) + 1
        &&& self.depth_left > 0
        &&& self.next <= self.shown <= self.ids@.len()
        &&& forall|k: int|
            0 <= k < self.ids@.len() ==> is_listed(
                t,
                self.parent as int,
                (#[trigger] self.ids@[k]) as int,
            )
    }

    /// A child is left to be drawn.
    pub open spec fn has_next(&self) -> bool {
        self.next < self.shown
    }

    /// The child that is next.
    pub open spec fn item(&self) -> u32 {
        self.ids@[self.next as int]
    }
}

/// The levels that have something left, up to the innermost one.
pub open spec fn trimmed(levels: Seq<Level>) -> Seq<Level>
    decreases levels.len(),
{
    if levels.len() == 0 || levels.last().has_next() {
        levels
    } else {
        trimmed(levels.drop_last())
    }
}

/// Trimming takes levels off the end.
pub proof fn lemma_trimmed(levels: Seq<Level>)
    ensures
        trimmed(levels).len() <= levels.len(),
        trimmed(levels) == levels.take(trimmed(levels).len() as int),
        trimmed(levels).len() > 0 ==> trimmed(levels).last().has_next(),
    decreases levels.len(),
{
    if levels.len() > 0 && !levels.last().has_next() {
        lemma_trimmed(levels.drop_last());
        let n = trimmed(levels).len() as int;
        assert(levels.drop_last().take(n) =~= levels.take(n));
    } else {
        assert(levels.take(levels.len() as int) =~= levels);
    }
}

/// Take the levels off that have nothing left.
pub fn trim(levels: &mut Vec<Level>)
    ensures
        final(levels)@ == trimmed(old(levels)@),
{
    while levels.len() > 0 && levels[levels.len() - 1].next >= levels[levels.len() - 1].shown
        invariant
            trimmed(levels@) == trimmed(old(levels)@),
        decreases levels@.len(),
    {
        let ghost before = levels@;
        let _ = levels.pop();
        assert(levels@ =~= before.drop_last());
    }
}

/// The innermost level is one child further.
pub fn advance(levels: &mut Vec<Level>)
    requires
        old(levels)@.len() > 0,
        old(levels)@.last().has_next(),
    ensures
        final(levels)@ == advanced(old(levels)@),
{
    let mut top: Level = levels.pop().unwrap();
    top.next = top.next + 1;
    levels.push(top);
    assert(levels@ =~= advanced(old(levels)@));
}

/// The levels with the innermost one child further.
pub open spec fn advanced(levels: Seq<Level>) -> Seq<Level> {
    let top = levels.last();
    levels.drop_last().push(Level { next: (top.next + 1) as usize, ..top })
}

/// All levels are well formed.
pub open spec fn levels_wf(levels: Seq<Level>, t: Tree, root: u32) -> bool {
    forall|k: int| 0 <= k < levels.len() ==> (#[trigger] levels[k]).wf(t, root)
}

/// Moving on and trimming keep levels well formed.
pub proof fn lemma_levels_move(levels: Seq<Level>, t: Tree, root: u32)
    requires
        levels_wf(levels, t, root),
    ensures
        levels_wf(trimmed(levels), t, root),
        levels.len() > 0 && levels.last().has_next() ==> levels_wf(advanced(levels), t, root),
{
    lemma_trimmed(levels);
    let kept = trimmed(levels);
    assert forall|k: int| 0 <= k < kept.len() implies (#[trigger] kept[k]).wf(t, root) by {
        assert(kept[k] == levels[k]);
    }
    if levels.len() > 0 && levels.last().has_next() {
        let moved = advanced(levels);
        assert forall|k: int| 0 <= k < moved.len() implies (#[trigger] moved[k]).wf(t, root) by {
            assert(levels[k].wf(t, root));
        }
    }
}

/// The level of what is listed under `parent`, all of it or what takes space.
pub fn level_of(
    tree: &Tree,
    parent: u32,
    root: u32,
    depth_left: u32,
    family: usize,
    all: bool,
) -> (level: Level)
    requires
        tree.wf(),
        parent < tree.count(),
        under(tree.arena@, parent as int, root as int),
        depth_left > 0,
    ensures
        level.wf(*tree, root),
        level.parent == parent,
        level.ids@ == if all {
            listing(*tree, parent as int)
        } else {
            sizeable(*tree, parent as int)
        },
        level.shown == 0,
        level.next == 0,
        level.depth_left == depth_left,
        level.family == family,
{
    let ids: Vec<u32> = if all {
        listed_children(tree, parent)
    } else {
        sizeable_children(tree, parent)
    };
    let depth: u32 = depth_below(tree, parent, root) + 1;
    proof {
        lemma_listing(*tree, parent as int);
        lemma_sizeable(*tree, parent as int);
    }
    Level { parent, ids, shown: 0, next: 0, depth, depth_left, family }
}

/// What is listed under a node, largest first.
fn listed_children(tree: &Tree, id: u32) -> (kids: Vec<u32>)
    requires
        tree.wf(),
    ensures
        kids@ == listing(*tree, id as int),
{
    let all: &[u32] = tree.children_sorted(id);
    let mut kids: Vec<u32> = Vec::new();
    let mut k: usize = 0;
    while k < all.len()
        invariant
            k <= all@.len(),
            kids@ == all@.take(k as int),
        decreases all@.len() - k,
    {
        kids.push(all[k]);
        k = k + 1;
        assert(kids@ =~= all@.take(k as int));
    }
    assert(all@.take(k as int) =~= all@);
    kids
}

/// The child that is next lies below the layout's root.
pub proof fn lemma_item_under(t: Tree, level: Level, root: u32)
    requires
        t.wf(),
        level.wf(t, root),
        level.has_next(),
    ensures
        under(t.arena@, level.item() as int, root as int),
{
    assert(is_listed(t, level.parent as int, level.ids@[level.next as int] as int));
    let id = level.item() as int;
    assert(t.linked(id));
    assert(under(t.arena@, level.parent as int, level.parent as int));
    assert(under(t.arena@, id, level.parent as int));
    lemma_under_transitive(t.arena@, id, level.parent as int, root as int);
}

/// The sizes of listed children.
pub fn node_sizes(tree: &Tree, ids: &Vec<u32>, parent: u32) -> (sizes: Vec<u64>)
    requires
        forall|k: int|
            0 <= k < ids@.len() ==> is_listed(*tree, parent as int, (#[trigger] ids@[k]) as int),
    ensures
        sizes@.len() == ids@.len(),
        forall|k: int|
            0 <= k < sizes@.len() ==> #[trigger] sizes@[k] == tree.arena@[ids@[k] as int].on_disk,
{
    let mut sizes: Vec<u64> = Vec::new();
    let mut k: usize = 0;
    while k < ids.len()
        invariant
            k <= ids@.len(),
            sizes@.len() == k,
            forall|n: int|
                0 <= n < ids@.len() ==> is_listed(*tree, parent as int, (#[trigger] ids@[n]) as int),
            forall|n: int|
                0 <= n < k ==> #[trigger] sizes@[n] == tree.arena@[ids@[n] as int].on_disk,
        decreases ids@.len() - k,
    {
        assert(is_listed(*tree, parent as int, ids@[k as int] as int));
        sizes.push(tree.arena[ids[k] as usize].on_disk);
        k = k + 1;
    }
    sizes
}

} // verus!
