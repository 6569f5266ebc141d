//! The sunburst: a ring per level, arcs as long as their nodes are large.

use crate::error::CoreError;
use crate::layout::{
    advance, advanced, effective_branch_root, family_of, is_listed, lemma_item_under,
    lemma_levels_move, level_of, levels_wf, listing, parting, sizes_of, spec_family,
    tint, tint_of, total_size, trim, trimmed, ColorMode, Level, Tint,
};
use crate::scan::node::{under, Node, Tree};
use crate::scan::sums::{saturated, sum};
use vstd::prelude::*;

verus! {

/// What a sunburst wants to know next.
#[derive(Debug)]
pub enum SunburstAsk {
    /// Divide the arc of this node among its children.
    Ring {
        /// The node.
        node: u32,
        /// The sizes of its children together; the sum saturates.
        total: u64,
        /// Number of children that take space.
        visible: usize,
    },
    /// Look at the arc of a child.
    Item {
        /// The child.
        id: u32,
        /// Its size.
        size: u64,
    },
    /// Nothing: everything is drawn.
    Done,
}

/// The arc of a child.
#[derive(Debug, Clone, Copy)]
pub struct SunburstDraw {
    /// The child.
    pub id: u32,
    /// The arc is drawn.
    pub arc: bool,
    /// The child's own children are drawn on the next ring.
    pub children: bool,
    /// Level of the child.
    pub depth: u16,
    /// Colour of the child.
    pub tint: Tint,
}

/// A sunburst that is being laid out.
#[derive(Debug)]
pub struct SunburstWalk {
    /// The rings that are being drawn, the outermost last.
    pub levels: Vec<Level>,
    /// The ring that is about to be drawn.
    pub opening: Option<Level>,
    /// The sizes of the children on that ring together.
    pub total: u64,
    /// Cells drawn so far.
    pub used: usize,
    /// Cells that may be drawn.
    pub budget: usize,
    /// Something was left out for want of cells.
    pub truncated: bool,
    /// What the colours stand for.
    pub color: ColorMode,
    /// The node that is laid out.
    pub root: u32,
    /// The node whose children are the top-level branches.
    pub branch_root: u32,
}

/// The levels that have something left that takes space. What takes none comes
/// last on its level.
pub open spec fn with_space(t: Tree, levels: Seq<Level>) -> Seq<Level>
    decreases levels.len(),
{
    if levels.len() == 0 || (levels.last().has_next() && t.arena@[levels.last().item() as int].on_disk
        > 0) {
        levels
    } else {
        with_space(t, levels.drop_last())
    }
}

/// Leaving levels without space takes levels off the end.
proof fn lemma_with_space(t: Tree, levels: Seq<Level>, root: u32)
    requires
        levels_wf(levels, t, root),
    ensures
        with_space(t, levels).len() <= levels.len(),
        with_space(t, levels) == levels.take(with_space(t, levels).len() as int),
        levels_wf(with_space(t, levels), t, root),
        with_space(t, levels).len() > 0 ==> with_space(t, levels).last().has_next()
            && t.arena@[with_space(t, levels).last().item() as int].on_disk > 0,
    decreases levels.len(),
{
    if levels.len() > 0 && !(levels.last().has_next()
        && t.arena@[levels.last().item() as int].on_disk > 0) {
        let front = levels.drop_last();
        assert forall|k: int| 0 <= k < front.len() implies (#[trigger] front[k]).wf(t, root) by {
            assert(levels[k].wf(t, root));
        }
        lemma_with_space(t, front, root);
        let n = with_space(t, levels).len() as int;
        assert(front.take(n) =~= levels.take(n));
    } else {
        assert(levels.take(levels.len() as int) =~= levels);
    }
}

/// Behind a child that takes no space no sibling takes any.
pub proof fn law_what_takes_no_space_comes_last(t: Tree, parent: int, k: int, l: int)
    requires
        t.wf(),
        0 <= k < l < listing(t, parent).len(),
        t.arena@[listing(t, parent)[k] as int].on_disk == 0,
    ensures
        t.arena@[listing(t, parent)[l] as int].on_disk == 0,
{
    assert(t.slice_ordered(parent));
    assert(t.arena@[t.slice(parent)[k] as int].on_disk >= t.arena@[t.slice(
        parent,
    )[l] as int].on_disk);
}

impl SunburstWalk {
    /// The rings hold children that were not removed; no more cells were drawn
    /// than may be, but for the disc in the centre; and where a child is next it
    /// takes space and there is room for a cell.
    pub open spec fn wf(&self, t: Tree) -> bool {
        &&& t.wf()
        &&& self.root < t.count()
        &&& self.branch_root == parting(t, self.root as int)
        &&& levels_wf(self.levels@, t, self.root)
        &&& self.used <= self.budget || self.used == 1
        &&& match self.opening {
            Some(level) => {
                &&& level.wf(t, self.root)
                &&& level.next == 0
                &&& level.shown == level.ids@.len()
                &&& level.ids@ == listing(t, level.parent as int)
                &&& self.total == saturated(
                    sum(sizes_of(t, level.ids@), 0, level.ids@.len() as int),
                )
                &&& self.total > 0
            },
            None => self.levels@.len() > 0 ==> {
                &&& self.levels@.last().has_next()
                &&& t.arena@[self.levels@.last().item() as int].on_disk > 0
                &&& self.used < self.budget
            },
        }
    }

    /// A child is next.
    pub open spec fn at_item(&self) -> bool {
        self.opening is None && self.levels@.len() > 0
    }

    /// The ring of the child that is next.
    pub open spec fn top(&self) -> Level {
        self.levels@.last()
    }

    /// What is laid out, and how, stays.
    pub open spec fn same_layout(&self, other: Self) -> bool {
        &&& other.budget == self.budget
        &&& other.color == self.color
        &&& other.root == self.root
        &&& other.branch_root == self.branch_root
    }

    /// Start laying out `node` down to `depth` rings; the disc in the centre is
    /// the first cell. `rings_fit` says whether a ring can be seen at all.
    pub fn start(
        tree: &Tree,
        node: u32,
        depth: u32,
        rings_fit: bool,
        color: ColorMode,
        budget: usize,
    ) -> (walk: Result<Self, CoreError>)
        requires
            tree.wf(),
        ensures
            match walk {
                Ok(w) => node < tree.count() && w.wf(*tree) && starts_sunburst(
                    *tree,
                    node,
                    depth,
                    rings_fit,
                    color,
                    budget,
                    w,
                ),
                Err(error) => node >= tree.count() && error == CoreError::NodeNotFound(node),
            },
    {
        if node as usize >= tree.arena.len() {
            return Err(CoreError::NodeNotFound(node));
        }
        let branch_root: u32 = effective_branch_root(tree, node);
        let mut walk: SunburstWalk = SunburstWalk {
            levels: Vec::new(),
            opening: None,
            total: 0,
            used: 1,
            budget,
            truncated: false,
            color,
            root: node,
            branch_root,
        };
        if depth > 0 && rings_fit && tree.arena[node as usize].on_disk > 0 {
            proof {
                assert(under(tree.arena@, node as int, node as int));
                assert(walk.levels@ =~= Seq::<Level>::empty());
            }
            walk.open_ring(tree, node, depth, 0);
        }
        Ok(walk)
    }

    /// What the sunburst wants to know next.
    pub fn ask(&self, tree: &Tree) -> (ask: SunburstAsk)
        requires
            self.wf(*tree),
        ensures
            match ask {
                SunburstAsk::Ring { node, total, visible } => {
                    &&& self.opening matches Some(level) && node == level.parent
                    &&& total == self.total
                    &&& visible == crate::layout::sizeable(*tree, node as int).len()
                },
                SunburstAsk::Item { id, size } => self.at_item() && id == self.top().item() && size
                    == tree.arena@[id as int].on_disk,
                SunburstAsk::Done => self.opening is None && self.levels@.len() == 0,
            },
    {
        match &self.opening {
            Some(level) => SunburstAsk::Ring {
                node: level.parent,
                total: self.total,
                visible: crate::layout::sizeable_children(tree, level.parent).len(),
            },
            None => {
                if self.levels.len() == 0 {
                    SunburstAsk::Done
                } else {
                    let top: &Level = &self.levels[self.levels.len() - 1];
                    let id: u32 = top.ids[top.next];
                    proof {
                        assert(self.levels@[self.levels@.len() - 1].wf(*tree, self.root));
                        assert(is_listed(*tree, top.parent as int, top.ids@[top.next as int] as int));
                    }
                    SunburstAsk::Item { id, size: tree.arena[id as usize].on_disk }
                }
            },
        }
    }

    /// The arc was divided: go on with the first child on the ring.
    pub fn reply_ring(&mut self, tree: &Tree)
        requires
            old(self).wf(*tree),
            old(self).opening is Some,
        ensures
            final(self).wf(*tree),
            turns_to_ring(*tree, *old(self), *final(self)),
    {
        let ghost before = *self;
        let opening: Option<Level> = self.opening.take();
        self.levels.push(opening.unwrap());
        proof {
            let open = self.levels@;
            assert forall|k: int| 0 <= k < open.len() implies (#[trigger] open[k]).wf(
                *tree,
                self.root,
            ) by {
                if k < before.levels@.len() {
                    assert(open[k] == before.levels@[k]);
                }
            }
        }
        self.settle(tree);
    }

    /// Draw the arc of the child that is next, or pass it over where it is too
    /// short to be seen, and go on.
    pub fn reply_item(&mut self, tree: &Tree, seen: bool) -> (draw: SunburstDraw)
        requires
            old(self).wf(*tree),
            old(self).at_item(),
        ensures
            final(self).wf(*tree),
            draws_arc(*tree, *old(self), seen, *final(self), draw),
    {
        let ghost before = *self;
        let top: &Level = &self.levels[self.levels.len() - 1];
        let id: u32 = top.ids[top.next];
        proof {
            assert(before.levels@[before.levels@.len() - 1].wf(*tree, self.root));
            assert(is_listed(*tree, top.parent as int, top.ids@[top.next as int] as int));
            lemma_levels_move(before.levels@, *tree, self.root);
            lemma_item_under(*tree, before.top(), self.root);
        }
        let node: &Node = &tree.arena[id as usize];
        let family: usize = family_of(top.parent, self.branch_root, top.next, top.family);
        let depth: u16 = #[verifier::truncate]
        (top.depth as u16);
        let shade: Tint = tint(self.color, node.category, family, depth, top.next);
        let depth_left: u32 = top.depth_left;
        let children: bool = seen && node.dir && node.child_count > 0 && depth_left > 1;
        advance(&mut self.levels);
        if seen {
            self.used = self.used + 1;
        }
        if children {
            self.open_ring(tree, id, depth_left - 1, family);
        } else {
            self.settle(tree);
        }
        SunburstDraw { id, arc: seen, children, depth, tint: shade }
    }

    /// Turn to the ring of the children of `node`; a node whose children take no
    /// space has none.
    fn open_ring(&mut self, tree: &Tree, node: u32, depth_left: u32, family: usize)
        requires
            tree.wf(),
            old(self).root < tree.count(),
            old(self).branch_root == parting(*tree, old(self).root as int),
            levels_wf(old(self).levels@, *tree, old(self).root),
            old(self).used <= old(self).budget || old(self).used == 1,
            old(self).opening is None,
            node < tree.count(),
            under(tree.arena@, node as int, old(self).root as int),
            depth_left > 0,
        ensures
            final(self).wf(*tree),
            old(self).same_layout(*final(self)),
            final(self).used == old(self).used,
            opens_ring(
                *tree,
                old(self).levels@,
                old(self).used,
                old(self).budget,
                old(self).truncated,
                node,
                depth_left,
                family,
                *final(self),
            ),
    {
        let mut level: Level = level_of(tree, node, self.root, depth_left, family, true);
        level.shown = level.ids.len();
        proof {
            assert forall|k: int| 0 <= k < level.ids@.len() implies (#[trigger] level.ids@[k])
                < tree.count() by {
                assert(is_listed(*tree, node as int, level.ids@[k] as int));
            }
        }
        let total: u64 = total_size(tree, &level.ids);
        if total == 0 {
            self.settle(tree);
        } else {
            self.total = total;
            self.opening = Some(level);
        }
    }

    /// Leave finished rings. Where something is left but no cell may be drawn any
    /// more, stop and say so.
    fn settle(&mut self, tree: &Tree)
        requires
            tree.wf(),
            old(self).root < tree.count(),
            old(self).branch_root == parting(*tree, old(self).root as int),
            levels_wf(old(self).levels@, *tree, old(self).root),
            old(self).used <= old(self).budget || old(self).used == 1,
            old(self).opening is None,
        ensures
            final(self).wf(*tree),
            old(self).same_layout(*final(self)),
            final(self).used == old(self).used,
            final(self).opening is None,
            goes_on(
                *tree,
                old(self).levels@,
                old(self).used,
                old(self).budget,
                old(self).truncated,
                *final(self),
            ),
    {
        let ghost before = self.levels@;
        trim(&mut self.levels);
        proof {
            lemma_levels_move(before, *tree, self.root);
            lemma_with_space(*tree, before, self.root);
            lemma_trim_first(*tree, before);
        }
        if self.levels.len() > 0 && self.used >= self.budget {
            self.truncated = true;
            self.levels = Vec::new();
            return;
        }
        leave_spaceless(tree, &mut self.levels, self.root);
    }
}

/// True when the child that is next on this level takes space.
fn next_takes_space(tree: &Tree, level: &Level, root: u32) -> (takes: bool)
    requires
        level.wf(*tree, root),
    ensures
        takes == (level.has_next() && tree.arena@[level.item() as int].on_disk > 0),
{
    if level.next >= level.shown {
        return false;
    }
    assert(is_listed(*tree, level.parent as int, level.ids@[level.next as int] as int));
    tree.arena[level.ids[level.next] as usize].on_disk > 0
}

/// Take the levels off on which nothing is left that takes space.
fn leave_spaceless(tree: &Tree, levels: &mut Vec<Level>, root: u32)
    requires
        levels_wf(old(levels)@, *tree, root),
    ensures
        final(levels)@ == with_space(*tree, old(levels)@),
{
    while levels.len() > 0 && !next_takes_space(tree, &levels[levels.len() - 1], root)
        invariant
            levels_wf(levels@, *tree, root),
            with_space(*tree, levels@) == with_space(*tree, old(levels)@),
        decreases levels@.len(),
    {
        let ghost held = levels@;
        let _ = levels.pop();
        proof {
            assert(levels@ =~= held.drop_last());
            assert forall|k: int| 0 <= k < levels@.len() implies (#[trigger] levels@[k]).wf(
                *tree,
                root,
            ) by {
                assert(held[k].wf(*tree, root));
            }
        }
    }
}

/// Trimming first changes nothing of what has space.
proof fn lemma_trim_first(t: Tree, levels: Seq<Level>)
    ensures
        with_space(t, trimmed(levels)) == with_space(t, levels),
    decreases levels.len(),
{
    if levels.len() > 0 && !levels.last().has_next() {
        lemma_trim_first(t, levels.drop_last());
    }
}

/// `walk` starts laying out `node` down to `depth` rings, behind the disc in the
/// centre.
pub open spec fn starts_sunburst(
    t: Tree,
    node: u32,
    depth: u32,
    rings_fit: bool,
    color: ColorMode,
    budget: usize,
    walk: SunburstWalk,
) -> bool {
    &&& walk.used == 1
    &&& walk.budget == budget
    &&& walk.color == color
    &&& walk.root == node
    &&& if depth > 0 && rings_fit && t.arena@[node as int].on_disk > 0 {
        opens_ring(t, Seq::empty(), 1, budget, false, node, depth, 0, walk)
    } else {
        walk.levels@.len() == 0 && walk.opening is None && !walk.truncated
    }
}

/// What turning to the ring that is about to be drawn makes of `pre`.
pub open spec fn turns_to_ring(t: Tree, pre: SunburstWalk, post: SunburstWalk) -> bool {
    &&& pre.same_layout(post)
    &&& post.used == pre.used
    &&& post.opening is None
    &&& goes_on(
        t,
        pre.levels@.push(pre.opening->0),
        pre.used,
        pre.budget,
        pre.truncated,
        post,
    )
}

/// `walk` goes on with what is left of `levels` and takes space, or stops there
/// for want of cells, and says so.
pub open spec fn goes_on(
    t: Tree,
    levels: Seq<Level>,
    used: usize,
    budget: usize,
    left_out: bool,
    walk: SunburstWalk,
) -> bool {
    if trimmed(levels).len() > 0 && used >= budget {
        walk.levels@ == Seq::<Level>::empty() && walk.truncated
    } else {
        walk.levels@ == with_space(t, levels) && walk.truncated == left_out
    }
}

/// `walk` turns to the ring of the children of `node`, or passes it over where
/// they take no space.
pub open spec fn opens_ring(
    t: Tree,
    levels: Seq<Level>,
    used: usize,
    budget: usize,
    left_out: bool,
    node: u32,
    depth_left: u32,
    family: usize,
    walk: SunburstWalk,
) -> bool {
    let ids = listing(t, node as int);
    let total = sum(sizes_of(t, ids), 0, ids.len() as int);
    if total == 0 {
        walk.opening is None && goes_on(t, levels, used, budget, left_out, walk)
    } else {
        &&& walk.levels@ == levels
        &&& walk.truncated == left_out
        &&& walk.opening matches Some(level) && level.parent == node && level.depth_left
            == depth_left && level.family == family
    }
}

/// What an arc that is seen or not makes of `pre`, and what is drawn.
pub open spec fn draws_arc(
    t: Tree,
    pre: SunburstWalk,
    seen: bool,
    post: SunburstWalk,
    draw: SunburstDraw,
) -> bool {
    let top = pre.top();
    let node = t.arena@[top.item() as int];
    let family = spec_family(top.parent, pre.branch_root, top.next, top.family);
    let children = seen && node.dir && node.child_count > 0 && top.depth_left > 1;
    &&& pre.same_layout(post)
    &&& draw.id == top.item()
    &&& draw.arc == seen
    &&& draw.children == children
    &&& draw.depth == top.depth as u16
    &&& draw.tint == tint_of(pre.color, node.category, family, top.depth as u16, top.next)
    &&& post.used == pre.used + if seen {
        1int
    } else {
        0
    }
    &&& if children {
        opens_ring(
            t,
            advanced(pre.levels@),
            post.used,
            pre.budget,
            pre.truncated,
            top.item(),
            (top.depth_left - 1) as u32,
            family,
            post,
        )
    } else {
        post.opening is None && goes_on(
            t,
            advanced(pre.levels@),
            post.used,
            pre.budget,
            pre.truncated,
            post,
        )
    }
}

/// What a sunburst draws are nodes below its root that were not removed and take
/// space, and it draws no more cells than it may, the disc in the centre aside.
pub proof fn law_sunburst_draws_what_takes_space(t: Tree, walk: SunburstWalk)
    requires
        walk.wf(t),
        walk.at_item(),
    ensures
        walk.used < walk.budget,
        ({
            let id = walk.top().item() as int;
            &&& id < t.count()
            &&& !t.arena@[id].removed
            &&& t.arena@[id].on_disk > 0
            &&& under(t.arena@, id, walk.root as int)
            &&& t.is_child(walk.top().parent as int, id)
        }),
{
    let top = walk.top();
    assert(walk.levels@[walk.levels@.len() - 1] == top);
    assert(top.wf(t, walk.root));
    lemma_item_under(t, top, walk.root);
    assert(is_listed(t, top.parent as int, top.ids@[top.next as int] as int));
}

} // verus!
