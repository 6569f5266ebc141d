//! The treemap: every file as a rectangle, sized by its bytes, folders as groups
//! with a header.

use crate::error::CoreError;
use crate::layout::{
    advance, advanced, effective_branch_root, is_listed, lemma_item_under, lemma_levels_move, lemma_sizeable,
    lemma_trimmed, level_of, levels_wf, node_sizes, parting, sizeable, spec_family, tint, tint_of, trim,
    trimmed, ColorMode, Level, Tint,
};
use crate::scan::node::{under, Node, Tree};
use vstd::prelude::*;

verus! {

/// What a treemap wants to know next.
#[derive(Debug)]
pub enum TreemapAsk {
    /// Split the rectangle that this node was given by these sizes.
    Level {
        /// The node.
        node: u32,
        /// The sizes of its children, largest first.
        sizes: Vec<u64>,
    },
    /// Look at the rectangle of a child.
    Item {
        /// The child.
        id: u32,
        /// Its position.
        index: usize,
    },
    /// Nothing: everything is drawn.
    Done,
}

/// What the rectangle of a child has room for.
#[derive(Debug, Clone, Copy)]
pub struct TreemapFit {
    /// A header strip.
    pub header: bool,
    /// Children of its own below the header, if there is one.
    pub roomy: bool,
    /// Anything at all below the header, if there is one.
    pub visible: bool,
}

/// What is drawn of a child.
#[derive(Debug, Clone, Copy)]
pub struct TreemapDraw {
    /// The child.
    pub id: u32,
    /// A header strip.
    pub header: bool,
    /// The rectangle, below the header if there is one.
    pub rect: bool,
    /// The child's own children, below the header if there is one.
    pub children: bool,
    /// Level of the child.
    pub depth: u16,
    /// Colour of the child.
    pub tint: Tint,
}

/// A treemap that is being laid out.
#[derive(Debug)]
pub struct TreemapWalk {
    /// The levels that are being drawn, the innermost last.
    pub levels: Vec<Level>,
    /// The level that is about to be opened.
    pub opening: Option<Level>,
    /// Cells drawn so far.
    pub used: usize,
    /// Cells that may be drawn.
    pub budget: usize,
    /// Something was left out.
    pub truncated: bool,
    /// What the colours stand for.
    pub color: ColorMode,
    /// The node that is laid out.
    pub root: u32,
    /// The node whose children are the top-level branches.
    pub branch_root: u32,
}

impl TreemapWalk {
    /// The levels hold children that were not removed and take space, and no more
    /// cells were drawn than may be.
    pub open spec fn wf(&self, t: Tree) -> bool {
        &&& t.wf()
        &&& self.root < t.count()
        &&& self.branch_root == parting(t, self.root as int)
        &&& levels_wf(self.levels@, t, self.root)
        &&& forall|k: int|
            0 <= k < self.levels@.len() ==> (#[trigger] self.levels@[k]).ids@ == sizeable(
                t,
                self.levels@[k].parent as int,
            )
        &&& self.used <= self.budget
        &&& match self.opening {
            Some(level) => level.wf(t, self.root) && level.ids@ == sizeable(t, level.parent as int)
                && level.next == 0 && level.shown == 0,
            None => self.levels@.len() > 0 ==> self.levels@.last().has_next(),
        }
    }

    /// A level is about to be opened.
    pub open spec fn at_level(&self) -> bool {
        self.opening is Some
    }

    /// A child is next.
    pub open spec fn at_item(&self) -> bool {
        self.opening is None && self.levels@.len() > 0
    }

    /// Nothing is left to be drawn.
    pub open spec fn is_done(&self) -> bool {
        self.opening is None && self.levels@.len() == 0
    }

    /// The level of the child that is next.
    pub open spec fn top(&self) -> Level {
        self.levels@.last()
    }

    /// Start laying out `node` down to `depth` levels.
    pub fn start(tree: &Tree, node: u32, depth: u32, color: ColorMode, budget: usize) -> (walk:
        Result<Self, CoreError>)
        requires
            tree.wf(),
        ensures
            match walk {
                Ok(w) => node < tree.count() && w.wf(*tree) && starts_treemap(
                    node,
                    depth,
                    color,
                    budget,
                    w,
                ),
                Err(error) => node >= tree.count() && error == CoreError::NodeNotFound(node),
            },
    {
        if node as usize >= tree.arena.len() {
            return Err(CoreError::NodeNotFound(node));
        }
        let branch_root: u32 = effective_branch_root(tree, node);
        let opening: Option<Level> = if depth == 0 {
            None
        } else {
            Some(level_of(tree, node, node, depth, 0, false))
        };
        Ok(
            TreemapWalk {
                levels: Vec::new(),
                opening,
                used: 0,
                budget,
                truncated: false,
                color,
                root: node,
                branch_root,
            },
        )
    }

    /// What the treemap wants to know next.
    pub fn ask(&self, tree: &Tree) -> (ask: TreemapAsk)
        requires
            self.wf(*tree),
        ensures
            match ask {
                TreemapAsk::Level { node, sizes } => {
                    &&& self.opening matches Some(level) && node == level.parent
                        && sizes@.len() == level.ids@.len() && forall|k: int|
                        0 <= k < sizes@.len() ==> #[trigger] sizes@[k]
                            == tree.arena@[level.ids@[k] as int].on_disk
                },
                TreemapAsk::Item { id, index } => self.at_item() && id == self.top().item()
                    && index == self.top().next,
                TreemapAsk::Done => self.is_done(),
            },
    {
        match &self.opening {
            Some(level) => TreemapAsk::Level {
                node: level.parent,
                sizes: node_sizes(tree, &level.ids, level.parent),
            },
            None => {
                if self.levels.len() == 0 {
                    TreemapAsk::Done
                } else {
                    let top: &Level = &self.levels[self.levels.len() - 1];
                    TreemapAsk::Item { id: top.ids[top.next], index: top.next }
                }
            },
        }
    }

    /// The node's rectangle was split into `rects` rectangles, or is not visible
    /// at all. Where there are fewer rectangles than children, the rest is left
    /// out, and that is said.
    pub fn reply_level(&mut self, tree: &Tree, visible: bool, rects: usize)
        requires
            old(self).wf(*tree),
            old(self).at_level(),
        ensures
            final(self).wf(*tree),
            opens_level(*old(self), visible, rects, *final(self)),
    {
        let ghost before = *self;
        let opening: Option<Level> = self.opening.take();
        let mut level: Level = opening.unwrap();
        if visible {
            if rects < level.ids.len() {
                level.shown = rects;
                self.truncated = true;
            } else {
                level.shown = level.ids.len();
            }
            self.levels.push(level);
        }
        let ghost open = self.levels@;
        proof {
            assert forall|k: int| 0 <= k < open.len() implies (#[trigger] open[k]).wf(
                *tree,
                self.root,
            ) && open[k].ids@ == sizeable(*tree, open[k].parent as int) by {
                if k < before.levels@.len() {
                    assert(open[k] == before.levels@[k]);
                }
            }
        }
        self.settle(tree);
    }

    /// What is laid out, and how, stays.
    pub open spec fn same_layout(&self, other: Self) -> bool {
        &&& other.budget == self.budget
        &&& other.color == self.color
        &&& other.root == self.root
        &&& other.branch_root == self.branch_root
    }

    /// Draw what there is room for in the rectangle of the child that is next,
    /// and go on. A child that cannot be seen is left out, and that is said.
    ///
    /// # Errors
    /// [`CoreError::TooManyCells`] when the cells of the child would be more than
    /// may be drawn. The treemap ends there.
    pub fn reply_item(&mut self, tree: &Tree, fit: TreemapFit) -> (answer: Result<
        TreemapDraw,
        CoreError,
    >)
        requires
            old(self).wf(*tree),
            old(self).at_item(),
        ensures
            final(self).wf(*tree),
            match answer {
                Ok(draw) => {
                    &&& old(self).used + cells_due(*tree, *old(self), fit) <= old(self).budget
                    &&& draws_item(*tree, *old(self), fit, *final(self), draw)
                },
                Err(error) => {
                    &&& old(self).used + cells_due(*tree, *old(self), fit) > old(self).budget
                    &&& error == CoreError::TooManyCells
                    &&& old(self).same_layout(*final(self))
                    &&& final(self).is_done()
                    &&& final(self).used == old(self).used
                    &&& final(self).truncated == old(self).truncated
                },
            },
    {
        let ghost before = *self;
        let top: &Level = &self.levels[self.levels.len() - 1];
        let id: u32 = top.ids[top.next];
        proof {
            assert(before.levels@[before.levels@.len() - 1].wf(*tree, self.root));
            assert(is_listed(*tree, top.parent as int, top.ids@[top.next as int] as int));
            lemma_levels_move(before.levels@, *tree, self.root);
        }
        let node: &Node = &tree.arena[id as usize];
        let family: usize = crate::layout::family_of(
            top.parent,
            self.branch_root,
            top.next,
            top.family,
        );
        let depth: u16 = #[verifier::truncate]
        (top.depth as u16);
        let shade: Tint = tint(self.color, node.category, family, depth, top.next);
        let depth_left: u32 = top.depth_left;
        let children: bool = node.dir && depth_left > 1 && fit.roomy && node.child_count > 0;
        let header: bool = node.dir && fit.header;
        let rect: bool = !children && fit.visible;
        let due: usize = (if header {
            1usize
        } else {
            0
        }) + (if rect {
            1usize
        } else {
            0
        });
        if due > self.budget - self.used {
            self.levels = Vec::new();
            return Err(CoreError::TooManyCells);
        }
        self.used = self.used + due;
        advance(&mut self.levels);
        proof {
            let moved = self.levels@;
            assert forall|k: int| 0 <= k < moved.len() implies (#[trigger] moved[k]).ids@
                == sizeable(*tree, moved[k].parent as int) by {
                assert(before.levels@[k].ids@ == sizeable(*tree, before.levels@[k].parent as int));
            }
        }
        if children {
            proof {
                lemma_item_under(*tree, before.top(), self.root);
            }
            self.opening = Some(level_of(tree, id, self.root, depth_left - 1, family, false));
        } else {
            if !fit.visible {
                self.truncated = true;
            }
            self.settle(tree);
        }
        Ok(TreemapDraw { id, header, rect, children, depth, tint: shade })
    }

    /// Leave finished levels.
    fn settle(&mut self, tree: &Tree)
        requires
            tree.wf(),
            old(self).root < tree.count(),
            old(self).branch_root == parting(*tree, old(self).root as int),
            levels_wf(old(self).levels@, *tree, old(self).root),
            forall|k: int|
                0 <= k < old(self).levels@.len() ==> (#[trigger] old(self).levels@[k]).ids@
                    == sizeable(*tree, old(self).levels@[k].parent as int),
            old(self).used <= old(self).budget,
            old(self).opening is None,
        ensures
            final(self).wf(*tree),
            final(self).opening is None,
            final(self).used == old(self).used,
            final(self).truncated == old(self).truncated,
            old(self).same_layout(*final(self)),
            final(self).levels@ == trimmed(old(self).levels@),
    {
        let ghost before = *self;
        trim(&mut self.levels);
        proof {
            lemma_levels_move(before.levels@, *tree, self.root);
            lemma_trimmed(before.levels@);
            let kept = self.levels@;
            assert forall|k: int| 0 <= k < kept.len() implies (#[trigger] kept[k]).ids@
                == sizeable(*tree, kept[k].parent as int) by {
                assert(kept[k] == before.levels@[k]);
            }
        }
    }
}

/// `walk` starts laying out `node` down to `depth` levels.
pub open spec fn starts_treemap(
    node: u32,
    depth: u32,
    color: ColorMode,
    budget: usize,
    walk: TreemapWalk,
) -> bool {
    &&& walk.levels@.len() == 0
    &&& if depth == 0 {
        walk.opening is None
    } else {
        walk.opening matches Some(level) && level.parent == node && level.depth == 1
            && level.depth_left == depth && level.family == 0
    }
    &&& walk.used == 0
    &&& walk.budget == budget
    &&& !walk.truncated
    &&& walk.color == color
    &&& walk.root == node
}

/// What splitting a node's rectangle into `rects` rectangles makes of `pre`.
pub open spec fn opens_level(
    pre: TreemapWalk,
    visible: bool,
    rects: usize,
    post: TreemapWalk,
) -> bool {
    let level = pre.opening->0;
    let count = level.ids@.len();
    let shown: usize = if rects < count {
        rects
    } else {
        count as usize
    };
    let open = if visible {
        pre.levels@.push(Level { shown, ..level })
    } else {
        pre.levels@
    };
    &&& pre.same_layout(post)
    &&& post.opening is None
    &&& post.used == pre.used
    &&& post.levels@ == trimmed(open)
    &&& post.truncated == (pre.truncated || (visible && rects < count))
}

/// The children of the child that is next are drawn.
pub open spec fn descends(t: Tree, walk: TreemapWalk, fit: TreemapFit) -> bool {
    let node = t.arena@[walk.top().item() as int];
    node.dir && walk.top().depth_left > 1 && fit.roomy && node.child_count > 0
}

/// The number of cells that a rectangle with this much room takes: one for a
/// folder's header, and one for the rectangle unless children are drawn in it.
pub open spec fn cells_due(t: Tree, walk: TreemapWalk, fit: TreemapFit) -> int {
    (if t.arena@[walk.top().item() as int].dir && fit.header {
        1int
    } else {
        0
    }) + (if !descends(t, walk, fit) && fit.visible {
        1int
    } else {
        0
    })
}

/// What a rectangle with this much room makes of `pre`, and what is drawn in it.
pub open spec fn draws_item(
    t: Tree,
    pre: TreemapWalk,
    fit: TreemapFit,
    post: TreemapWalk,
    draw: TreemapDraw,
) -> bool {
    let top = pre.top();
    let node = t.arena@[top.item() as int];
    let family = spec_family(top.parent, pre.branch_root, top.next, top.family);
    let children = descends(t, pre, fit);
    &&& pre.same_layout(post)
    &&& draw.id == top.item()
    &&& draw.header == (node.dir && fit.header)
    &&& draw.children == children
    &&& draw.rect == (!children && fit.visible)
    &&& draw.depth == top.depth as u16
    &&& draw.tint == tint_of(pre.color, node.category, family, top.depth as u16, top.next)
    &&& post.used == pre.used + cells_due(t, pre, fit)
    &&& if children {
        &&& post.levels@ == advanced(pre.levels@)
        &&& post.truncated == pre.truncated
        &&& post.opening matches Some(level) && level.parent == top.item() && level.depth_left
            == top.depth_left - 1 && level.family == family
    } else {
        &&& post.opening is None
        &&& post.levels@ == trimmed(advanced(pre.levels@))
        &&& post.truncated == (pre.truncated || !fit.visible)
    }
}

/// Nothing is left out in silence: where a child gets neither a rectangle nor
/// its children drawn, and where a node's rectangle has no room for all its
/// children, the treemap says from then on that something was left out. Without
/// such a cause it does not say so.
pub proof fn law_treemap_says_what_it_leaves_out(
    t: Tree,
    pre: TreemapWalk,
    fit: TreemapFit,
    visible: bool,
    rects: usize,
    post: TreemapWalk,
    draw: TreemapDraw,
)
    ensures
        draws_item(t, pre, fit, post, draw) && !draw.rect && !draw.children ==> post.truncated,
        draws_item(t, pre, fit, post, draw) && pre.truncated ==> post.truncated,
        opens_level(pre, visible, rects, post) && visible && rects < pre.opening->0.ids@.len()
            ==> post.truncated,
        opens_level(pre, visible, rects, post) && pre.truncated ==> post.truncated,
        draws_item(t, pre, fit, post, draw) && (draw.rect || draw.children) && !pre.truncated
            ==> !post.truncated,
        opens_level(pre, visible, rects, post) && (!visible || rects >= pre.opening->0.ids@.len())
            && !pre.truncated ==> !post.truncated,
{
}

/// A treemap never draws more cells than may be drawn, and every cell that is
/// drawn counts.
pub proof fn law_treemap_keeps_budget(
    t: Tree,
    pre: TreemapWalk,
    fit: TreemapFit,
    post: TreemapWalk,
    draw: TreemapDraw,
)
    requires
        pre.wf(t),
        post.wf(t),
        pre.at_item(),
        draws_item(t, pre, fit, post, draw),
    ensures
        post.used <= post.budget == pre.budget,
        post.used == pre.used + (if draw.header {
            1int
        } else {
            0
        }) + (if draw.rect {
            1int
        } else {
            0
        }),
{
}

/// What a treemap draws are nodes below its root that were not removed and take
/// space.
pub proof fn law_treemap_draws_what_takes_space(t: Tree, walk: TreemapWalk)
    requires
        walk.wf(t),
        walk.at_item(),
    ensures
        ({
            let id = walk.top().item() as int;
            &&& id < t.count()
            &&& !t.arena@[id].removed
            &&& t.arena@[id].on_disk > 0
            &&& under(t.arena@, id, walk.root as int)
            &&& t.is_child(walk.top().parent as int, id)
        }),
{
    let top = walk.top();
    assert(walk.levels@[walk.levels@.len() - 1] == top);
    assert(top.wf(t, walk.root));
    lemma_item_under(t, top, walk.root);
    lemma_sizeable(t, top.parent as int);
    assert(sizeable(t, top.parent as int)[top.next as int] == top.item());
    assert(is_listed(t, top.parent as int, top.ids@[top.next as int] as int));
}

} // verus!
