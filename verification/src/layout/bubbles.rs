//! Bubbles: nested circles, one per node, areas as large as their nodes.

use crate::error::CoreError;
use crate::layout::{
    advance, advanced, depth_below, effective_branch_root, family_of, is_listed,
    lemma_item_under, lemma_levels_move, lemma_sizeable, lemma_trimmed, level_of, levels_wf, parting,
    sizeable, sizeable_children, sizes_of, spec_family, steps_up, tint, tint_of, total_size, trim, trimmed,
    with_alpha, ColorMode, Level, Tint,
};
use crate::scan::categories::FileCategory;
use crate::scan::node::{under, Tree};
use crate::scan::sums::{lemma_sum_term, saturated, sum};
use crate::scan::totals::is_dominant;
use vstd::prelude::*;

verus! {

/// Alpha of the root, of the folders on the way to where the branches part, and
/// of the branches: what lies inside shows through.
pub const ALPHA_PRIMARY: u32 = 0xB4;

/// Alpha of everything inside the branches.
pub const ALPHA_NESTED: u32 = 0xD9;

/// A node with what is drawn inside it.
#[derive(Debug)]
pub struct Bubble {
    /// The node.
    pub id: u32,
    /// Its size in bytes.
    pub size: u64,
    /// The children that are drawn inside it, largest first.
    pub children: Vec<Bubble>,
}

/// The children of a node that are drawn with `depth_left` levels left.
pub open spec fn drawn_inside(t: Tree, id: int, depth_left: nat) -> Seq<u32> {
    if depth_left > 0 {
        sizeable(t, id)
    } else {
        Seq::empty()
    }
}

/// `bubble` is the hierarchy of node `id` down to `depth_left` levels.
pub open spec fn is_bubble(t: Tree, id: u32, depth_left: nat, bubble: Bubble) -> bool
    decreases depth_left,
{
    let kids = drawn_inside(t, id as int, depth_left);
    &&& bubble.id == id
    &&& bubble.size == t.arena@[id as int].on_disk
    &&& bubble.children@.len() == kids.len()
    &&& depth_left > 0 ==> forall|k: int|
        0 <= k < kids.len() ==> is_bubble(
            t,
            kids[k],
            (depth_left - 1) as nat,
            #[trigger] bubble.children@[k],
        )
}

/// Collect the hierarchy of a node down to `depth_left` levels. What takes no
/// space is left out.
pub fn build_bubble(tree: &Tree, id: u32, depth_left: u32) -> (bubble: Bubble)
    requires
        tree.wf(),
        id < tree.count(),
    ensures
        is_bubble(*tree, id, depth_left as nat, bubble),
    decreases depth_left,
{
    let mut children: Vec<Bubble> = Vec::new();
    if depth_left > 0 {
        let kids: Vec<u32> = sizeable_children(tree, id);
        proof {
            lemma_sizeable(*tree, id as int);
        }
        let mut k: usize = 0;
        while k < kids.len()
            invariant
                tree.wf(),
                depth_left > 0,
                k <= kids@.len(),
                kids@ == sizeable(*tree, id as int),
                children@.len() == k,
                forall|n: int|
                    0 <= n < kids@.len() ==> {
                        let kid = (#[trigger] sizeable(*tree, id as int)[n]) as int;
                        is_listed(*tree, id as int, kid) && tree.arena@[kid].on_disk > 0
                    },
                forall|n: int|
                    0 <= n < k ==> is_bubble(
                        *tree,
                        kids@[n],
                        (depth_left - 1) as nat,
                        #[trigger] children@[n],
                    ),
            decreases kids@.len() - k,
        {
            assert(is_listed(*tree, id as int, sizeable(*tree, id as int)[k as int] as int));
            children.push(build_bubble(tree, kids[k], depth_left - 1));
            k = k + 1;
        }
    }
    Bubble { id, size: tree.arena[id as usize].on_disk, children }
}

/// What the bubbles want to know next.
#[derive(Debug)]
pub enum BubblesAsk {
    /// Is the circle of this node large enough to be drawn?
    Circle {
        /// The node.
        id: u32,
    },
    /// Pack circles for these sizes into the circle of a node.
    Pack {
        /// The node.
        node: u32,
        /// The sizes, largest first.
        sizes: Vec<u64>,
        /// The sizes together; the sum saturates.
        total: u64,
    },
    /// Nothing: everything is drawn.
    Done,
}

/// The circle of a node.
#[derive(Debug, Clone, Copy)]
pub struct BubbleDraw {
    /// The node.
    pub id: u32,
    /// The circle is drawn.
    pub circle: bool,
    /// Level of the node.
    pub depth: u16,
    /// Colour of the node.
    pub tint: Tint,
    /// Alpha of the circle.
    pub alpha: u32,
}

/// The circle that is next.
#[derive(Debug, Clone, Copy, PartialEq, Eq, Structural)]
pub struct BubbleSpot {
    /// The node.
    pub id: u32,
    /// Its level below the layout's root.
    pub depth: u32,
    /// Levels left below it.
    pub depth_left: u32,
    /// Its family of colours.
    pub family: usize,
}

/// Bubbles that are being laid out.
#[derive(Debug)]
pub struct BubblesWalk {
    /// The nodes whose children are being drawn, the innermost last.
    pub levels: Vec<Level>,
    /// The children that are about to be packed.
    pub opening: Option<Level>,
    /// The sizes of these children together.
    pub total: u64,
    /// The circle of the root is next, with so many levels below it.
    pub first: Option<u32>,
    /// Cells drawn so far.
    pub used: usize,
    /// Cells that may be drawn.
    pub budget: usize,
    /// Something was left out for want of cells.
    pub truncated: bool,
    /// What the colours stand for.
    pub color: ColorMode,
    /// The node that is laid out.
    pub root: u32,
    /// The node whose children are the top-level branches.
    pub branch_root: u32,
    /// Level of the top-level branches.
    pub branch_level: u32,
}

/// The alpha of a circle on a level.
pub open spec fn alpha_of(depth: u32, branch_level: u32) -> u32 {
    if depth <= branch_level {
        ALPHA_PRIMARY
    } else {
        ALPHA_NESTED
    }
}

/// A colour with the alpha of a circle.
pub fn bubble_rgba(rgb: u32, alpha: u32) -> (rgba: u32)
    ensures
        rgba == with_alpha(rgb, alpha),
{
    (rgb << 8u32) | alpha
}

impl BubblesWalk {
    /// The levels hold children that were not removed and take space, no more
    /// cells were drawn than may be, and where a circle is next there is room
    /// for it.
    pub open spec fn wf(&self, t: Tree) -> bool {
        &&& t.wf()
        &&& self.root < t.count()
        &&& self.branch_root == parting(t, self.root as int)
        &&& self.branch_level == steps_up(
            t.arena@,
            self.branch_root as int,
            self.root as int,
        ) + 1
        &&& self.used <= self.budget
        &&& self.holds_sizeable(t)
        &&& self.first is Some ==> self.levels@.len() == 0 && self.opening is None && self.used
            < self.budget
        &&& match self.opening {
            Some(level) => {
                &&& level.wf(t, self.root)
                &&& level.ids@ == sizeable(t, level.parent as int)
                &&& level.next == 0
                &&& level.shown == 0
                &&& self.total == saturated(
                    sum(sizes_of(t, level.ids@), 0, level.ids@.len() as int),
                )
                &&& self.total > 0
            },
            None => self.levels@.len() > 0 ==> self.levels@.last().has_next() && self.used
                < self.budget,
        }
    }

    /// The levels hold what takes space.
    pub open spec fn holds_sizeable(&self, t: Tree) -> bool {
        &&& levels_wf(self.levels@, t, self.root)
        &&& forall|k: int|
            0 <= k < self.levels@.len() ==> (#[trigger] self.levels@[k]).ids@ == sizeable(
                t,
                self.levels@[k].parent as int,
            )
    }

    /// Nothing is left to be drawn.
    pub open spec fn is_over(&self) -> bool {
        self.first is None && self.opening is None && self.levels@.len() == 0
    }

    /// A circle is next.
    pub open spec fn at_circle(&self) -> bool {
        self.opening is None && (self.first is Some || self.levels@.len() > 0)
    }

    /// The circle that is next.
    pub open spec fn spot(&self) -> BubbleSpot {
        match self.first {
            Some(depth_left) => BubbleSpot { id: self.root, depth: 0, depth_left, family: 0 },
            None => {
                let top = self.levels@.last();
                BubbleSpot {
                    id: top.item(),
                    depth: top.depth,
                    depth_left: (top.depth_left - 1) as u32,
                    family: spec_family(top.parent, self.branch_root, top.next, top.family),
                }
            },
        }
    }

    /// The levels behind the circle that is next.
    pub open spec fn rest(&self) -> Seq<Level> {
        if self.first is Some {
            self.levels@
        } else {
            advanced(self.levels@)
        }
    }

    /// What is laid out, and how, stays.
    pub open spec fn same_layout(&self, other: Self) -> bool {
        &&& other.budget == self.budget
        &&& other.color == self.color
        &&& other.root == self.root
        &&& other.branch_root == self.branch_root
        &&& other.branch_level == self.branch_level
    }

    /// Start laying out `node` down to `depth` levels below it.
    pub fn start(tree: &Tree, node: u32, depth: u32, color: ColorMode, budget: usize) -> (walk:
        Result<Self, CoreError>)
        requires
            tree.wf(),
        ensures
            match walk {
                Ok(w) => node < tree.count() && w.wf(*tree) && starts_bubbles(
                    node,
                    depth,
                    color,
                    budget,
                    w,
                ),
                Err(error) => node >= tree.count() && error == CoreError::NodeNotFound(node),
            },
    {
        if node as usize >= tree.arena.len() {
            return Err(CoreError::NodeNotFound(node));
        }
        let branch_root: u32 = effective_branch_root(tree, node);
        let branch_level: u32 = depth_below(tree, branch_root, node) + 1;
        let over: bool = budget == 0;
        Ok(
            BubblesWalk {
                levels: Vec::new(),
                opening: None,
                total: 0,
                first: if over {
                    None
                } else {
                    Some(depth)
                },
                used: 0,
                budget,
                truncated: over,
                color,
                root: node,
                branch_root,
                branch_level,
            },
        )
    }

    /// What the bubbles want to know next.
    pub fn ask(&self, tree: &Tree) -> (ask: BubblesAsk)
        requires
            self.wf(*tree),
        ensures
            match ask {
                BubblesAsk::Circle { id } => self.at_circle() && id == self.spot().id,
                BubblesAsk::Pack { node, sizes, total } => {
                    &&& self.opening matches Some(level) && node == level.parent && sizes@.len()
                        == level.ids@.len() && forall|k: int|
                        0 <= k < sizes@.len() ==> #[trigger] sizes@[k]
                            == tree.arena@[level.ids@[k] as int].on_disk
                    &&& total == self.total
                },
                BubblesAsk::Done => self.is_over(),
            },
    {
        match &self.opening {
            Some(level) => BubblesAsk::Pack {
                node: level.parent,
                sizes: crate::layout::node_sizes(tree, &level.ids, level.parent),
                total: self.total,
            },
            None => {
                if self.first.is_some() {
                    BubblesAsk::Circle { id: self.root }
                } else if self.levels.len() == 0 {
                    BubblesAsk::Done
                } else {
                    let top: &Level = &self.levels[self.levels.len() - 1];
                    BubblesAsk::Circle { id: top.ids[top.next] }
                }
            },
        }
    }

    /// Draw the circle that is next, if it is large enough, and go on with what is
    /// inside it, if there is room, or with the next one.
    pub fn reply_circle(&mut self, tree: &Tree, large_enough: bool, roomy: bool) -> (draw: BubbleDraw)
        requires
            old(self).wf(*tree),
            old(self).at_circle(),
        ensures
            final(self).wf(*tree),
            draws_circle(*tree, *old(self), large_enough, roomy, *final(self), draw),
    {
        let ghost before = *self;
        proof {
            lemma_levels_move(before.levels@, *tree, self.root);
            assert(under(tree.arena@, self.root as int, self.root as int));
        }
        let spot: BubbleSpot = match self.first {
            Some(depth_left) => BubbleSpot { id: self.root, depth: 0, depth_left, family: 0 },
            None => {
                let top: &Level = &self.levels[self.levels.len() - 1];
                proof {
                    assert(before.levels@[before.levels@.len() - 1].wf(*tree, self.root));
                    lemma_item_under(*tree, before.levels@.last(), self.root);
                    assert(is_listed(*tree, top.parent as int, top.ids@[top.next as int] as int));
                }
                BubbleSpot {
                    id: top.ids[top.next],
                    depth: top.depth,
                    depth_left: top.depth_left - 1,
                    family: family_of(top.parent, self.branch_root, top.next, top.family),
                }
            },
        };
        assert(spot == before.spot());
        if self.first.is_some() {
            self.first = None;
        } else {
            advance(&mut self.levels);
        }
        proof {
            let moved = self.levels@;
            assert forall|k: int| 0 <= k < moved.len() implies (#[trigger] moved[k]).ids@
                == sizeable(*tree, moved[k].parent as int) by {
                assert(before.levels@[k].ids@ == sizeable(*tree, before.levels@[k].parent as int));
            }
        }
        let depth: u16 = #[verifier::truncate]
        (spot.depth as u16);
        let category: FileCategory = tree.dominant_category(spot.id);
        let shade: Tint = tint(self.color, category, spot.family, depth, spot.family);
        let alpha: u32 = if spot.depth <= self.branch_level {
            ALPHA_PRIMARY
        } else {
            ALPHA_NESTED
        };
        if large_enough {
            self.used = self.used + 1;
            if roomy && spot.depth_left > 0 {
                self.open(tree, spot);
            } else {
                self.settle(tree);
            }
        } else {
            self.settle(tree);
        }
        BubbleDraw { id: spot.id, circle: large_enough, depth, tint: shade, alpha }
    }

    /// Of the circles inside a node, the first `kept` are large enough to be
    /// drawn: go on with them.
    pub fn reply_pack(&mut self, tree: &Tree, kept: usize)
        requires
            old(self).wf(*tree),
            old(self).opening is Some,
        ensures
            final(self).wf(*tree),
            packs(*old(self), kept, *final(self)),
    {
        let ghost before = *self;
        let opening: Option<Level> = self.opening.take();
        let mut level: Level = opening.unwrap();
        if kept < level.ids.len() {
            level.shown = kept;
        } else {
            level.shown = level.ids.len();
        }
        self.levels.push(level);
        proof {
            let open = self.levels@;
            assert forall|k: int| 0 <= k < open.len() implies (#[trigger] open[k]).wf(
                *tree,
                self.root,
            ) && open[k].ids@ == sizeable(*tree, open[k].parent as int) by {
                if k < before.levels@.len() {
                    assert(open[k] == before.levels@[k]);
                }
            }
        }
        self.settle(tree);
    }

    /// Turn to what is inside a circle.
    fn open(&mut self, tree: &Tree, spot: BubbleSpot)
        requires
            tree.wf(),
            old(self).root < tree.count(),
            old(self).branch_root == parting(*tree, old(self).root as int),
            old(self).branch_level == steps_up(
                tree.arena@,
                old(self).branch_root as int,
                old(self).root as int,
            ) + 1,
            old(self).holds_sizeable(*tree),
            old(self).used <= old(self).budget,
            old(self).opening is None,
            old(self).first is None,
            spot.id < tree.count(),
            under(tree.arena@, spot.id as int, old(self).root as int),
            spot.depth_left > 0,
        ensures
            final(self).wf(*tree),
            old(self).same_layout(*final(self)),
            final(self).used == old(self).used,
            final(self).first is None,
            opens_bubble(
                *tree,
                old(self).levels@,
                old(self).used,
                old(self).budget,
                old(self).truncated,
                spot,
                *final(self),
            ),
    {
        let level: Level = level_of(tree, spot.id, self.root, spot.depth_left, spot.family, false);
        proof {
            assert forall|k: int| 0 <= k < level.ids@.len() implies (#[trigger] level.ids@[k])
                < tree.count() by {
                assert(is_listed(*tree, spot.id as int, level.ids@[k] as int));
            }
        }
        let total: u64 = total_size(tree, &level.ids);
        if total == 0 {
            self.settle(tree);
        } else {
            self.total = total;
            self.opening = Some(level);
        }
    }

    /// Leave finished levels. Where something is left but no cell may be drawn
    /// any more, stop and say so.
    fn settle(&mut self, tree: &Tree)
        requires
            tree.wf(),
            old(self).root < tree.count(),
            old(self).branch_root == parting(*tree, old(self).root as int),
            old(self).branch_level == steps_up(
                tree.arena@,
                old(self).branch_root as int,
                old(self).root as int,
            ) + 1,
            old(self).holds_sizeable(*tree),
            old(self).used <= old(self).budget,
            old(self).opening is None,
            old(self).first is None,
        ensures
            final(self).wf(*tree),
            old(self).same_layout(*final(self)),
            final(self).used == old(self).used,
            final(self).opening is None,
            final(self).first is None,
            proceeds(
                old(self).levels@,
                old(self).used,
                old(self).budget,
                old(self).truncated,
                *final(self),
            ),
    {
        let ghost before = self.levels@;
        trim(&mut self.levels);
        proof {
            lemma_levels_move(before, *tree, self.root);
            lemma_trimmed(before);
            let kept = self.levels@;
            assert forall|k: int| 0 <= k < kept.len() implies (#[trigger] kept[k]).ids@
                == sizeable(*tree, kept[k].parent as int) by {
                assert(kept[k] == before[k]);
            }
        }
        if self.levels.len() > 0 && self.used >= self.budget {
            self.truncated = true;
            self.levels = Vec::new();
        }
    }
}

/// `walk` starts laying out `node` down to `depth` levels below it.
pub open spec fn starts_bubbles(
    node: u32,
    depth: u32,
    color: ColorMode,
    budget: usize,
    walk: BubblesWalk,
) -> bool {
    &&& walk.levels@.len() == 0
    &&& walk.opening is None
    &&& walk.used == 0
    &&& walk.budget == budget
    &&& walk.color == color
    &&& walk.root == node
    &&& if budget == 0 {
        walk.first is None && walk.truncated
    } else {
        walk.first == Some(depth) && !walk.truncated
    }
}

/// `walk` goes on with what is left of `levels`, or stops there for want of
/// cells, and says so.
pub open spec fn proceeds(
    levels: Seq<Level>,
    used: usize,
    budget: usize,
    left_out: bool,
    walk: BubblesWalk,
) -> bool {
    let left = trimmed(levels);
    if left.len() > 0 && used >= budget {
        walk.levels@ == Seq::<Level>::empty() && walk.truncated
    } else {
        walk.levels@ == left && walk.truncated == left_out
    }
}

/// `walk` turns to what is inside a circle, or passes it over where nothing is.
pub open spec fn opens_bubble(
    t: Tree,
    levels: Seq<Level>,
    used: usize,
    budget: usize,
    left_out: bool,
    spot: BubbleSpot,
    walk: BubblesWalk,
) -> bool {
    let ids = sizeable(t, spot.id as int);
    let total = sum(sizes_of(t, ids), 0, ids.len() as int);
    if total == 0 {
        walk.opening is None && proceeds(levels, used, budget, left_out, walk)
    } else {
        &&& walk.levels@ == levels
        &&& walk.truncated == left_out
        &&& walk.opening matches Some(level) && level.parent == spot.id && level.depth_left
            == spot.depth_left && level.family == spot.family
    }
}

/// What a circle that is large enough or not, and has room inside or not, makes
/// of `pre`, and what is drawn.
pub open spec fn draws_circle(
    t: Tree,
    pre: BubblesWalk,
    large_enough: bool,
    roomy: bool,
    post: BubblesWalk,
    draw: BubbleDraw,
) -> bool {
    let spot = pre.spot();
    &&& pre.same_layout(post)
    &&& post.first is None
    &&& draw.id == spot.id
    &&& draw.circle == large_enough
    &&& draw.depth == spot.depth as u16
    &&& draw.alpha == alpha_of(spot.depth, pre.branch_level)
    &&& exists|category: FileCategory|
        #![trigger tint_of(pre.color, category, spot.family, draw.depth, spot.family)]
        draw.tint == tint_of(pre.color, category, spot.family, draw.depth, spot.family) && (
        if t.arena@[spot.id as int].dir {
            is_dominant(t, spot.id as int, category)
        } else {
            category == t.arena@[spot.id as int].category
        })
    &&& post.used == pre.used + if large_enough {
        1int
    } else {
        0
    }
    &&& if large_enough && roomy && spot.depth_left > 0 {
        opens_bubble(t, pre.rest(), post.used, pre.budget, pre.truncated, spot, post)
    } else {
        post.opening is None && proceeds(
            pre.rest(),
            post.used,
            pre.budget,
            pre.truncated,
            post,
        )
    }
}

/// What keeping the first `kept` circles inside a node makes of `pre`.
pub open spec fn packs(pre: BubblesWalk, kept: usize, post: BubblesWalk) -> bool {
    let level = pre.opening->0;
    let shown: usize = if kept < level.ids@.len() {
        kept
    } else {
        level.ids@.len() as usize
    };
    &&& pre.same_layout(post)
    &&& post.used == pre.used
    &&& post.first is None
    &&& post.opening is None
    &&& proceeds(
        pre.levels@.push(Level { shown, ..level }),
        pre.used,
        pre.budget,
        pre.truncated,
        post,
    )
}

/// What is drawn as a circle is the root, or a node below it that was not
/// removed and takes space; and there is room for the circle.
pub proof fn law_bubbles_draw_what_takes_space(t: Tree, walk: BubblesWalk)
    requires
        walk.wf(t),
        walk.at_circle(),
    ensures
        walk.used < walk.budget,
        ({
            let id = walk.spot().id as int;
            &&& id < t.count()
            &&& under(t.arena@, id, walk.root as int)
            &&& walk.first is None ==> !t.arena@[id].removed && t.arena@[id].on_disk > 0
                && t.is_child(walk.levels@.last().parent as int, id)
        }),
{
    assert(under(t.arena@, walk.root as int, walk.root as int));
    if walk.first is None {
        let top = walk.levels@.last();
        assert(walk.levels@[walk.levels@.len() - 1] == top);
        assert(top.wf(t, walk.root));
        lemma_item_under(t, top, walk.root);
        lemma_sizeable(t, top.parent as int);
        assert(sizeable(t, top.parent as int)[top.next as int] == top.item());
        assert(is_listed(t, top.parent as int, top.ids@[top.next as int] as int));
    }
}

/// What is opened inside a circle is what the hierarchy of its node holds: the
/// circles inside are those of the bubble's children, in their order, and none
/// are opened where the bubble has none.
pub proof fn law_bubbles_open_the_hierarchy(
    t: Tree,
    pre: BubblesWalk,
    large_enough: bool,
    roomy: bool,
    post: BubblesWalk,
    draw: BubbleDraw,
    bubble: Bubble,
)
    requires
        pre.wf(t),
        pre.at_circle(),
        post.wf(t),
        draws_circle(t, pre, large_enough, roomy, post, draw),
        is_bubble(t, pre.spot().id, pre.spot().depth_left as nat, bubble),
    ensures
        draw.id == bubble.id,
        post.opening is Some <==> large_enough && roomy && bubble.children@.len() > 0,
        post.opening matches Some(level) ==> {
            &&& level.parent == bubble.id
            &&& level.ids@.len() == bubble.children@.len()
            &&& forall|k: int|
                0 <= k < level.ids@.len() ==> {
                    &&& (#[trigger] bubble.children@[k]).id == level.ids@[k]
                    &&& bubble.children@[k].size == t.arena@[level.ids@[k] as int].on_disk
                    &&& is_bubble(
                        t,
                        level.ids@[k],
                        (level.depth_left - 1) as nat,
                        bubble.children@[k],
                    )
                }
        },
{
    let spot = pre.spot();
    let ids = sizeable(t, spot.id as int);
    lemma_sizeable(t, spot.id as int);
    if ids.len() > 0 {
        lemma_sum_term(sizes_of(t, ids), 0, ids.len() as int, 0);
        assert(t.arena@[ids[0] as int].on_disk > 0);
    }
    if let Some(level) = post.opening {
        assert forall|k: int| 0 <= k < level.ids@.len() implies {
            &&& (#[trigger] bubble.children@[k]).id == level.ids@[k]
            &&& bubble.children@[k].size == t.arena@[level.ids@[k] as int].on_disk
            &&& is_bubble(
                t,
                level.ids@[k],
                (level.depth_left - 1) as nat,
                bubble.children@[k],
            )
        } by {
            assert(is_bubble(t, ids[k], (spot.depth_left - 1) as nat, bubble.children@[k]));
        }
    }
}

/// A circle inside another is that of the bubble's child at its position.
pub proof fn law_circles_follow_the_hierarchy(t: Tree, walk: BubblesWalk, bubble: Bubble)
    requires
        walk.wf(t),
        walk.at_circle(),
        walk.first is None,
        is_bubble(
            t,
            walk.levels@.last().parent,
            walk.levels@.last().depth_left as nat,
            bubble,
        ),
    ensures
        walk.levels@.last().next < bubble.children@.len(),
        walk.spot().id == bubble.children@[walk.levels@.last().next as int].id,
        is_bubble(
            t,
            walk.spot().id,
            walk.spot().depth_left as nat,
            bubble.children@[walk.levels@.last().next as int],
        ),
{
    let top = walk.levels@.last();
    assert(walk.levels@[walk.levels@.len() - 1] == top);
    assert(top.wf(t, walk.root));
    assert(top.ids@ == sizeable(t, top.parent as int));
    assert(is_bubble(
        t,
        top.ids@[top.next as int],
        (top.depth_left - 1) as nat,
        bubble.children@[top.next as int],
    ));
}

} // verus!
