//! A treemap draws its outline.

use crate::layout::outline::{
    all_fits, comes_to, law_families_are_the_branches, law_layout_comes_to_everything_with_room, plan, Place, Room,
};
use crate::layout::progress::{
    agrees, ahead, all_agree, inside_next, lemma_ahead_step, lemma_ahead_trimmed, lemma_item_level,
    lemma_low_half, lemma_nothing_inside, next_place, shows, wears_its_branch, within,
};
use crate::layout::treemap::{
    draws_item, opens_level, starts_treemap, TreemapDraw, TreemapFit, TreemapWalk,
};
use crate::layout::{advanced, steps_up, ColorMode, Level, Tint};
use crate::scan::node::{under, Tree};
use vstd::prelude::*;

verus! {

/// What is ahead of a treemap.
pub open spec fn treemap_ahead(t: Tree, room: Room, walk: TreemapWalk) -> Seq<Place> {
    let open = ahead(t, walk.branch_root, room, walk.levels@);
    match walk.opening {
        Some(level) => within(t, walk.branch_root, room, level) + open,
        None => open,
    }
}

/// The treemap keeps to the room there is, and to `reach` levels.
pub open spec fn treemap_agrees(t: Tree, room: Room, reach: int, walk: TreemapWalk) -> bool {
    &&& all_agree(t, room, reach, walk.levels@)
    &&& walk.opening matches Some(level) ==> level.depth + level.depth_left == reach + 1
}

/// A treemap that starts has all of its plan ahead.
pub proof fn law_treemap_starts_with_its_plan(
    t: Tree,
    room: Room,
    node: u32,
    depth: u32,
    color: ColorMode,
    budget: usize,
    walk: TreemapWalk,
)
    requires
        walk.wf(t),
        starts_treemap(node, depth, color, budget, walk),
    ensures
        walk.used == 0,
        walk.budget == budget,
        walk.color == color,
        !walk.truncated,
        treemap_agrees(t, room, depth as int, walk),
        treemap_ahead(t, room, walk) == plan(t, room, node, depth as int),
{
    assert(walk.levels@ =~= Seq::empty());
    assert(treemap_ahead(t, room, walk) =~= plan(t, room, node, depth as int));
}

/// Opening a level takes nothing from what is ahead of a treemap.
pub proof fn law_treemap_opens_what_is_ahead(
    t: Tree,
    room: Room,
    reach: int,
    pre: TreemapWalk,
    visible: bool,
    rects: usize,
    post: TreemapWalk,
)
    requires
        pre.wf(t),
        pre.at_level(),
        post.wf(t),
        opens_level(pre, visible, rects, post),
        treemap_agrees(t, room, reach, pre),
        (room.count)(pre.opening->0.parent) == if visible {
            rects as int
        } else {
            0
        },
    ensures
        treemap_agrees(t, room, reach, post),
        treemap_ahead(t, room, post) == treemap_ahead(t, room, pre),
{
    let b = pre.branch_root;
    let level = pre.opening->0;
    let count = level.ids@.len();
    let shown: usize = if rects < count {
        rects
    } else {
        count as usize
    };
    if visible {
        let opened = Level { shown, ..level };
        let open = pre.levels@.push(opened);
        assert(open.drop_last() =~= pre.levels@);
        assert forall|k: int| 0 <= k < open.len() implies agrees(t, room, reach, #[trigger] open[k])
            && open[k].next <= open[k].shown by {
            if k < pre.levels@.len() {
                assert(open[k] == pre.levels@[k]);
                assert(pre.levels@[k].wf(t, pre.root));
            }
        }
        lemma_ahead_trimmed(t, b, room, reach, open);
        assert(within(t, b, room, opened) == within(t, b, room, level));
    } else {
        assert forall|k: int| 0 <= k < pre.levels@.len() implies (#[trigger] pre.levels@[k]).next
            <= pre.levels@[k].shown by {
            assert(pre.levels@[k].wf(t, pre.root));
        }
        lemma_ahead_trimmed(t, b, room, reach, pre.levels@);
        assert(within(t, b, room, level) =~= Seq::empty());
        assert(treemap_ahead(t, room, pre) =~= ahead(t, b, room, pre.levels@));
    }
}

/// A treemap draws the first place that is ahead, and what follows it stays ahead.
/// Children are drawn of a folder that has some, is roomy, and lies above the last
/// level; every other node gets a rectangle, if it is visible.
pub proof fn law_treemap_draws_the_next_place(
    t: Tree,
    room: Room,
    reach: int,
    pre: TreemapWalk,
    fit: TreemapFit,
    post: TreemapWalk,
    draw: TreemapDraw,
)
    requires
        pre.wf(t),
        pre.at_item(),
        post.wf(t),
        draws_item(t, pre, fit, post, draw),
        treemap_agrees(t, room, reach, pre),
        (room.inside)(draw.id) == fit.roomy,
    ensures
        treemap_agrees(t, room, reach, post),
        treemap_ahead(t, room, pre).len() > 0,
        treemap_ahead(t, room, post) == treemap_ahead(t, room, pre).drop_first(),
        ({
            let p = treemap_ahead(t, room, pre)[0];
            let node = t.arena@[draw.id as int];
            &&& shows(pre.color, draw.id, draw.depth, draw.tint, p.sibling, p)
            &&& pre.color == ColorMode::ByType ==> draw.tint == Tint::Category(node.category)
            &&& draw.children <==> node.dir && node.child_count > 0 && fit.roomy && p.depth < reach
            &&& draw.rect <==> fit.visible && !draw.children
            &&& draw.header <==> node.dir && fit.header
        }),
{
    let b = pre.branch_root;
    let top = pre.top();
    let last = pre.levels@.len() - 1;
    assert(pre.levels@[last] == top);
    assert(top.wf(t, pre.root));
    assert(agrees(t, room, reach, pre.levels@[last]));
    lemma_item_level(t, top, pre.root);
    lemma_low_half(top.depth);
    lemma_ahead_step(t, b, room, pre.levels@);
    let moved = advanced(pre.levels@);
    let inside = inside_next(t, b, room, top);
    let head = seq![next_place(b, top)];
    assert forall|k: int| 0 <= k < moved.len() implies agrees(t, room, reach, #[trigger] moved[k])
        && moved[k].next <= moved[k].shown by {
        assert(agrees(t, room, reach, pre.levels@[k]));
        assert(pre.levels@[k].wf(t, pre.root));
    }
    lemma_ahead_trimmed(t, b, room, reach, moved);
    let all = treemap_ahead(t, room, pre);
    assert(all.drop_first() =~= inside + ahead(t, b, room, moved));
    if draw.children {
        let level = post.opening->0;
        assert(within(t, b, room, level) == inside);
    } else {
        if (room.inside)(top.item()) && top.depth_left > 1 {
            lemma_nothing_inside(t, top.item() as int);
        }
        assert(inside =~= Seq::empty());
        assert(inside + ahead(t, b, room, moved) =~= ahead(t, b, room, moved));
    }
}

/// Nothing is ahead of a treemap that is done.
pub proof fn law_treemap_ends_with_its_plan(t: Tree, room: Room, walk: TreemapWalk)
    requires
        walk.is_done(),
    ensures
        treemap_ahead(t, room, walk).len() == 0,
{
}

/// One reply to a treemap.
pub enum TreemapStep {
    /// A node's rectangle was split.
    Level {
        /// It can be seen.
        visible: bool,
        /// Into so many rectangles.
        rects: usize,
    },
    /// A child's rectangle was looked at.
    Item {
        /// What it has room for.
        fit: TreemapFit,
        /// What was drawn.
        draw: TreemapDraw,
    },
}

/// The step leads from `pre` to `post`, and the reply is what `room` says.
pub open spec fn treemap_goes(
    t: Tree,
    room: Room,
    pre: TreemapWalk,
    step: TreemapStep,
    post: TreemapWalk,
) -> bool {
    &&& pre.wf(t)
    &&& post.wf(t)
    &&& match step {
        TreemapStep::Level { visible, rects } => {
            &&& pre.at_level()
            &&& opens_level(pre, visible, rects, post)
            &&& (room.count)(pre.opening->0.parent) == if visible {
                rects as int
            } else {
                0
            }
        },
        TreemapStep::Item { fit, draw } => {
            &&& pre.at_item()
            &&& draws_item(t, pre, fit, post, draw)
            &&& (room.inside)(draw.id) == fit.roomy
        },
    }
}

/// The steps lead from each state to the next.
pub open spec fn treemap_runs(
    t: Tree,
    room: Room,
    states: Seq<TreemapWalk>,
    steps: Seq<TreemapStep>,
) -> bool {
    &&& states.len() == steps.len() + 1
    &&& forall|k: int|
        0 <= k < steps.len() ==> treemap_goes(
            t,
            room,
            states[k],
            #[trigger] steps[k],
            states[k + 1],
        )
}

/// What the steps draw, in their order.
pub open spec fn treemap_draws(steps: Seq<TreemapStep>) -> Seq<TreemapDraw>
    decreases steps.len(),
{
    if steps.len() == 0 {
        Seq::empty()
    } else {
        match steps[0] {
            TreemapStep::Level { .. } => treemap_draws(steps.drop_first()),
            TreemapStep::Item { fit, draw } => seq![draw] + treemap_draws(steps.drop_first()),
        }
    }
}

proof fn lemma_treemap_run(
    t: Tree,
    room: Room,
    reach: int,
    states: Seq<TreemapWalk>,
    steps: Seq<TreemapStep>,
)
    requires
        treemap_runs(t, room, states, steps),
        treemap_agrees(t, room, reach, states[0]),
        states.last().is_done(),
    ensures
        treemap_draws(steps).len() == treemap_ahead(t, room, states[0]).len(),
        forall|i: int|
            0 <= i < treemap_draws(steps).len() ==> {
                let draw = #[trigger] treemap_draws(steps)[i];
                let p = treemap_ahead(t, room, states[0])[i];
                let node = t.arena@[draw.id as int];
                &&& shows(states[0].color, draw.id, draw.depth, draw.tint, p.sibling, p)
                &&& states[0].color == ColorMode::ByType ==> draw.tint == Tint::Category(
                    node.category,
                )
                &&& draw.children <==> node.dir && node.child_count > 0 && (room.inside)(draw.id)
                    && p.depth < reach
            },
    decreases steps.len(),
{
    if steps.len() == 0 {
        law_treemap_ends_with_its_plan(t, room, states[0]);
    } else {
        let pre = states[0];
        let post = states[1];
        let later = steps.drop_first();
        let after = states.drop_first();
        assert(treemap_goes(t, room, states[0], steps[0], states[1]));
        assert forall|k: int| 0 <= k < later.len() implies treemap_goes(
            t,
            room,
            after[k],
            #[trigger] later[k],
            after[k + 1],
        ) by {
            assert(treemap_goes(t, room, states[k + 1], steps[k + 1], states[k + 2]));
        }
        match steps[0] {
            TreemapStep::Level { visible, rects } => {
                law_treemap_opens_what_is_ahead(t, room, reach, pre, visible, rects, post);
                lemma_treemap_run(t, room, reach, after, later);
            },
            TreemapStep::Item { fit, draw } => {
                law_treemap_draws_the_next_place(t, room, reach, pre, fit, post, draw);
                lemma_treemap_run(t, room, reach, after, later);
                let all = treemap_ahead(t, room, pre);
                let out = treemap_draws(steps);
                let rest = treemap_draws(later);
                assert forall|i: int| 0 <= i < out.len() implies {
                    let draw = #[trigger] out[i];
                    let p = all[i];
                    let node = t.arena@[draw.id as int];
                    &&& shows(pre.color, draw.id, draw.depth, draw.tint, p.sibling, p)
                    &&& pre.color == ColorMode::ByType ==> draw.tint == Tint::Category(
                        node.category,
                    )
                    &&& draw.children <==> node.dir && node.child_count > 0 && (room.inside)(
                        draw.id,
                    ) && p.depth < reach
                } by {
                    if i > 0 {
                        assert(out[i] == rest[i - 1]);
                        assert(all[i] == all.drop_first()[i - 1]);
                    }
                }
            },
        }
    }
}

/// A treemap that was laid out to its end drew its plan: place by place, in that
/// order, each on its level and in its colour.
pub proof fn law_treemap_draws_its_plan(
    t: Tree,
    room: Room,
    node: u32,
    depth: u32,
    color: ColorMode,
    budget: usize,
    states: Seq<TreemapWalk>,
    steps: Seq<TreemapStep>,
)
    requires
        treemap_runs(t, room, states, steps),
        states[0].wf(t),
        starts_treemap(node, depth, color, budget, states[0]),
        states.last().is_done(),
    ensures
        treemap_draws(steps).len() == plan(t, room, node, depth as int).len(),
        forall|i: int|
            0 <= i < treemap_draws(steps).len() ==> {
                let draw = #[trigger] treemap_draws(steps)[i];
                let p = plan(t, room, node, depth as int)[i];
                let n = t.arena@[draw.id as int];
                &&& shows(color, draw.id, draw.depth, draw.tint, p.sibling, p)
                &&& color == ColorMode::ByType ==> draw.tint == Tint::Category(n.category)
                &&& draw.children <==> n.dir && n.child_count > 0 && (room.inside)(draw.id)
                    && p.depth < depth
            },
{
    law_treemap_starts_with_its_plan(t, room, node, depth, color, budget, states[0]);
    lemma_treemap_run(t, room, depth as int, states, steps);
}

/// Where everything has room, a treemap of `depth` levels draws exactly the nodes
/// that were not removed, take space, and lie one to `depth` levels below its root.
pub proof fn law_treemap_draws_everything_with_room(
    t: Tree,
    room: Room,
    node: u32,
    depth: u32,
    color: ColorMode,
    budget: usize,
    states: Seq<TreemapWalk>,
    steps: Seq<TreemapStep>,
    x: u32,
)
    requires
        t.rolled_up(),
        all_fits(t, room),
        treemap_runs(t, room, states, steps),
        states[0].wf(t),
        starts_treemap(node, depth, color, budget, states[0]),
        states.last().is_done(),
        x < t.arena@.len(),
    ensures
        (exists|i: int|
            0 <= i < treemap_draws(steps).len() && (#[trigger] treemap_draws(steps)[i]).id == x)
            <==> {
            &&& !t.arena@[x as int].removed
            &&& t.arena@[x as int].on_disk > 0
            &&& under(t.arena@, x as int, node as int)
            &&& 1 <= steps_up(t.arena@, x as int, node as int) <= depth
        },
{
    law_treemap_draws_its_plan(t, room, node, depth, color, budget, states, steps);
    law_layout_comes_to_everything_with_room(t, room, node, depth as int, x);
    let places = plan(t, room, node, depth as int);
    let out = treemap_draws(steps);
    if comes_to(places, x) {
        let i = choose|i: int| 0 <= i < places.len() && (#[trigger] places[i]).id == x;
        assert(out[i].id == x);
    }
    if exists|i: int| 0 <= i < out.len() && (#[trigger] out[i]).id == x {
        let i = choose|i: int| 0 <= i < out.len() && (#[trigger] out[i]).id == x;
        assert(places[i].id == x);
    }
}

/// Coloured by folder, treemap cells wear the colours of their branches: branches at
/// different positions are in different families, and what lies inside a branch is
/// in the branch's.
pub proof fn law_treemap_cells_wear_their_branches(
    t: Tree,
    room: Room,
    node: u32,
    depth: u32,
    budget: usize,
    states: Seq<TreemapWalk>,
    steps: Seq<TreemapStep>,
    i: int,
)
    requires
        treemap_runs(t, room, states, steps),
        states[0].wf(t),
        starts_treemap(node, depth, ColorMode::ByFolder, budget, states[0]),
        states.last().is_done(),
        0 <= i < treemap_draws(steps).len(),
    ensures
        wears_its_branch(t, node, treemap_draws(steps)[i].id, treemap_draws(steps)[i].tint),
{
    law_treemap_draws_its_plan(t, room, node, depth, ColorMode::ByFolder, budget, states, steps);
    let draw = treemap_draws(steps)[i];
    law_families_are_the_branches(t, room, node, depth as int, i);
    assert(draw.id == plan(t, room, node, depth as int)[i].id);
}

} // verus!
