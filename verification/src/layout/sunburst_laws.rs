//! A sunburst draws its outline.

use crate::layout::outline::{
    all_fits, comes_to, law_families_are_the_branches, law_layout_comes_to_everything_with_room, lemma_few_kids, lemma_sizeable_first,
    plan, Place, Room,
};
use crate::layout::progress::{
    ahead, inside_next, lemma_ahead_step, lemma_item_level, lemma_low_half, lemma_nothing_inside,
    shows, wears_its_branch, within,
};
use crate::layout::sunburst::{
    draws_arc, starts_sunburst, turns_to_ring, with_space, SunburstDraw, SunburstWalk,
};
use crate::layout::{
    advanced, lemma_trimmed, listing, sizeable, sizes_of, steps_up, trimmed, ColorMode,
    Level, Tint,
};
use crate::scan::node::{under, Tree};
use crate::scan::sums::{lemma_sum_term, sum};
use vstd::prelude::*;

verus! {

/// The ring shows all that is listed under its node, and reaches as deep as a
/// layout of `reach` levels does.
pub open spec fn ring_agrees(t: Tree, reach: int, level: Level) -> bool {
    &&& level.ids@ == listing(t, level.parent as int)
    &&& level.shown == level.ids@.len()
    &&& level.depth + level.depth_left == reach + 1
}

/// All rings agree.
pub open spec fn rings_agree(t: Tree, reach: int, levels: Seq<Level>) -> bool {
    forall|k: int| 0 <= k < levels.len() ==> ring_agrees(t, reach, #[trigger] levels[k])
}

/// The sunburst keeps to `reach` levels.
pub open spec fn sunburst_agrees(t: Tree, reach: int, walk: SunburstWalk) -> bool {
    &&& rings_agree(t, reach, walk.levels@)
    &&& walk.opening matches Some(level) ==> ring_agrees(t, reach, level)
}

/// What is ahead of a sunburst.
pub open spec fn sunburst_ahead(t: Tree, room: Room, walk: SunburstWalk) -> Seq<Place> {
    let open = ahead(t, walk.branch_root, room, walk.levels@);
    match walk.opening {
        Some(level) => within(t, walk.branch_root, room, level) + open,
        None => open,
    }
}

/// A child is left on one of the rings.
pub open spec fn some_left(levels: Seq<Level>) -> bool {
    exists|k: int| 0 <= k < levels.len() && (#[trigger] levels[k]).next < levels[k].shown
}

proof fn lemma_some_left(levels: Seq<Level>)
    ensures
        trimmed(levels).len() > 0 ==> some_left(levels),
{
    lemma_trimmed(levels);
    let n = trimmed(levels).len() as int;
    if n > 0 {
        assert(trimmed(levels)[n - 1] == levels[n - 1]);
        assert(levels[n - 1].next < levels[n - 1].shown);
    }
}

/// A ring has room for all children.
pub open spec fn rings_hold_all(t: Tree, room: Room) -> bool {
    forall|x: u32| #[trigger] (room.count)(x) >= t.count()
}

/// Rings without space have nothing of the outline left.
proof fn lemma_ahead_with_space(
    t: Tree,
    branch_root: u32,
    room: Room,
    reach: int,
    levels: Seq<Level>,
)
    requires
        t.wf(),
        rings_agree(t, reach, levels),
    ensures
        ahead(t, branch_root, room, with_space(t, levels)) == ahead(t, branch_root, room, levels),
        rings_agree(t, reach, with_space(t, levels)),
    decreases levels.len(),
{
    if levels.len() > 0 {
        let top = levels[levels.len() - 1];
        if !(top.has_next() && t.arena@[top.item() as int].on_disk > 0) {
            let front = levels.drop_last();
            assert forall|k: int| 0 <= k < front.len() implies ring_agrees(
                t,
                reach,
                #[trigger] front[k],
            ) by {
                assert(front[k] == levels[k]);
            }
            lemma_ahead_with_space(t, branch_root, room, reach, front);
            assert(ring_agrees(t, reach, top));
            lemma_sizeable_first(t, top.parent as int);
            if top.has_next() {
                assert(t.arena@[listing(t, top.parent as int)[top.next as int] as int].on_disk
                    == 0);
            }
            assert(within(t, branch_root, room, top) =~= Seq::empty());
            assert(ahead(t, branch_root, room, levels) =~= ahead(t, branch_root, room, front));
        }
    }
}

/// What is listed has no size together where nothing takes space.
proof fn lemma_no_size(t: Tree, id: int)
    requires
        t.wf(),
    ensures
        sum(sizes_of(t, listing(t, id)), 0, listing(t, id).len() as int) == 0 ==> sizeable(
            t,
            id,
        ).len() == 0,
{
    let ids = listing(t, id);
    lemma_sizeable_first(t, id);
    if sizeable(t, id).len() > 0 {
        assert(t.arena@[listing(t, id)[0] as int].on_disk > 0);
        lemma_sum_term(sizes_of(t, ids), 0, ids.len() as int, 0);
    }
}

/// A sunburst that starts has drawn the disc in the centre. Where its rings can be
/// seen and its root takes space it has all of its plan ahead, and nothing else.
pub proof fn law_sunburst_starts_with_its_plan(
    t: Tree,
    room: Room,
    node: u32,
    depth: u32,
    rings_fit: bool,
    color: ColorMode,
    budget: usize,
    walk: SunburstWalk,
)
    requires
        walk.wf(t),
        starts_sunburst(t, node, depth, rings_fit, color, budget, walk),
    ensures
        walk.used == 1,
        walk.budget == budget,
        walk.color == color,
        !walk.truncated,
        sunburst_agrees(t, depth as int, walk),
        rings_fit && t.arena@[node as int].on_disk > 0 ==> sunburst_ahead(t, room, walk) == plan(
            t,
            room,
            node,
            depth as int,
        ),
        !rings_fit || t.arena@[node as int].on_disk == 0 ==> sunburst_ahead(t, room, walk).len()
            == 0,
{
    if !(depth > 0 && rings_fit && t.arena@[node as int].on_disk > 0) {
        assert(walk.levels@ =~= Seq::empty());
        assert(plan(t, room, node, 0) =~= Seq::empty());
        assert(sunburst_ahead(t, room, walk) =~= Seq::empty());
    } else {
        lemma_no_size(t, node as int);
        assert(walk.levels@ =~= Seq::empty());
        assert(steps_up(t.arena@, node as int, node as int) == 0);
        assert(sunburst_ahead(t, room, walk) =~= plan(t, room, node, depth as int));
    }
}

/// Nothing is ahead of a sunburst that is done.
pub proof fn law_sunburst_ends_with_its_plan(t: Tree, room: Room, walk: SunburstWalk)
    requires
        walk.opening is None,
        walk.levels@.len() == 0,
    ensures
        sunburst_ahead(t, room, walk).len() == 0,
{
}

/// Turning to a ring takes nothing from what is ahead, unless no cell is left, and
/// then that is said.
pub proof fn law_sunburst_opens_what_is_ahead(
    t: Tree,
    room: Room,
    reach: int,
    pre: SunburstWalk,
    post: SunburstWalk,
)
    requires
        pre.wf(t),
        pre.opening is Some,
        post.wf(t),
        turns_to_ring(t, pre, post),
        sunburst_agrees(t, reach, pre),
    ensures
        !post.truncated ==> !pre.truncated && sunburst_agrees(t, reach, post) && sunburst_ahead(
            t,
            room,
            post,
        ) == sunburst_ahead(t, room, pre),
        pre.truncated ==> post.truncated,
        post.truncated && !pre.truncated ==> post.levels@.len() == 0 && post.used >= post.budget
            && some_left(pre.levels@.push(pre.opening->0)),
        post.used == pre.used,
{
    let open = pre.levels@.push(pre.opening->0);
    assert(open.drop_last() =~= pre.levels@);
    assert(open.last() == pre.opening->0);
    assert forall|k: int| 0 <= k < open.len() implies ring_agrees(t, reach, #[trigger] open[k]) by {
        if k < pre.levels@.len() {
            assert(open[k] == pre.levels@[k]);
        }
    }
    lemma_ahead_with_space(t, pre.branch_root, room, reach, open);
    lemma_some_left(open);
}

/// A sunburst draws the first place that is ahead, and what follows it stays ahead,
/// unless no cell is left, and then that is said. The children of a folder come
/// next where its arc can be seen and it lies above the last level.
pub proof fn law_sunburst_draws_the_next_place(
    t: Tree,
    room: Room,
    reach: int,
    pre: SunburstWalk,
    seen: bool,
    post: SunburstWalk,
    draw: SunburstDraw,
)
    requires
        pre.wf(t),
        pre.at_item(),
        post.wf(t),
        draws_arc(t, pre, seen, post, draw),
        sunburst_agrees(t, reach, pre),
        rings_hold_all(t, room),
        (room.inside)(draw.id) == seen,
    ensures
        sunburst_ahead(t, room, pre).len() > 0,
        !post.truncated ==> !pre.truncated && sunburst_agrees(t, reach, post) && sunburst_ahead(
            t,
            room,
            post,
        ) == sunburst_ahead(t, room, pre).drop_first(),
        pre.truncated ==> post.truncated,
        post.truncated && !pre.truncated ==> post.levels@.len() == 0 && post.opening is None
            && post.used >= post.budget && some_left(advanced(pre.levels@)),
        post.used == pre.used + if draw.arc {
            1int
        } else {
            0
        },
        ({
            let p = sunburst_ahead(t, room, pre)[0];
            let node = t.arena@[draw.id as int];
            &&& shows(pre.color, draw.id, draw.depth, draw.tint, p.sibling, p)
            &&& pre.color == ColorMode::ByType ==> draw.tint == Tint::Category(node.category)
            &&& draw.children <==> node.dir && node.child_count > 0 && seen && p.depth < reach
            &&& draw.arc <==> seen
        }),
{
    let b = pre.branch_root;
    let top = pre.top();
    let last = pre.levels@.len() - 1;
    assert(pre.levels@[last] == top);
    assert(top.wf(t, pre.root));
    assert(ring_agrees(t, reach, pre.levels@[last]));
    lemma_item_level(t, top, pre.root);
    lemma_low_half(top.depth);
    let parent = top.parent as int;
    lemma_sizeable_first(t, parent);
    assert(t.arena@[listing(t, parent)[top.next as int] as int].on_disk > 0);
    assert(sizeable(t, parent)[top.next as int] == listing(t, parent).take(
        sizeable(t, parent).len() as int,
    )[top.next as int]);
    assert(t.is_live_folder(parent)) by {
        assert(listing(t, parent).len() > 0);
    }
    lemma_few_kids(t, parent);
    assert((room.count)(top.parent) >= t.count());
    lemma_ahead_step(t, b, room, pre.levels@);
    let moved = advanced(pre.levels@);
    let inside = inside_next(t, b, room, top);
    assert forall|k: int| 0 <= k < moved.len() implies ring_agrees(t, reach, #[trigger] moved[k]) by {
        assert(ring_agrees(t, reach, pre.levels@[k]));
    }
    lemma_ahead_with_space(t, b, room, reach, moved);
    lemma_some_left(moved);
    let all = sunburst_ahead(t, room, pre);
    assert(all.drop_first() =~= inside + ahead(t, b, room, moved));
    lemma_no_size(t, top.item() as int);
    if let Some(level) = post.opening {
        assert(within(t, b, room, level) == inside);
    } else {
        if (room.inside)(top.item()) && top.depth_left > 1 && !draw.children {
            lemma_nothing_inside(t, top.item() as int);
        }
        assert(inside =~= Seq::empty());
        assert(inside + ahead(t, b, room, moved) =~= ahead(t, b, room, moved));
    }
}

/// One reply to a sunburst.
pub enum SunburstStep {
    /// An arc was divided.
    Ring,
    /// The arc of a child was looked at.
    Item {
        /// It can be seen.
        seen: bool,
        /// What was drawn.
        draw: SunburstDraw,
    },
}

/// The step leads from `pre` to `post`, and the reply is what `room` says.
pub open spec fn sunburst_goes(
    t: Tree,
    room: Room,
    pre: SunburstWalk,
    step: SunburstStep,
    post: SunburstWalk,
) -> bool {
    &&& pre.wf(t)
    &&& post.wf(t)
    &&& match step {
        SunburstStep::Ring => {
            &&& pre.opening is Some
            &&& turns_to_ring(t, pre, post)
        },
        SunburstStep::Item { seen, draw } => {
            &&& pre.at_item()
            &&& draws_arc(t, pre, seen, post, draw)
            &&& (room.inside)(draw.id) == seen
        },
    }
}

/// The steps lead from each state to the next.
pub open spec fn sunburst_runs(
    t: Tree,
    room: Room,
    states: Seq<SunburstWalk>,
    steps: Seq<SunburstStep>,
) -> bool {
    &&& states.len() == steps.len() + 1
    &&& forall|k: int|
        0 <= k < steps.len() ==> sunburst_goes(
            t,
            room,
            states[k],
            #[trigger] steps[k],
            states[k + 1],
        )
}

/// The arcs that the steps come to, in their order.
pub open spec fn arcs(steps: Seq<SunburstStep>) -> Seq<SunburstDraw>
    decreases steps.len(),
{
    if steps.len() == 0 {
        Seq::empty()
    } else {
        match steps[0] {
            SunburstStep::Ring => arcs(steps.drop_first()),
            SunburstStep::Item { seen, draw } => seq![draw] + arcs(steps.drop_first()),
        }
    }
}

proof fn lemma_run_tail(t: Tree, room: Room, states: Seq<SunburstWalk>, steps: Seq<SunburstStep>)
    requires
        sunburst_runs(t, room, states, steps),
        steps.len() > 0,
    ensures
        sunburst_runs(t, room, states.drop_first(), steps.drop_first()),
{
    let later = steps.drop_first();
    let after = states.drop_first();
    assert forall|k: int| 0 <= k < later.len() implies sunburst_goes(
        t,
        room,
        after[k],
        #[trigger] later[k],
        after[k + 1],
    ) by {
        assert(sunburst_goes(t, room, states[k + 1], steps[k + 1], states[k + 2]));
    }
}

/// Once something was left out that stays said.
proof fn lemma_truncation_stays(
    t: Tree,
    room: Room,
    states: Seq<SunburstWalk>,
    steps: Seq<SunburstStep>,
)
    requires
        sunburst_runs(t, room, states, steps),
        states[0].truncated,
    ensures
        states.last().truncated,
    decreases steps.len(),
{
    if steps.len() > 0 {
        assert(sunburst_goes(t, room, states[0], steps[0], states[1]));
        lemma_run_tail(t, room, states, steps);
        lemma_truncation_stays(t, room, states.drop_first(), steps.drop_first());
    }
}

proof fn lemma_sunburst_run(
    t: Tree,
    room: Room,
    reach: int,
    states: Seq<SunburstWalk>,
    steps: Seq<SunburstStep>,
)
    requires
        sunburst_runs(t, room, states, steps),
        sunburst_agrees(t, reach, states[0]),
        rings_hold_all(t, room),
        states.last().opening is None,
        states.last().levels@.len() == 0,
        !states.last().truncated,
    ensures
        arcs(steps).len() == sunburst_ahead(t, room, states[0]).len(),
        forall|i: int|
            0 <= i < arcs(steps).len() ==> {
                let draw = #[trigger] arcs(steps)[i];
                let p = sunburst_ahead(t, room, states[0])[i];
                shows(states[0].color, draw.id, draw.depth, draw.tint, p.sibling, p)
            },
    decreases steps.len(),
{
    if steps.len() == 0 {
        law_sunburst_ends_with_its_plan(t, room, states[0]);
    } else {
        let pre = states[0];
        let post = states[1];
        let later = steps.drop_first();
        let after = states.drop_first();
        assert(sunburst_goes(t, room, states[0], steps[0], states[1]));
        lemma_run_tail(t, room, states, steps);
        if post.truncated {
            lemma_truncation_stays(t, room, after, later);
        }
        match steps[0] {
            SunburstStep::Ring => {
                law_sunburst_opens_what_is_ahead(t, room, reach, pre, post);
                lemma_sunburst_run(t, room, reach, after, later);
            },
            SunburstStep::Item { seen, draw } => {
                law_sunburst_draws_the_next_place(t, room, reach, pre, seen, post, draw);
                lemma_sunburst_run(t, room, reach, after, later);
                let all = sunburst_ahead(t, room, pre);
                let out = arcs(steps);
                let rest = arcs(later);
                assert forall|i: int| 0 <= i < out.len() implies {
                    let draw = #[trigger] out[i];
                    let p = all[i];
                    shows(pre.color, draw.id, draw.depth, draw.tint, p.sibling, p)
                } by {
                    if i > 0 {
                        assert(out[i] == rest[i - 1]);
                        assert(all[i] == all.drop_first()[i - 1]);
                    }
                }
            },
        }
    }
}

/// A sunburst that was laid out to its end, with nothing left out for want of
/// cells, came to its plan: place by place, in that order, each on its ring and in
/// its colour.
pub proof fn law_sunburst_draws_its_plan(
    t: Tree,
    room: Room,
    node: u32,
    depth: u32,
    color: ColorMode,
    budget: usize,
    states: Seq<SunburstWalk>,
    steps: Seq<SunburstStep>,
)
    requires
        sunburst_runs(t, room, states, steps),
        rings_hold_all(t, room),
        states[0].wf(t),
        starts_sunburst(t, node, depth, true, color, budget, states[0]),
        t.arena@[node as int].on_disk > 0,
        states.last().opening is None,
        states.last().levels@.len() == 0,
        !states.last().truncated,
    ensures
        arcs(steps).len() == plan(t, room, node, depth as int).len(),
        forall|i: int|
            0 <= i < arcs(steps).len() ==> {
                let draw = #[trigger] arcs(steps)[i];
                let p = plan(t, room, node, depth as int)[i];
                shows(color, draw.id, draw.depth, draw.tint, p.sibling, p)
            },
{
    law_sunburst_starts_with_its_plan(t, room, node, depth, true, color, budget, states[0]);
    lemma_sunburst_run(t, room, depth as int, states, steps);
}

/// Where everything can be seen and cells do not run out, a sunburst comes to
/// exactly the nodes that were not removed, take space, and lie one to `depth`
/// levels below its root.
pub proof fn law_sunburst_draws_everything_with_room(
    t: Tree,
    room: Room,
    node: u32,
    depth: u32,
    color: ColorMode,
    budget: usize,
    states: Seq<SunburstWalk>,
    steps: Seq<SunburstStep>,
    x: u32,
)
    requires
        t.rolled_up(),
        all_fits(t, room),
        sunburst_runs(t, room, states, steps),
        states[0].wf(t),
        starts_sunburst(t, node, depth, true, color, budget, states[0]),
        t.arena@[node as int].on_disk > 0,
        states.last().opening is None,
        states.last().levels@.len() == 0,
        !states.last().truncated,
        x < t.arena@.len(),
    ensures
        (exists|i: int| 0 <= i < arcs(steps).len() && (#[trigger] arcs(steps)[i]).id == x) <==> {
            &&& !t.arena@[x as int].removed
            &&& t.arena@[x as int].on_disk > 0
            &&& under(t.arena@, x as int, node as int)
            &&& 1 <= steps_up(t.arena@, x as int, node as int) <= depth
        },
{
    law_sunburst_draws_its_plan(t, room, node, depth, color, budget, states, steps);
    law_layout_comes_to_everything_with_room(t, room, node, depth as int, x);
    let places = plan(t, room, node, depth as int);
    let out = arcs(steps);
    if comes_to(places, x) {
        let i = choose|i: int| 0 <= i < places.len() && (#[trigger] places[i]).id == x;
        assert(out[i].id == x);
    }
    if exists|i: int| 0 <= i < out.len() && (#[trigger] out[i]).id == x {
        let i = choose|i: int| 0 <= i < out.len() && (#[trigger] out[i]).id == x;
        assert(places[i].id == x);
    }
}

/// Coloured by folder, arcs wear the colours of their branches: branches at
/// different positions are in different families, and what lies inside a branch is
/// in the branch's.
pub proof fn law_arcs_wear_their_branches(
    t: Tree,
    room: Room,
    node: u32,
    depth: u32,
    budget: usize,
    states: Seq<SunburstWalk>,
    steps: Seq<SunburstStep>,
    i: int,
)
    requires
        sunburst_runs(t, room, states, steps),
        rings_hold_all(t, room),
        states[0].wf(t),
        starts_sunburst(t, node, depth, true, ColorMode::ByFolder, budget, states[0]),
        t.arena@[node as int].on_disk > 0,
        states.last().opening is None,
        states.last().levels@.len() == 0,
        !states.last().truncated,
        0 <= i < arcs(steps).len(),
    ensures
        wears_its_branch(t, node, arcs(steps)[i].id, arcs(steps)[i].tint),
{
    law_sunburst_draws_its_plan(t, room, node, depth, ColorMode::ByFolder, budget, states, steps);
    let draw = arcs(steps)[i];
    law_families_are_the_branches(t, room, node, depth as int, i);
    assert(draw.id == plan(t, room, node, depth as int)[i].id);
}

} // verus!
