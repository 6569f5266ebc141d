//! Bubbles draw their outline, behind the circle of the root.

use crate::layout::bubbles::{
    draws_circle, packs, starts_bubbles, BubbleDraw, BubblesWalk,
};
use crate::layout::outline::{
    all_fits, comes_to, law_branches_part_where_not_one_folder_stands_alone,
    law_families_are_the_branches, law_layout_comes_to_everything_with_room, lemma_steps_add, outline, plan, Place, Room,
};
use crate::layout::progress::{
    agrees, ahead, all_agree, inside_next, lemma_ahead_step, lemma_ahead_trimmed, lemma_item_level,
    lemma_low_half, shows, wears_its_branch, within,
};
use crate::layout::{
    lemma_sizeable, lemma_trimmed, parting, sizeable, sizes_of, steps_up, trimmed, ColorMode, Level,
    Tint,
};
use crate::scan::ancestry::lemma_under_bound;
use crate::scan::categories::FileCategory;
use crate::scan::node::{under, Tree};
use crate::scan::sums::{lemma_sum_term, sum};
use crate::scan::totals::is_dominant;
use vstd::prelude::*;

verus! {

/// The outline of bubbles of `node` with `depth` levels below it: the node itself,
/// and, where it has room, what is inside.
pub open spec fn bubble_plan(t: Tree, room: Room, node: u32, depth: int) -> Seq<Place> {
    seq![Place { id: node, depth: 0, family: 0, sibling: 0 }] + if (room.inside)(node) {
        plan(t, room, node, depth)
    } else {
        Seq::empty()
    }
}

/// What is ahead of bubbles.
pub open spec fn bubbles_ahead(t: Tree, room: Room, walk: BubblesWalk) -> Seq<Place> {
    let open = ahead(t, walk.branch_root, room, walk.levels@);
    match walk.first {
        Some(depth) => bubble_plan(t, room, walk.root, depth as int),
        None => match walk.opening {
            Some(level) => within(t, walk.branch_root, room, level) + open,
            None => open,
        },
    }
}

/// The bubbles keep to the room there is, and to `reach` levels.
pub open spec fn bubbles_agree(t: Tree, room: Room, reach: int, walk: BubblesWalk) -> bool {
    &&& all_agree(t, room, reach, walk.levels@)
    &&& walk.opening matches Some(level) ==> level.depth + level.depth_left == reach + 1
    &&& walk.first matches Some(depth) ==> depth == reach
}

/// Bubbles that start have all of their plan ahead, unless no cell may be drawn,
/// and then that is said.
pub proof fn law_bubbles_start_with_their_plan(
    t: Tree,
    room: Room,
    node: u32,
    depth: u32,
    color: ColorMode,
    budget: usize,
    walk: BubblesWalk,
)
    requires
        walk.wf(t),
        starts_bubbles(node, depth, color, budget, walk),
    ensures
        walk.used == 0,
        walk.budget == budget,
        walk.color == color,
        walk.truncated <==> budget == 0,
        bubbles_agree(t, room, depth as int, walk),
        budget > 0 ==> bubbles_ahead(t, room, walk) == bubble_plan(t, room, node, depth as int),
        budget == 0 ==> walk.is_over(),
{
    assert(walk.levels@ =~= Seq::empty());
}

/// Nothing is ahead of bubbles that are over.
pub proof fn law_bubbles_end_with_their_plan(t: Tree, room: Room, walk: BubblesWalk)
    requires
        walk.is_over(),
    ensures
        bubbles_ahead(t, room, walk).len() == 0,
{
}

/// Packing the circles inside a node takes nothing from what is ahead, unless no
/// cell is left, and then that is said.
pub proof fn law_bubbles_pack_what_is_ahead(
    t: Tree,
    room: Room,
    reach: int,
    pre: BubblesWalk,
    kept: usize,
    post: BubblesWalk,
)
    requires
        pre.wf(t),
        pre.opening is Some,
        post.wf(t),
        packs(pre, kept, post),
        bubbles_agree(t, room, reach, pre),
        (room.count)(pre.opening->0.parent) == kept,
    ensures
        !post.truncated ==> !pre.truncated && bubbles_agree(t, room, reach, post) && bubbles_ahead(
            t,
            room,
            post,
        ) == bubbles_ahead(t, room, pre),
        post.truncated && !pre.truncated ==> post.is_over() && post.used >= post.budget
            && bubbles_ahead(t, room, pre).len() > 0,
        pre.truncated ==> post.truncated,
        post.used == pre.used,
{
    let b = pre.branch_root;
    let level = pre.opening->0;
    let count = level.ids@.len();
    let shown: usize = if kept < count {
        kept
    } else {
        count as usize
    };
    let opened = Level { shown, ..level };
    let open = pre.levels@.push(opened);
    assert(open.drop_last() =~= pre.levels@);
    assert forall|k: int| 0 <= k < open.len() implies agrees(t, room, reach, #[trigger] open[k])
        && open[k].next <= open[k].shown by {
        if k < pre.levels@.len() {
            assert(open[k] == pre.levels@[k]);
            assert(pre.levels@[k].wf(t, pre.root));
        }
    }
    lemma_ahead_trimmed(t, b, room, reach, open);
    lemma_some_ahead(t, b, room, reach, trimmed(open));
    lemma_trimmed(open);
    assert forall|k: int| 0 <= k < trimmed(open).len() implies (#[trigger] trimmed(
        open,
    )[k]).depth_left > 0 by {
        assert(trimmed(open)[k] == open[k]);
        if k < pre.levels@.len() {
            assert(pre.levels@[k].wf(t, pre.root));
        }
    }
    assert(within(t, b, room, opened) == within(t, b, room, level));
}

/// Where a child is next something is ahead.
proof fn lemma_some_ahead(t: Tree, branch_root: u32, room: Room, reach: int, levels: Seq<Level>)
    requires
        all_agree(t, room, reach, levels),
    ensures
        levels.len() > 0 && levels.last().has_next() && levels.last().depth_left > 0 ==> ahead(
            t,
            branch_root,
            room,
            levels,
        ).len() > 0,
{
    if levels.len() > 0 {
        assert(agrees(t, room, reach, levels[levels.len() - 1]));
    }
}

/// What takes space has some size together.
proof fn lemma_some_size(t: Tree, id: int)
    requires
        t.wf(),
    ensures
        sum(sizes_of(t, sizeable(t, id)), 0, sizeable(t, id).len() as int) == 0 <==> sizeable(
            t,
            id,
        ).len() == 0,
{
    let ids = sizeable(t, id);
    lemma_sizeable(t, id);
    if ids.len() > 0 {
        lemma_sum_term(sizes_of(t, ids), 0, ids.len() as int, 0);
        assert(t.arena@[sizeable(t, id)[0] as int].on_disk > 0);
    }
}

/// A circle shows the first place that is ahead, and what follows it stays ahead,
/// unless no cell is left, and then that is said. What is inside a circle comes
/// next where the circle is drawn and has room.
pub proof fn law_bubbles_draw_the_next_place(
    t: Tree,
    room: Room,
    reach: int,
    pre: BubblesWalk,
    large_enough: bool,
    roomy: bool,
    post: BubblesWalk,
    draw: BubbleDraw,
)
    requires
        pre.wf(t),
        pre.at_circle(),
        post.wf(t),
        draws_circle(t, pre, large_enough, roomy, post, draw),
        bubbles_agree(t, room, reach, pre),
        (room.inside)(draw.id) == (large_enough && roomy),
    ensures
        bubbles_ahead(t, room, pre).len() > 0,
        !post.truncated ==> !pre.truncated && bubbles_agree(t, room, reach, post) && bubbles_ahead(
            t,
            room,
            post,
        ) == bubbles_ahead(t, room, pre).drop_first(),
        post.truncated && !pre.truncated ==> post.is_over() && post.used >= post.budget
            && bubbles_ahead(t, room, pre).len() > 1,
        pre.truncated ==> post.truncated,
        post.used == pre.used + if draw.circle {
            1int
        } else {
            0
        },
        ({
            let p = bubbles_ahead(t, room, pre)[0];
            let node = t.arena@[draw.id as int];
            &&& shows(pre.color, draw.id, draw.depth, draw.tint, p.family, p)
            &&& pre.color == ColorMode::ByType && !node.dir ==> draw.tint == Tint::Category(
                node.category,
            )
            &&& pre.color == ColorMode::ByType && node.dir ==> exists|c: FileCategory| #[trigger]
                is_dominant(t, draw.id as int, c) && draw.tint == Tint::Category(c)
            &&& draw.circle <==> large_enough
        }),
{
    let b = pre.branch_root;
    let all = bubbles_ahead(t, room, pre);
    let spot = pre.spot();
    lemma_low_half(spot.depth);
    lemma_some_size(t, spot.id as int);
    assert(under(t.arena@, pre.root as int, pre.root as int));
    let c = choose|category: FileCategory|
        #![trigger crate::layout::tint_of(pre.color, category, spot.family, draw.depth, spot.family)]
        draw.tint == crate::layout::tint_of(
            pre.color,
            category,
            spot.family,
            draw.depth,
            spot.family,
        ) && (if t.arena@[spot.id as int].dir {
            is_dominant(t, spot.id as int, category)
        } else {
            category == t.arena@[spot.id as int].category
        });
    let rest = pre.rest();
    let inside = if (room.inside)(spot.id) {
        outline(
            t,
            b,
            room,
            spot.id,
            0,
            spot.depth + 1,
            spot.depth_left as int,
            spot.family as int,
        )
    } else {
        Seq::empty()
    };
    if pre.first is Some {
        assert(pre.levels@ =~= Seq::empty());
        assert(ahead(t, b, room, rest) =~= Seq::empty());
        assert(all.drop_first() =~= inside + ahead(t, b, room, rest));
    } else {
        let last = pre.levels@.len() - 1;
        let top = pre.levels@.last();
        assert(pre.levels@[last] == top);
        assert(top.wf(t, pre.root));
        assert(agrees(t, room, reach, pre.levels@[last]));
        lemma_item_level(t, top, pre.root);
        lemma_ahead_step(t, b, room, pre.levels@);
        assert(inside == inside_next(t, b, room, top));
        assert(all.drop_first() =~= inside + ahead(t, b, room, rest));
    }
    assert forall|k: int| 0 <= k < rest.len() implies agrees(t, room, reach, #[trigger] rest[k])
        && rest[k].next <= rest[k].shown by {
        assert(agrees(t, room, reach, pre.levels@[k]));
        assert(pre.levels@[k].wf(t, pre.root));
    }
    lemma_ahead_trimmed(t, b, room, reach, rest);
    lemma_some_ahead(t, b, room, reach, trimmed(rest));
    lemma_trimmed(rest);
    assert forall|k: int| 0 <= k < trimmed(rest).len() implies (#[trigger] trimmed(
        rest,
    )[k]).depth_left > 0 by {
        assert(trimmed(rest)[k] == rest[k]);
        assert(pre.levels@[k].wf(t, pre.root));
    }
    if let Some(level) = post.opening {
        assert(within(t, b, room, level) == inside);
    } else {
        assert(inside =~= Seq::empty());
        assert(inside + ahead(t, b, room, rest) =~= ahead(t, b, room, rest));
    }
}

/// The root, the folders on the way to where the branches part, and the branches
/// shine through; what lies inside the branches does so less.
pub proof fn law_branches_shine_through(
    t: Tree,
    pre: BubblesWalk,
    large_enough: bool,
    roomy: bool,
    post: BubblesWalk,
    draw: BubbleDraw,
)
    requires
        pre.wf(t),
        pre.at_circle(),
        draws_circle(t, pre, large_enough, roomy, post, draw),
    ensures
        ({
            let b = parting(t, pre.root as int);
            let id = draw.id as int;
            &&& under(t.arena@, b, id) ==> draw.alpha == 0xB4
            &&& under(t.arena@, id, b) && steps_up(t.arena@, id, b) <= 1 ==> draw.alpha == 0xB4
            &&& under(t.arena@, id, b) && steps_up(t.arena@, id, b) > 1 ==> draw.alpha == 0xD9
        }),
{
    let b = parting(t, pre.root as int);
    let id = draw.id as int;
    let root = pre.root as int;
    law_branches_part_where_not_one_folder_stands_alone(t, root);
    assert(under(t.arena@, root, root));
    if pre.first is None {
        let top = pre.levels@.last();
        assert(pre.levels@[pre.levels@.len() - 1] == top);
        assert(top.wf(t, pre.root));
        lemma_item_level(t, top, pre.root);
    }
    if under(t.arena@, b, id) {
        lemma_steps_add(t, b, id, root);
    }
    if under(t.arena@, id, b) {
        lemma_steps_add(t, id, b, root);
    }
}

/// One reply to bubbles.
pub enum BubbleStep {
    /// Circles were packed into a node's circle.
    Pack {
        /// So many are large enough.
        kept: usize,
    },
    /// A circle was looked at.
    Circle {
        /// It is large enough.
        large_enough: bool,
        /// It has room inside.
        roomy: bool,
        /// What was drawn.
        draw: BubbleDraw,
    },
}

/// The step leads from `pre` to `post`, and the reply is what `room` says.
pub open spec fn bubbles_go(
    t: Tree,
    room: Room,
    pre: BubblesWalk,
    step: BubbleStep,
    post: BubblesWalk,
) -> bool {
    &&& pre.wf(t)
    &&& post.wf(t)
    &&& match step {
        BubbleStep::Pack { kept } => {
            &&& pre.opening is Some
            &&& packs(pre, kept, post)
            &&& (room.count)(pre.opening->0.parent) == kept
        },
        BubbleStep::Circle { large_enough, roomy, draw } => {
            &&& pre.at_circle()
            &&& draws_circle(t, pre, large_enough, roomy, post, draw)
            &&& (room.inside)(draw.id) == (large_enough && roomy)
        },
    }
}

/// The steps lead from each state to the next.
pub open spec fn bubbles_run(
    t: Tree,
    room: Room,
    states: Seq<BubblesWalk>,
    steps: Seq<BubbleStep>,
) -> bool {
    &&& states.len() == steps.len() + 1
    &&& forall|k: int|
        0 <= k < steps.len() ==> bubbles_go(
            t,
            room,
            states[k],
            #[trigger] steps[k],
            states[k + 1],
        )
}

/// The circles that the steps come to, in their order.
pub open spec fn circles(steps: Seq<BubbleStep>) -> Seq<BubbleDraw>
    decreases steps.len(),
{
    if steps.len() == 0 {
        Seq::empty()
    } else {
        match steps[0] {
            BubbleStep::Pack { .. } => circles(steps.drop_first()),
            BubbleStep::Circle { large_enough, roomy, draw } => seq![draw] + circles(
                steps.drop_first(),
            ),
        }
    }
}

/// Once something was left out that stays said.
proof fn lemma_truncation_stays(
    t: Tree,
    room: Room,
    states: Seq<BubblesWalk>,
    steps: Seq<BubbleStep>,
)
    requires
        bubbles_run(t, room, states, steps),
        states[0].truncated,
    ensures
        states.last().truncated,
    decreases steps.len(),
{
    if steps.len() > 0 {
        assert(bubbles_go(t, room, states[0], steps[0], states[1]));
        lemma_run_tail(t, room, states, steps);
        lemma_truncation_stays(t, room, states.drop_first(), steps.drop_first());
    }
}

proof fn lemma_run_tail(t: Tree, room: Room, states: Seq<BubblesWalk>, steps: Seq<BubbleStep>)
    requires
        bubbles_run(t, room, states, steps),
        steps.len() > 0,
    ensures
        bubbles_run(t, room, states.drop_first(), steps.drop_first()),
{
    let later = steps.drop_first();
    let after = states.drop_first();
    assert forall|k: int| 0 <= k < later.len() implies bubbles_go(
        t,
        room,
        after[k],
        #[trigger] later[k],
        after[k + 1],
    ) by {
        assert(bubbles_go(t, room, states[k + 1], steps[k + 1], states[k + 2]));
    }
}

proof fn lemma_bubbles_run(
    t: Tree,
    room: Room,
    reach: int,
    states: Seq<BubblesWalk>,
    steps: Seq<BubbleStep>,
)
    requires
        bubbles_run(t, room, states, steps),
        bubbles_agree(t, room, reach, states[0]),
        states.last().is_over(),
        !states.last().truncated,
    ensures
        circles(steps).len() == bubbles_ahead(t, room, states[0]).len(),
        forall|i: int|
            0 <= i < circles(steps).len() ==> {
                let draw = #[trigger] circles(steps)[i];
                let p = bubbles_ahead(t, room, states[0])[i];
                shows(states[0].color, draw.id, draw.depth, draw.tint, p.family, p)
            },
    decreases steps.len(),
{
    if steps.len() == 0 {
        law_bubbles_end_with_their_plan(t, room, states[0]);
    } else {
        let pre = states[0];
        let post = states[1];
        let later = steps.drop_first();
        let after = states.drop_first();
        assert(bubbles_go(t, room, states[0], steps[0], states[1]));
        lemma_run_tail(t, room, states, steps);
        if post.truncated {
            lemma_truncation_stays(t, room, after, later);
        }
        match steps[0] {
            BubbleStep::Pack { kept } => {
                law_bubbles_pack_what_is_ahead(t, room, reach, pre, kept, post);
                lemma_bubbles_run(t, room, reach, after, later);
            },
            BubbleStep::Circle { large_enough, roomy, draw } => {
                law_bubbles_draw_the_next_place(
                    t,
                    room,
                    reach,
                    pre,
                    large_enough,
                    roomy,
                    post,
                    draw,
                );
                lemma_bubbles_run(t, room, reach, after, later);
                let all = bubbles_ahead(t, room, pre);
                let out = circles(steps);
                let rest = circles(later);
                assert forall|i: int| 0 <= i < out.len() implies {
                    let draw = #[trigger] out[i];
                    let p = all[i];
                    shows(pre.color, draw.id, draw.depth, draw.tint, p.family, p)
                } by {
                    if i > 0 {
                        assert(out[i] == rest[i - 1]);
                        assert(all[i] == all.drop_first()[i - 1]);
                    }
                }
            },
        }
    }
}

/// Bubbles that were laid out to their end, with nothing left out for want of
/// cells, came to their plan: place by place, in that order, each on its level and
/// in its colour.
pub proof fn law_bubbles_draw_their_plan(
    t: Tree,
    room: Room,
    node: u32,
    depth: u32,
    color: ColorMode,
    budget: usize,
    states: Seq<BubblesWalk>,
    steps: Seq<BubbleStep>,
)
    requires
        bubbles_run(t, room, states, steps),
        states[0].wf(t),
        starts_bubbles(node, depth, color, budget, states[0]),
        states.last().is_over(),
        !states.last().truncated,
    ensures
        circles(steps).len() == bubble_plan(t, room, node, depth as int).len(),
        forall|i: int|
            0 <= i < circles(steps).len() ==> {
                let draw = #[trigger] circles(steps)[i];
                let p = bubble_plan(t, room, node, depth as int)[i];
                shows(color, draw.id, draw.depth, draw.tint, p.family, p)
            },
{
    law_bubbles_start_with_their_plan(t, room, node, depth, color, budget, states[0]);
    if states[0].truncated {
        lemma_truncation_stays(t, room, states, steps);
    }
    lemma_bubbles_run(t, room, depth as int, states, steps);
}

/// Where everything has room and cells do not run out, bubbles come to their root
/// and to exactly the nodes that were not removed, take space, and lie one to
/// `depth` levels below it.
pub proof fn law_bubbles_draw_everything_with_room(
    t: Tree,
    room: Room,
    node: u32,
    depth: u32,
    color: ColorMode,
    budget: usize,
    states: Seq<BubblesWalk>,
    steps: Seq<BubbleStep>,
    x: u32,
)
    requires
        t.rolled_up(),
        all_fits(t, room),
        bubbles_run(t, room, states, steps),
        states[0].wf(t),
        starts_bubbles(node, depth, color, budget, states[0]),
        states.last().is_over(),
        !states.last().truncated,
        x < t.arena@.len(),
    ensures
        (exists|i: int| 0 <= i < circles(steps).len() && (#[trigger] circles(steps)[i]).id == x)
            <==> x == node || {
            &&& !t.arena@[x as int].removed
            &&& t.arena@[x as int].on_disk > 0
            &&& under(t.arena@, x as int, node as int)
            &&& 1 <= steps_up(t.arena@, x as int, node as int) <= depth
        },
{
    law_bubbles_draw_their_plan(t, room, node, depth, color, budget, states, steps);
    law_layout_comes_to_everything_with_room(t, room, node, depth as int, x);
    let inner = plan(t, room, node, depth as int);
    let places = bubble_plan(t, room, node, depth as int);
    let out = circles(steps);
    assert((room.inside)(node));
    if x == node {
        assert(out[0].id == places[0].id);
    }
    if comes_to(inner, x) {
        let i = choose|i: int| 0 <= i < inner.len() && (#[trigger] inner[i]).id == x;
        assert(places[i + 1] == inner[i]);
        assert(out[i + 1].id == x);
    }
    if exists|i: int| 0 <= i < out.len() && (#[trigger] out[i]).id == x {
        let i = choose|i: int| 0 <= i < out.len() && (#[trigger] out[i]).id == x;
        assert(places[i].id == x);
        if i > 0 {
            assert(inner[i - 1].id == x);
        }
    }
}

/// Coloured by folder, circles wear the colours of their branches: branches at
/// different positions are in different families, and what lies inside a branch is
/// in the branch's.
pub proof fn law_circles_wear_their_branches(
    t: Tree,
    room: Room,
    node: u32,
    depth: u32,
    budget: usize,
    states: Seq<BubblesWalk>,
    steps: Seq<BubbleStep>,
    i: int,
)
    requires
        bubbles_run(t, room, states, steps),
        states[0].wf(t),
        starts_bubbles(node, depth, ColorMode::ByFolder, budget, states[0]),
        states.last().is_over(),
        !states.last().truncated,
        0 <= i < circles(steps).len(),
    ensures
        wears_its_branch(t, node, circles(steps)[i].id, circles(steps)[i].tint),
{
    law_bubbles_draw_their_plan(t, room, node, depth, ColorMode::ByFolder, budget, states, steps);
    let draw = circles(steps)[i];
    law_branches_part_where_not_one_folder_stands_alone(t, node as int);
    if i == 0 {
        if under(t.arena@, node as int, parting(t, node as int)) {
            lemma_under_bound(t.arena@, node as int, parting(t, node as int));
        }
    } else {
        law_families_are_the_branches(t, room, node, depth as int, i - 1);
        assert(draw.id == plan(t, room, node, depth as int)[i - 1].id);
    }
}

} // verus!
