//! What is ahead of a layout: the part of its outline that is left on the levels
//! that are being drawn.

use crate::layout::outline::{outline, Place, Room};
use crate::layout::{
    advanced, is_listed, lemma_item_under, lemma_listing, lemma_sizeable, parting, sizeable,
    steps_up, trimmed, ColorMode, Level, Tint,
};
use crate::scan::ancestry::lemma_under_bound;
use crate::scan::node::{under, Tree};
use vstd::prelude::*;

verus! {

/// What is left of the outline on these levels: the innermost one comes first.
pub open spec fn ahead(t: Tree, branch_root: u32, room: Room, levels: Seq<Level>) -> Seq<Place>
    decreases levels.len(),
{
    if levels.len() == 0 {
        Seq::empty()
    } else {
        within(t, branch_root, room, levels.last()) + ahead(
            t,
            branch_root,
            room,
            levels.drop_last(),
        )
    }
}

/// What is left of the outline on one level.
pub open spec fn within(t: Tree, branch_root: u32, room: Room, level: Level) -> Seq<Place> {
    outline(
        t,
        branch_root,
        room,
        level.parent,
        level.next as int,
        level.depth as int,
        level.depth_left as int,
        level.family as int,
    )
}

/// The level draws as many children as can be told apart, and reaches as deep as a
/// layout of `reach` levels does.
pub open spec fn agrees(t: Tree, room: Room, reach: int, level: Level) -> bool {
    let kids = sizeable(t, level.parent as int);
    &&& level.ids@ == kids
    &&& level.shown == if (room.count)(level.parent) < kids.len() {
        (room.count)(level.parent)
    } else {
        kids.len() as int
    }
    &&& level.depth + level.depth_left == reach + 1
}

/// All levels agree.
pub open spec fn all_agree(t: Tree, room: Room, reach: int, levels: Seq<Level>) -> bool {
    forall|k: int| 0 <= k < levels.len() ==> agrees(t, room, reach, #[trigger] levels[k])
}

/// A draw shows the node of a place, in its colour.
pub open spec fn shows(
    color: ColorMode,
    id: u32,
    depth: u16,
    tint: Tint,
    sibling: int,
    p: Place,
) -> bool {
    &&& id == p.id
    &&& depth == p.depth % 0x1_0000
    &&& color == ColorMode::ByFolder ==> (tint matches Tint::Folder {
        family,
        depth: level,
        sibling: position,
    } && family == p.family && level == depth && position == sibling)
    &&& color == ColorMode::ByAge ==> (tint matches Tint::Age { sibling: position } && position
        == sibling)
    &&& color == ColorMode::ByType ==> tint is Category
}

pub proof fn lemma_low_half(d: u32)
    ensures
        d as u16 == d % 0x1_0000,
{
    assert(d as u16 == d % 0x1_0000) by (bit_vector);
}

/// A file, and a folder without children, has nothing inside.
pub proof fn lemma_nothing_inside(t: Tree, id: int)
    requires
        t.wf(),
        0 <= id < t.count(),
        !t.arena@[id].dir || t.arena@[id].child_count == 0,
    ensures
        sizeable(t, id).len() == 0,
{
    lemma_sizeable(t, id);
    lemma_listing(t, id);
    if sizeable(t, id).len() > 0 {
        let kid = sizeable(t, id)[0] as int;
        assert(is_listed(t, id, sizeable(t, id)[0] as int));
        assert(t.linked(kid));
    }
}

/// Finished levels have nothing of the outline left.
pub proof fn lemma_ahead_trimmed(t: Tree, branch_root: u32, room: Room, reach: int, levels: Seq<Level>)
    requires
        all_agree(t, room, reach, levels),
        forall|k: int|
            0 <= k < levels.len() ==> (#[trigger] levels[k]).next <= levels[k].shown,
    ensures
        ahead(t, branch_root, room, trimmed(levels)) == ahead(t, branch_root, room, levels),
        all_agree(t, room, reach, trimmed(levels)),
    decreases levels.len(),
{
    if levels.len() > 0 && !levels.last().has_next() {
        let front = levels.drop_last();
        assert forall|k: int| 0 <= k < front.len() implies agrees(
            t,
            room,
            reach,
            #[trigger] front[k],
        ) && front[k].next <= front[k].shown by {
            assert(front[k] == levels[k]);
        }
        lemma_ahead_trimmed(t, branch_root, room, reach, front);
        let top = levels[levels.len() - 1];
        assert(agrees(t, room, reach, top));
        assert(within(t, branch_root, room, top) =~= Seq::empty());
        assert(ahead(t, branch_root, room, levels) =~= ahead(t, branch_root, room, front));
    }
}

/// The place of the child that is next on a level.
pub open spec fn next_place(branch_root: u32, level: Level) -> Place {
    Place {
        id: level.item(),
        depth: level.depth as int,
        family: if level.parent == branch_root {
            level.next as int
        } else {
            level.family as int
        },
        sibling: level.next as int,
    }
}

/// What lies inside the child that is next on a level.
pub open spec fn inside_next(t: Tree, branch_root: u32, room: Room, level: Level) -> Seq<Place> {
    if (room.inside)(level.item()) {
        outline(
            t,
            branch_root,
            room,
            level.item(),
            0,
            level.depth + 1,
            level.depth_left - 1,
            next_place(branch_root, level).family,
        )
    } else {
        Seq::empty()
    }
}

/// The child that is next comes first in what is ahead, then what lies inside it,
/// then the rest.
pub proof fn lemma_ahead_step(t: Tree, branch_root: u32, room: Room, levels: Seq<Level>)
    requires
        levels.len() > 0,
        levels.last().depth_left > 0,
        levels.last().next < usize::MAX,
        levels.last().next < sizeable(t, levels.last().parent as int).len(),
        levels.last().next < (room.count)(levels.last().parent),
        levels.last().item() == sizeable(t, levels.last().parent as int)[levels.last().next as int],
    ensures
        ahead(t, branch_root, room, levels) == seq![next_place(branch_root, levels.last())] + (
        inside_next(t, branch_root, room, levels.last()) + ahead(
            t,
            branch_root,
            room,
            advanced(levels),
        )),
{
    let top = levels.last();
    let moved = Level { next: (top.next + 1) as usize, ..top };
    let head = seq![next_place(branch_root, top)];
    let inside = inside_next(t, branch_root, room, top);
    let later = within(t, branch_root, room, moved);
    let rest = ahead(t, branch_root, room, levels.drop_last());
    assert(within(t, branch_root, room, top) == head + inside + later);
    assert(advanced(levels).drop_last() =~= levels.drop_last());
    assert(advanced(levels).last() == moved);
    assert(head + inside + later + rest =~= head + (inside + (later + rest)));
}

/// A child lies one level below its parent.
pub proof fn lemma_item_level(t: Tree, level: Level, root: u32)
    requires
        t.wf(),
        level.wf(t, root),
        level.has_next(),
    ensures
        level.item() < t.count(),
        under(t.arena@, level.item() as int, root as int),
        steps_up(t.arena@, level.item() as int, root as int) == level.depth,
{
    lemma_item_under(t, level, root);
    assert(is_listed(t, level.parent as int, level.ids@[level.next as int] as int));
    let id = level.item() as int;
    assert(t.linked(id));
    if id == root {
        lemma_under_bound(t.arena@, level.parent as int, root as int);
    }
}

/// The tint is that of the branch to which the node belongs in a layout of `root`:
/// the family is the position of the one branch that the node is or lies below. At
/// and above where the branches part it is the first family.
pub open spec fn wears_its_branch(t: Tree, root: u32, id: u32, tint: Tint) -> bool {
    let b = parting(t, root as int);
    let branches = sizeable(t, b);
    tint matches Tint::Folder { family, .. } && if under(t.arena@, id as int, b) && id != b {
        &&& family < branches.len()
        &&& forall|f: int|
            0 <= f < branches.len() ==> (under(t.arena@, id as int, (#[trigger] branches[f]) as int)
                <==> f == family)
    } else {
        family == 0
    }
}

} // verus!
