//! The outline of a layout: which nodes it comes to, in which order, on which
//! levels and in which families of colours.

use crate::layout::{
    is_listed, lemma_sizeable, listing, parting, sizeable, sizes_of, steps_up,
};
use crate::scan::ancestry::{
    branch_to, lemma_branch, lemma_under_bound, lemma_under_chain, lemma_under_transitive,
};
use crate::scan::node::{under, Tree};
use crate::scan::sums::{lemma_sum_term, saturated, sum};
use crate::scan::totals::Measure;
use vstd::prelude::*;

verus! {

/// One node is above another exactly when it is that node, or above its parent.
pub proof fn law_ancestors_go_by_parents(t: Tree, x: int, a: int)
    requires
        t.shaped(),
        0 < x < t.arena@.len(),
    ensures
        under(t.arena@, x, x),
        under(t.arena@, x, t.arena@[x].parent as int),
        x != a ==> (under(t.arena@, x, a) <==> under(t.arena@, t.arena@[x].parent as int, a)),
        under(t.arena@, 0, a) <==> a == 0,
{
    assert(t.linked(x));
    let p = t.arena@[x].parent as int;
    assert(under(t.arena@, p, p));
}

/// A node is as many levels below another as its parent is, and one.
pub proof fn law_levels_go_by_parents(t: Tree, x: int, a: int)
    requires
        t.shaped(),
        0 <= x < t.arena@.len(),
        under(t.arena@, x, a),
    ensures
        x == a ==> steps_up(t.arena@, x, a) == 0,
        x != a ==> steps_up(t.arena@, x, a) == 1 + steps_up(
            t.arena@,
            t.arena@[x].parent as int,
            a,
        ),
{
    if x != a {
        assert(t.linked(x));
    }
}

/// Values that satisfy a condition, where no such value follows one that does not,
/// are the first ones.
proof fn lemma_filter_front<A>(s: Seq<A>, keep: spec_fn(A) -> bool)
    requires
        forall|k: int, l: int|
            0 <= k < l < s.len() && keep(#[trigger] s[l]) ==> keep(#[trigger] s[k]),
    ensures
        s.filter(keep).len() <= s.len(),
        s.filter(keep) == s.take(s.filter(keep).len() as int),
        forall|k: int|
            0 <= k < s.len() ==> (keep(#[trigger] s[k]) <==> k < s.filter(keep).len()),
    decreases s.len(),
{
    reveal(Seq::filter);
    if s.len() > 0 {
        let front = s.drop_last();
        assert forall|k: int, l: int|
            0 <= k < l < front.len() && keep(#[trigger] front[l]) implies keep(
            #[trigger] front[k],
        ) by {
            assert(front[l] == s[l] && front[k] == s[k]);
        }
        lemma_filter_front(front, keep);
        let out = s.filter(keep);
        let n = s.len() - 1;
        if keep(s.last()) {
            if n > 0 {
                assert(keep(s[n]));
                assert(keep(s[n - 1]));
                assert(front[n - 1] == s[n - 1]);
            }
            assert(out =~= s);
        } else {
            assert(out =~= s.take(out.len() as int));
        }
        assert forall|k: int| 0 <= k < s.len() implies (keep(#[trigger] s[k]) <==> k
            < s.filter(keep).len()) by {
            if k < n {
                assert(front[k] == s[k]);
            }
        }
        assert(s.take(s.len() as int) =~= s);
    } else {
        assert(s.filter(keep) =~= s.take(0));
    }
}

/// What takes space under a node comes first in its list.
pub proof fn lemma_sizeable_first(t: Tree, id: int)
    requires
        t.wf(),
    ensures
        sizeable(t, id).len() <= listing(t, id).len(),
        sizeable(t, id) == listing(t, id).take(sizeable(t, id).len() as int),
        forall|k: int|
            0 <= k < listing(t, id).len() ==> (t.arena@[(#[trigger] listing(
                t,
                id,
            )[k]) as int].on_disk > 0 <==> k < sizeable(t, id).len()),
{
    let keep = |kid: u32| t.arena@[kid as int].on_disk > 0;
    let all = listing(t, id);
    if t.is_live_folder(id) {
        assert(t.slice_ordered(id));
        assert forall|k: int, l: int|
            0 <= k < l < all.len() && keep(#[trigger] all[l]) implies keep(#[trigger] all[k]) by {
            assert(t.arena@[t.slice(id)[k] as int].on_disk >= t.arena@[t.slice(
                id,
            )[l] as int].on_disk);
        }
    }
    lemma_filter_front(all, keep);
    assert forall|k: int| 0 <= k < all.len() implies (t.arena@[(#[trigger] all[k]) as int].on_disk
        > 0 <==> k < sizeable(t, id).len()) by {
        assert(keep(all[k]) <==> k < all.filter(keep).len());
    }
}

/// What takes space under a folder are its children that were not removed and take
/// space: all of them, each once, largest first.
pub proof fn law_sizeable_are_the_children_that_take_space(t: Tree, id: int)
    requires
        t.wf(),
        0 <= id < t.arena@.len(),
        t.arena@[id].dir,
        !t.arena@[id].removed,
    ensures
        forall|x: u32|
            0 < x < t.arena@.len() ==> (#[trigger] sizeable(t, id).contains(x)
                <==> t.arena@[x as int].parent == id && !t.arena@[x as int].removed
                && t.arena@[x as int].on_disk > 0),
        forall|k: int|
            0 <= k < sizeable(t, id).len() ==> 0 < (#[trigger] sizeable(t, id)[k])
                < t.arena@.len(),
        forall|k: int, l: int|
            0 <= k < l < sizeable(t, id).len() ==> (#[trigger] sizeable(t, id)[k]) != (
            #[trigger] sizeable(t, id)[l]) && t.arena@[sizeable(t, id)[k] as int].on_disk
                >= t.arena@[sizeable(t, id)[l] as int].on_disk,
{
    assert(t.is_live_folder(id));
    assert(t.slice_ordered(id));
    lemma_sizeable_first(t, id);
    lemma_sizeable(t, id);
    let all = listing(t, id);
    let some = sizeable(t, id);
    assert forall|k: int| 0 <= k < some.len() implies 0 < (#[trigger] some[k])
        < t.arena@.len() by {
        assert(is_listed(t, id, sizeable(t, id)[k] as int));
    }
    assert forall|k: int, l: int| 0 <= k < l < some.len() implies (#[trigger] some[k]) != (
    #[trigger] some[l]) && t.arena@[some[k] as int].on_disk >= t.arena@[some[l] as int].on_disk by {
        assert(some[k] == all.take(some.len() as int)[k] && some[l] == all.take(
            some.len() as int,
        )[l]);
        assert(t.slice(id)[k] != t.slice(id)[l]);
        assert(t.arena@[t.slice(id)[k] as int].on_disk >= t.arena@[t.slice(id)[l] as int].on_disk);
    }
    assert forall|x: u32| 0 < x < t.arena@.len() implies (#[trigger] some.contains(x)
        <==> t.arena@[x as int].parent == id && !t.arena@[x as int].removed
        && t.arena@[x as int].on_disk > 0) by {
        if some.contains(x) {
            let k = choose|k: int| 0 <= k < some.len() && some[k] == x;
            assert(is_listed(t, id, sizeable(t, id)[k] as int));
        }
        if t.arena@[x as int].parent == id && !t.arena@[x as int].removed
            && t.arena@[x as int].on_disk > 0 {
            assert(t.slice(id).contains((x as int) as u32));
            let k = choose|k: int| 0 <= k < all.len() && all[k] == x;
            assert(t.arena@[listing(t, id)[k] as int].on_disk > 0);
            assert(some[k] == all.take(some.len() as int)[k]);
        }
    }
}

/// `kid` is the only child of `id` that takes space, and it is a folder.
pub open spec fn passes_to(t: Tree, id: int, kid: int) -> bool {
    &&& t.is_live_folder(id)
    &&& t.is_child(id, kid)
    &&& t.arena@[kid].dir
    &&& !t.arena@[kid].removed
    &&& t.arena@[kid].on_disk > 0
    &&& forall|x: int| #[trigger]
        t.is_child(id, x) && !t.arena@[x].removed && t.arena@[x].on_disk > 0 ==> x == kid
}

proof fn lemma_passes(t: Tree, id: int)
    requires
        t.wf(),
        0 <= id < t.count(),
    ensures
        ({
            let kids = sizeable(t, id);
            let alone = kids.len() == 1 && id < kids[0] < t.count() && t.arena@[kids[0] as int].dir;
            &&& alone ==> passes_to(t, id, kids[0] as int)
            &&& !alone ==> forall|kid: int| !#[trigger] passes_to(t, id, kid)
        }),
{
    let kids = sizeable(t, id);
    lemma_sizeable(t, id);
    if t.is_live_folder(id) {
        law_sizeable_are_the_children_that_take_space(t, id);
    }
    let alone = kids.len() == 1 && id < kids[0] < t.count() && t.arena@[kids[0] as int].dir;
    if alone {
        let kid = kids[0] as int;
        assert(is_listed(t, id, sizeable(t, id)[0] as int));
        assert(t.is_live_folder(id));
        assert forall|x: int| #[trigger]
            t.is_child(id, x) && !t.arena@[x].removed && t.arena@[x].on_disk > 0 implies x
            == kid by {
            assert(sizeable(t, id).contains(x as u32));
        }
    } else {
        assert forall|kid: int| !#[trigger] passes_to(t, id, kid) by {
            if passes_to(t, id, kid) {
                assert(kids.contains(kid as u32));
                assert(t.linked(kid));
                let k = choose|k: int| 0 <= k < kids.len() && kids[k] == kid as u32;
                if kids.len() > 1 {
                    assert(is_listed(t, id, sizeable(t, id)[0] as int));
                    assert(is_listed(t, id, sizeable(t, id)[1] as int));
                    assert(t.is_child(id, kids[0] as int));
                    assert(t.is_child(id, kids[1] as int));
                    assert(kids[0] != kids[1]);
                }
            }
        }
    }
}

/// The branches part where it is not a single folder that takes space; and down to
/// there it is, on every level.
pub proof fn law_branches_part_where_not_one_folder_stands_alone(t: Tree, i: int)
    requires
        t.wf(),
        0 <= i < t.arena@.len(),
    ensures
        i <= parting(t, i) < t.arena@.len(),
        under(t.arena@, parting(t, i), i),
        forall|kid: int| !#[trigger] passes_to(t, parting(t, i), kid),
        forall|q: int|
            #![trigger under(t.arena@, q, i)]
            under(t.arena@, parting(t, i), q) && under(t.arena@, q, i) && q != parting(t, i)
                ==> exists|kid: int| #[trigger]
                passes_to(t, q, kid) && under(t.arena@, parting(t, i), kid),
    decreases t.count() - i,
{
    lemma_passes(t, i);
    let kids = sizeable(t, i);
    let b = parting(t, i);
    if kids.len() == 1 && i < kids[0] < t.count() && t.arena@[kids[0] as int].dir {
        let kid = kids[0] as int;
        assert(passes_to(t, i, kid));
        law_branches_part_where_not_one_folder_stands_alone(t, kid);
        assert(t.linked(kid));
        assert(under(t.arena@, i, i));
        assert(under(t.arena@, kid, i));
        lemma_under_transitive(t.arena@, b, kid, i);
        assert forall|q: int|
            #![trigger under(t.arena@, q, i)]
            under(t.arena@, b, q) && under(t.arena@, q, i) && q != b implies exists|next: int|
            #[trigger] passes_to(t, q, next) && under(t.arena@, b, next) by {
            if q == i {
                assert(passes_to(t, q, kid));
            } else {
                lemma_under_bound(t.arena@, b, q);
                if q < kid {
                    lemma_under_chain(t.arena@, b, q, kid);
                    lemma_under_bound(t.arena@, i, q);
                    lemma_under_bound(t.arena@, q, i);
                } else {
                    lemma_under_chain(t.arena@, b, kid, q);
                }
            }
        }
    } else {
        assert forall|q: int|
            #![trigger under(t.arena@, q, i)]
            under(t.arena@, b, q) && under(t.arena@, q, i) && q != b implies exists|next: int|
            #[trigger] passes_to(t, q, next) && under(t.arena@, b, next) by {
            lemma_under_bound(t.arena@, b, q);
            lemma_under_bound(t.arena@, q, i);
        }
    }
}

/// A node in a layout.
pub struct Place {
    /// The node.
    pub id: u32,
    /// Its level below the layout's root.
    pub depth: int,
    /// Its family of colours.
    pub family: int,
    /// Its position among its siblings.
    pub sibling: int,
}

/// What the canvas has room for.
pub struct Room {
    /// There is room inside a node.
    pub inside: spec_fn(u32) -> bool,
    /// So many of a node's children can be told apart.
    pub count: spec_fn(u32) -> int,
}

/// The nodes that a layout comes to from child `k` of `parent` on, with that child
/// on level `depth`, `left` levels left and `family` inherited: each child, what
/// is inside it, and the next one.
pub open spec fn outline(
    t: Tree,
    branch_root: u32,
    room: Room,
    parent: u32,
    k: int,
    depth: int,
    left: int,
    family: int,
) -> Seq<Place>
    decreases left, sizeable(t, parent as int).len() - k,
{
    let kids = sizeable(t, parent as int);
    if left <= 0 || k < 0 || k >= kids.len() || k >= (room.count)(parent) {
        Seq::empty()
    } else {
        let own = if parent == branch_root {
            k
        } else {
            family
        };
        let inside = if (room.inside)(kids[k]) {
            outline(t, branch_root, room, kids[k], 0, depth + 1, left - 1, own)
        } else {
            Seq::empty()
        };
        seq![Place { id: kids[k], depth, family: own, sibling: k }] + inside + outline(
            t,
            branch_root,
            room,
            parent,
            k + 1,
            depth,
            left,
            family,
        )
    }
}

/// Node `x` is strictly below `b`.
pub open spec fn below(t: Tree, x: int, b: int) -> bool {
    under(t.arena@, x, b) && x != b
}

/// What an outline says of one of its places.
pub open spec fn well_placed(
    t: Tree,
    branch_root: u32,
    parent: u32,
    k: int,
    depth: int,
    left: int,
    family: int,
    p: Place,
) -> bool {
    let b = branch_root as int;
    let kids = sizeable(t, t.arena@[p.id as int].parent as int);
    &&& below(t, p.id as int, parent as int)
    &&& k <= branch_position(t, parent, p.id)
    &&& 0 < p.id < t.count()
    &&& p.depth == depth + steps_up(t.arena@, p.id as int, parent as int) - 1
    &&& p.depth < depth + left
    &&& 0 <= p.sibling < kids.len()
    &&& kids[p.sibling] == p.id
    &&& if below(t, p.id as int, b) && !below(t, parent as int, b) {
        &&& 0 <= p.family < sizeable(t, b).len()
        &&& under(t.arena@, p.id as int, sizeable(t, b)[p.family] as int)
    } else {
        p.family == family
    }
}

/// The position of the child of `parent` on the way down to `id`.
pub open spec fn branch_position(t: Tree, parent: u32, id: u32) -> int {
    sizeable(t, parent as int).index_of(branch_to(t.arena@, id as int, parent as int) as u32)
}

pub proof fn lemma_kid(t: Tree, parent: u32, k: int)
    requires
        t.wf(),
        parent < t.count(),
        0 <= k < sizeable(t, parent as int).len(),
    ensures
        ({
            let kid = sizeable(t, parent as int)[k] as int;
            &&& 0 < kid < t.count()
            &&& parent < kid
            &&& t.is_child(parent as int, kid)
            &&& under(t.arena@, kid, parent as int)
            &&& steps_up(t.arena@, kid, parent as int) == 1
            &&& branch_position(t, parent, kid as u32) == k
        }),
{
    lemma_sizeable(t, parent as int);
    let kids = sizeable(t, parent as int);
    let kid = kids[k] as int;
    assert(is_listed(t, parent as int, sizeable(t, parent as int)[k] as int));
    assert(t.linked(kid));
    assert(under(t.arena@, parent as int, parent as int));
    assert(steps_up(t.arena@, parent as int, parent as int) == 0);
    assert(t.is_live_folder(parent as int));
    law_sizeable_are_the_children_that_take_space(t, parent as int);
    assert(branch_to(t.arena@, kid, parent as int) == kid);
    lemma_position(t, parent, k);
}

proof fn lemma_position(t: Tree, parent: u32, k: int)
    requires
        t.wf(),
        t.is_live_folder(parent as int),
        0 <= k < sizeable(t, parent as int).len(),
    ensures
        sizeable(t, parent as int).index_of(sizeable(t, parent as int)[k]) == k,
{
    let kids = sizeable(t, parent as int);
    law_sizeable_are_the_children_that_take_space(t, parent as int);
    assert(kids.contains(kids[k]));
    let j = kids.index_of(kids[k]);
    assert(0 <= j < kids.len() && kids[j] == kids[k]);
    if j < k {
        assert(kids[j] != kids[k]);
    } else if k < j {
        assert(kids[k] != kids[j]);
    }
}

/// Steps add up along a line of ancestors.
pub proof fn lemma_steps_add(t: Tree, x: int, mid: int, top: int)
    requires
        t.shaped(),
        0 <= x < t.count(),
        under(t.arena@, x, mid),
        under(t.arena@, mid, top),
    ensures
        steps_up(t.arena@, x, top) == steps_up(t.arena@, x, mid) + steps_up(t.arena@, mid, top),
    decreases x,
{
    if x != mid {
        assert(t.linked(x));
        lemma_under_bound(t.arena@, x, mid);
        lemma_under_bound(t.arena@, mid, top);
        lemma_steps_add(t, t.arena@[x].parent as int, mid, top);
    }
}

/// What lies below a child of a node has its branch there.
proof fn lemma_branch_of(t: Tree, parent: u32, k: int, x: int)
    requires
        t.wf(),
        parent < t.count(),
        0 <= k < sizeable(t, parent as int).len(),
        0 <= x < t.count(),
        under(t.arena@, x, sizeable(t, parent as int)[k] as int),
    ensures
        below(t, x, parent as int),
        branch_to(t.arena@, x, parent as int) == sizeable(t, parent as int)[k],
        branch_position(t, parent, x as u32) == k,
        steps_up(t.arena@, x, parent as int) == 1 + steps_up(
            t.arena@,
            x,
            sizeable(t, parent as int)[k] as int,
        ),
{
    let kid = sizeable(t, parent as int)[k] as int;
    lemma_kid(t, parent, k);
    lemma_under_transitive(t.arena@, x, kid, parent as int);
    lemma_under_bound(t.arena@, x, kid);
    lemma_branch(t, x, parent as int);
    assert(under(t.arena@, x, kid) <==> kid == branch_to(t.arena@, x, parent as int));
    lemma_steps_add(t, x, kid, parent as int);
    assert(t.is_live_folder(parent as int)) by {
        lemma_sizeable(t, parent as int);
    }
    lemma_position(t, parent, k);
}

/// Every place of an outline is well placed.
pub proof fn lemma_outline_places(
    t: Tree,
    branch_root: u32,
    room: Room,
    parent: u32,
    k: int,
    depth: int,
    left: int,
    family: int,
    i: int,
)
    requires
        t.wf(),
        parent < t.count(),
        branch_root < t.count(),
        0 <= i < outline(t, branch_root, room, parent, k, depth, left, family).len(),
    ensures
        well_placed(
            t,
            branch_root,
            parent,
            k,
            depth,
            left,
            family,
            outline(t, branch_root, room, parent, k, depth, left, family)[i],
        ),
    decreases left, sizeable(t, parent as int).len() - k,
{
    let all = outline(t, branch_root, room, parent, k, depth, left, family);
    let kids = sizeable(t, parent as int);
    let kid = kids[k];
    let b = branch_root as int;
    let own = if parent == branch_root {
        k
    } else {
        family
    };
    let inside = if (room.inside)(kid) {
        outline(t, branch_root, room, kid, 0, depth + 1, left - 1, own)
    } else {
        Seq::empty()
    };
    let later = outline(t, branch_root, room, parent, k + 1, depth, left, family);
    let head = seq![Place { id: kid, depth, family: own, sibling: k }];
    assert(all == head + inside + later);
    lemma_kid(t, parent, k);
    assert(t.linked(kid as int));
    // The child is below `b` where its parent is `b` or below it.
    assert(below(t, kid as int, b) <==> under(t.arena@, parent as int, b)) by {
        if under(t.arena@, parent as int, b) {
            lemma_under_bound(t.arena@, parent as int, b);
        }
    }
    assert(under(t.arena@, kid as int, kid as int));
    if i == 0 {
        assert(all[0] == head[0]);
    } else if i < 1 + inside.len() {
        let p = inside[i - 1];
        assert(all[i] == p);
        lemma_outline_places(
            t,
            branch_root,
            room,
            kid,
            0,
            depth + 1,
            left - 1,
            own,
            i - 1,
        );
        lemma_branch_of(t, parent, k, p.id as int);
        if below(t, kid as int, b) {
            lemma_under_transitive(t.arena@, p.id as int, kid as int, b);
            lemma_under_bound(t.arena@, kid as int, b);
            lemma_under_bound(t.arena@, p.id as int, kid as int);
        }
    } else {
        let p = later[i - 1 - inside.len()];
        assert(all[i] == p);
        lemma_outline_places(
            t,
            branch_root,
            room,
            parent,
            k + 1,
            depth,
            left,
            family,
            i - 1 - inside.len(),
        );
    }
}

/// One of the places is that of node `x`.
pub open spec fn comes_to(places: Seq<Place>, x: u32) -> bool {
    exists|i: int| 0 <= i < places.len() && (#[trigger] places[i]).id == x
}

/// Node `x` is reached from `parent` within `left` levels: it is among the children
/// that can be told apart, and its own parent is where it starts, or is reached and
/// has room inside.
pub open spec fn reached(t: Tree, room: Room, parent: u32, left: int, x: u32) -> bool
    decreases x,
{
    let p = t.arena@[x as int].parent;
    &&& x != parent
    &&& 0 < x < t.count()
    &&& p < x
    &&& sizeable(t, p as int).contains(x)
    &&& sizeable(t, p as int).index_of(x) < (room.count)(p)
    &&& steps_up(t.arena@, x as int, parent as int) <= left
    &&& p == parent || (reached(t, room, parent, left, p) && (room.inside)(p))
}

/// What is reached lies below, behind a child that can be told apart.
proof fn lemma_reached_branch(t: Tree, room: Room, parent: u32, left: int, x: u32)
    requires
        t.wf(),
        parent < t.count(),
        reached(t, room, parent, left, x),
    ensures
        below(t, x as int, parent as int),
        0 <= branch_position(t, parent, x) < sizeable(t, parent as int).len(),
        branch_position(t, parent, x) < (room.count)(parent),
        sizeable(t, parent as int)[branch_position(t, parent, x)] == branch_to(
            t.arena@,
            x as int,
            parent as int,
        ),
        under(t.arena@, x as int, branch_to(t.arena@, x as int, parent as int)),
    decreases x,
{
    let p = t.arena@[x as int].parent;
    assert(under(t.arena@, x as int, x as int));
    assert(under(t.arena@, parent as int, parent as int));
    if p != parent {
        lemma_reached_branch(t, room, parent, left, p);
        lemma_under_bound(t.arena@, p as int, parent as int);
        assert(branch_to(t.arena@, x as int, parent as int) == branch_to(
            t.arena@,
            p as int,
            parent as int,
        ));
    }
}

/// What lies inside a child is reached from the parent where it is reached from
/// the child and the child has room.
proof fn lemma_reached_inside(t: Tree, room: Room, parent: u32, k: int, left: int, x: u32)
    requires
        t.wf(),
        parent < t.count(),
        0 <= k < sizeable(t, parent as int).len(),
        k < (room.count)(parent),
        left > 0,
        x < t.count(),
        below(t, x as int, sizeable(t, parent as int)[k] as int),
    ensures
        reached(t, room, parent, left, x) <==> (room.inside)(sizeable(t, parent as int)[k])
            && reached(t, room, sizeable(t, parent as int)[k], left - 1, x),
    decreases x,
{
    let kid = sizeable(t, parent as int)[k];
    let p = t.arena@[x as int].parent;
    lemma_kid(t, parent, k);
    lemma_branch_of(t, parent, k, x as int);
    lemma_under_bound(t.arena@, x as int, kid as int);
    assert(t.linked(x as int));
    if p == kid {
        assert(reached(t, room, parent, left, kid)) by {
            lemma_position(t, parent, k);
        }
    } else {
        lemma_reached_inside(t, room, parent, k, left, p);
        lemma_branch_of(t, parent, k, p as int);
    }
}

/// An outline from child `k` on comes to what is reached behind that child and
/// those that follow.
proof fn lemma_outline_members(
    t: Tree,
    branch_root: u32,
    room: Room,
    parent: u32,
    k: int,
    depth: int,
    left: int,
    family: int,
    x: u32,
)
    requires
        t.wf(),
        parent < t.count(),
        branch_root < t.count(),
        0 <= k,
    ensures
        comes_to(outline(t, branch_root, room, parent, k, depth, left, family), x) <==> reached(
            t,
            room,
            parent,
            left,
            x,
        ) && branch_position(t, parent, x) >= k,
    decreases left, sizeable(t, parent as int).len() - k,
{
    let all = outline(t, branch_root, room, parent, k, depth, left, family);
    let kids = sizeable(t, parent as int);
    if reached(t, room, parent, left, x) {
        lemma_reached_branch(t, room, parent, left, x);
    }
    if left <= 0 || k >= kids.len() || k >= (room.count)(parent) {
        assert(all.len() == 0);
    } else {
        let kid = kids[k];
        let own = if parent == branch_root {
            k
        } else {
            family
        };
        let inside = if (room.inside)(kid) {
            outline(t, branch_root, room, kid, 0, depth + 1, left - 1, own)
        } else {
            Seq::empty()
        };
        let later = outline(t, branch_root, room, parent, k + 1, depth, left, family);
        let head = seq![Place { id: kid, depth, family: own, sibling: k }];
        assert(all == head + inside + later);
        lemma_kid(t, parent, k);
        lemma_position(t, parent, k);
        if (room.inside)(kid) {
            lemma_outline_members(t, branch_root, room, kid, 0, depth + 1, left - 1, own, x);
        }
        lemma_outline_members(t, branch_root, room, parent, k + 1, depth, left, family, x);
        assert(comes_to(all, x) <==> x == kid || comes_to(inside, x) || comes_to(later, x)) by {
            if comes_to(all, x) {
                let i = choose|i: int| 0 <= i < all.len() && (#[trigger] all[i]).id == x;
                if i > 0 && i < 1 + inside.len() {
                    assert(inside[i - 1].id == x);
                } else if i > 0 {
                    assert(later[i - 1 - inside.len()].id == x);
                }
            }
            if x == kid {
                assert(all[0].id == x);
            }
            if comes_to(inside, x) {
                let i = choose|i: int| 0 <= i < inside.len() && (#[trigger] inside[i]).id == x;
                assert(all[i + 1].id == x);
            }
            if comes_to(later, x) {
                let i = choose|i: int| 0 <= i < later.len() && (#[trigger] later[i]).id == x;
                assert(all[i + 1 + inside.len()].id == x);
            }
        }
        if x == kid {
            assert(reached(t, room, parent, left, x));
        } else if 0 <= x < t.count() && under(t.arena@, x as int, kid as int) {
            lemma_reached_inside(t, room, parent, k, left, x);
            lemma_branch_of(t, parent, k, x as int);
            if (room.inside)(kid) && reached(t, room, kid, left - 1, x) {
                lemma_reached_branch(t, room, kid, left - 1, x);
            }
        } else {
            if comes_to(inside, x) {
                let i = choose|i: int| 0 <= i < inside.len() && (#[trigger] inside[i]).id == x;
                lemma_outline_places(
                    t,
                    branch_root,
                    room,
                    kid,
                    0,
                    depth + 1,
                    left - 1,
                    own,
                    i,
                );
            }
        }
    }
}

/// No node has two places in an outline.
proof fn lemma_outline_distinct(
    t: Tree,
    branch_root: u32,
    room: Room,
    parent: u32,
    k: int,
    depth: int,
    left: int,
    family: int,
    i: int,
    j: int,
)
    requires
        t.wf(),
        parent < t.count(),
        branch_root < t.count(),
        0 <= i < j < outline(t, branch_root, room, parent, k, depth, left, family).len(),
    ensures
        outline(t, branch_root, room, parent, k, depth, left, family)[i].id != outline(
            t,
            branch_root,
            room,
            parent,
            k,
            depth,
            left,
            family,
        )[j].id,
    decreases left, sizeable(t, parent as int).len() - k,
{
    let all = outline(t, branch_root, room, parent, k, depth, left, family);
    let kids = sizeable(t, parent as int);
    let kid = kids[k];
    let own = if parent == branch_root {
        k
    } else {
        family
    };
    let inside = if (room.inside)(kid) {
        outline(t, branch_root, room, kid, 0, depth + 1, left - 1, own)
    } else {
        Seq::empty()
    };
    let later = outline(t, branch_root, room, parent, k + 1, depth, left, family);
    let head = seq![Place { id: kid, depth, family: own, sibling: k }];
    assert(all == head + inside + later);
    lemma_kid(t, parent, k);
    let n = 1 + inside.len();
    assert(under(t.arena@, kid as int, kid as int));
    if j >= n {
        assert(all[j] == later[j - n]);
        lemma_outline_places(t, branch_root, room, parent, k + 1, depth, left, family, j - n);
        if i >= n {
            assert(all[i] == later[i - n]);
            lemma_outline_distinct(
                t,
                branch_root,
                room,
                parent,
                k + 1,
                depth,
                left,
                family,
                i - n,
                j - n,
            );
        } else {
            if i > 0 {
                assert(all[i] == inside[i - 1]);
                lemma_outline_places(
                    t,
                    branch_root,
                    room,
                    kid,
                    0,
                    depth + 1,
                    left - 1,
                    own,
                    i - 1,
                );
            }
            lemma_branch_of(t, parent, k, all[i].id as int);
        }
    } else {
        assert(all[j] == inside[j - 1]);
        lemma_outline_places(t, branch_root, room, kid, 0, depth + 1, left - 1, own, j - 1);
        if i > 0 {
            assert(all[i] == inside[i - 1]);
            lemma_outline_distinct(
                t,
                branch_root,
                room,
                kid,
                0,
                depth + 1,
                left - 1,
                own,
                i - 1,
                j - 1,
            );
        }
    }
}

/// The outline of a layout of `node` down to `depth` levels.
pub open spec fn plan(t: Tree, room: Room, node: u32, depth: int) -> Seq<Place> {
    outline(t, parting(t, node as int) as u32, room, node, 0, 1, depth, 0)
}

/// A layout comes to each node that is reached, and to no node twice.
pub proof fn law_layout_comes_to_what_is_reached(
    t: Tree,
    room: Room,
    node: u32,
    depth: int,
    x: u32,
    i: int,
    j: int,
)
    requires
        t.wf(),
        node < t.arena@.len(),
    ensures
        comes_to(plan(t, room, node, depth), x) <==> reached(t, room, node, depth, x),
        0 <= i < j < plan(t, room, node, depth).len() ==> plan(t, room, node, depth)[i].id
            != plan(t, room, node, depth)[j].id,
{
    law_branches_part_where_not_one_folder_stands_alone(t, node as int);
    let b = parting(t, node as int) as u32;
    lemma_outline_members(t, b, room, node, 0, 1, depth, 0, x);
    if reached(t, room, node, depth, x) {
        lemma_reached_branch(t, room, node, depth, x);
    }
    if 0 <= i < j < plan(t, room, node, depth).len() {
        lemma_outline_distinct(t, b, room, node, 0, 1, depth, 0, i, j);
    }
}

/// A folder takes space where a child does.
proof fn lemma_takes_space(t: Tree, x: int)
    requires
        t.wf(),
        t.rolled_up(),
        0 < x < t.count(),
        !t.arena@[x].removed,
        t.arena@[x].on_disk > 0,
    ensures
        t.is_live_folder(t.arena@[x].parent as int),
        t.arena@[t.arena@[x].parent as int].on_disk > 0,
{
    let p = t.arena@[x].parent as int;
    assert(t.linked(x));
    assert(t.inherits_removal(x));
    assert(t.is_live_folder(p));
    let first = t.arena@[p].first_child as int;
    let past = first + t.arena@[p].child_count;
    assert(t.total(Measure::OnDisk, p) == saturated(t.children_sum(Measure::OnDisk, p)));
    lemma_sum_term(t.live_share(Measure::OnDisk), first, past, x);
}

/// There is room for everything.
pub open spec fn all_fits(t: Tree, room: Room) -> bool {
    &&& forall|x: u32| #[trigger] (room.inside)(x)
    &&& forall|x: u32| #[trigger] (room.count)(x) >= t.count()
}

proof fn lemma_all_reached(t: Tree, room: Room, node: u32, depth: int, x: u32)
    requires
        t.wf(),
        t.rolled_up(),
        all_fits(t, room),
        node < t.count(),
        x < t.count(),
        !t.arena@[x as int].removed,
        t.arena@[x as int].on_disk > 0,
        below(t, x as int, node as int),
        steps_up(t.arena@, x as int, node as int) <= depth,
    ensures
        reached(t, room, node, depth, x),
    decreases x,
{
    let p = t.arena@[x as int].parent;
    lemma_under_bound(t.arena@, x as int, node as int);
    lemma_takes_space(t, x as int);
    assert(t.linked(x as int));
    law_sizeable_are_the_children_that_take_space(t, p as int);
    let kids = sizeable(t, p as int);
    assert(kids.contains(x));
    lemma_sizeable(t, p as int);
    lemma_few_kids(t, p as int);
    assert((room.count)(p) >= t.count());
    if p != node {
        lemma_all_reached(t, room, node, depth, p);
        assert((room.inside)(p));
    }
}

/// A node has fewer children than there are nodes.
pub proof fn lemma_few_kids(t: Tree, id: int)
    requires
        t.wf(),
        t.is_live_folder(id),
    ensures
        sizeable(t, id).len() <= t.count(),
{
    let kids = sizeable(t, id);
    law_sizeable_are_the_children_that_take_space(t, id);
    assert(kids.no_duplicates()) by {
        assert forall|k: int, l: int|
            0 <= k < kids.len() && 0 <= l < kids.len() && k != l implies kids[k] != kids[l] by {
            if k < l {
                assert(kids[k] != kids[l]);
            } else {
                assert(kids[l] != kids[k]);
            }
        }
    }
    kids.unique_seq_to_set();
    let ids = kids.map_values(|x: u32| x as int);
    assert(ids.no_duplicates());
    ids.unique_seq_to_set();
    let all = vstd::set_lib::set_int_range(0, t.count());
    vstd::set_lib::lemma_int_range(0, t.count());
    assert(ids.to_set().subset_of(all)) by {
        assert forall|x: int| ids.to_set().contains(x) implies all.contains(x) by {
            let k = choose|k: int| 0 <= k < ids.len() && ids[k] == x;
            assert(0 < kids[k] < t.arena@.len());
        }
    }
    vstd::set_lib::lemma_len_subset(ids.to_set(), all);
}

/// With room for everything a layout of depth `depth` comes to exactly the nodes
/// that were not removed, take space, and lie one to `depth` levels below its
/// root.
pub proof fn law_layout_comes_to_everything_with_room(
    t: Tree,
    room: Room,
    node: u32,
    depth: int,
    x: u32,
)
    requires
        t.wf(),
        t.rolled_up(),
        all_fits(t, room),
        node < t.arena@.len(),
        x < t.arena@.len(),
    ensures
        comes_to(plan(t, room, node, depth), x) <==> {
            &&& !t.arena@[x as int].removed
            &&& t.arena@[x as int].on_disk > 0
            &&& under(t.arena@, x as int, node as int)
            &&& 1 <= steps_up(t.arena@, x as int, node as int) <= depth
        },
{
    law_layout_comes_to_what_is_reached(t, room, node, depth, x, 0, 0);
    if reached(t, room, node, depth, x) {
        lemma_reached_branch(t, room, node, depth, x);
        let p = t.arena@[x as int].parent;
        lemma_sizeable(t, p as int);
        let k = choose|k: int|
            0 <= k < sizeable(t, p as int).len() && sizeable(t, p as int)[k] == x;
        assert(is_listed(t, p as int, sizeable(t, p as int)[k] as int));
    }
    if x != node && !t.arena@[x as int].removed && t.arena@[x as int].on_disk > 0 && under(
        t.arena@,
        x as int,
        node as int,
    ) && steps_up(t.arena@, x as int, node as int) <= depth {
        lemma_all_reached(t, room, node, depth, x);
    }
}

/// A node is placed on the level on which it lies below the layout's root, and at
/// its position among the children of its parent that take space.
pub proof fn law_places_follow_the_tree(t: Tree, room: Room, node: u32, depth: int, i: int)
    requires
        t.wf(),
        node < t.arena@.len(),
        0 <= i < plan(t, room, node, depth).len(),
    ensures
        ({
            let p = plan(t, room, node, depth)[i];
            let kids = sizeable(t, t.arena@[p.id as int].parent as int);
            &&& 0 < p.id < t.arena@.len()
            &&& under(t.arena@, p.id as int, node as int)
            &&& p.depth == steps_up(t.arena@, p.id as int, node as int)
            &&& 1 <= p.depth <= depth
            &&& 0 <= p.sibling < kids.len()
            &&& kids[p.sibling] == p.id
        }),
{
    law_branches_part_where_not_one_folder_stands_alone(t, node as int);
    let b = parting(t, node as int) as u32;
    lemma_outline_places(t, b, room, node, 0, 1, depth, 0, i);
    let p = plan(t, room, node, depth)[i];
    lemma_under_bound(t.arena@, p.id as int, node as int);
    law_levels_go_by_parents(t, p.id as int, node as int);
}

/// Each branch has a family of its own: what is a child of the node where the
/// branches part, or lies below that child, has the child's position as its
/// family, and what lies above the branches has the first family.
pub proof fn law_families_are_the_branches(t: Tree, room: Room, node: u32, depth: int, i: int)
    requires
        t.wf(),
        node < t.arena@.len(),
        0 <= i < plan(t, room, node, depth).len(),
    ensures
        ({
            let p = plan(t, room, node, depth)[i];
            let b = parting(t, node as int);
            let branches = sizeable(t, b);
            if under(t.arena@, p.id as int, b) && p.id != b {
                &&& 0 <= p.family < branches.len()
                &&& under(t.arena@, p.id as int, branches[p.family] as int)
                &&& forall|f: int|
                    0 <= f < branches.len() && under(
                        t.arena@,
                        p.id as int,
                        (#[trigger] branches[f]) as int,
                    ) ==> f == p.family
            } else {
                p.family == 0
            }
        }),
{
    law_branches_part_where_not_one_folder_stands_alone(t, node as int);
    let b = parting(t, node as int);
    lemma_outline_places(t, b as u32, room, node, 0, 1, depth, 0, i);
    let p = plan(t, room, node, depth)[i];
    assert(!below(t, node as int, b)) by {
        if below(t, node as int, b) {
            lemma_under_bound(t.arena@, node as int, b);
        }
    }
    if below(t, p.id as int, b) {
        let branches = sizeable(t, b);
        assert forall|f: int|
            0 <= f < branches.len() && under(
                t.arena@,
                p.id as int,
                (#[trigger] branches[f]) as int,
            ) implies f == p.family by {
            lemma_branch_of(t, b as u32, f, p.id as int);
            lemma_branch_of(t, b as u32, p.family, p.id as int);
        }
    }
}

/// Two children of the node where the branches part are in different families.
pub proof fn law_branches_have_different_families(
    t: Tree,
    room: Room,
    node: u32,
    depth: int,
    i: int,
    j: int,
)
    requires
        t.wf(),
        node < t.arena@.len(),
        0 <= i < j < plan(t, room, node, depth).len(),
        t.arena@[plan(t, room, node, depth)[i].id as int].parent == parting(t, node as int),
        t.arena@[plan(t, room, node, depth)[j].id as int].parent == parting(t, node as int),
    ensures
        plan(t, room, node, depth)[i].family != plan(t, room, node, depth)[j].family,
        plan(t, room, node, depth)[i].family == plan(t, room, node, depth)[i].sibling,
{
    let x = plan(t, room, node, depth)[i];
    let y = plan(t, room, node, depth)[j];
    let b = parting(t, node as int);
    law_layout_comes_to_what_is_reached(t, room, node, depth, x.id, i, j);
    law_places_follow_the_tree(t, room, node, depth, i);
    law_places_follow_the_tree(t, room, node, depth, j);
    law_families_are_the_branches(t, room, node, depth, i);
    law_families_are_the_branches(t, room, node, depth, j);
    law_branches_part_where_not_one_folder_stands_alone(t, node as int);
    assert(t.linked(x.id as int) && t.linked(y.id as int));
    assert(under(t.arena@, x.id as int, x.id as int));
    assert(under(t.arena@, y.id as int, y.id as int));
    assert(under(t.arena@, b, b));
    assert(under(t.arena@, x.id as int, sizeable(t, b)[x.sibling] as int));
    assert(under(t.arena@, y.id as int, sizeable(t, b)[y.sibling] as int));
}

/// What is listed under a folder that was not removed are its children that were
/// not, all of them, each once, largest first. Nothing is listed under any other
/// node.
pub proof fn law_listing_are_the_children_that_are_left(t: Tree, id: int)
    requires
        t.wf(),
    ensures
        !(0 <= id < t.arena@.len() && t.arena@[id].dir && !t.arena@[id].removed) ==> listing(
            t,
            id,
        ).len() == 0,
        0 <= id < t.arena@.len() && t.arena@[id].dir && !t.arena@[id].removed ==> {
            &&& forall|x: u32|
                0 < x < t.arena@.len() ==> (#[trigger] listing(t, id).contains(x)
                    <==> t.arena@[x as int].parent == id && !t.arena@[x as int].removed)
            &&& forall|k: int, l: int|
                0 <= k < l < listing(t, id).len() ==> (#[trigger] listing(t, id)[k]) != (
                #[trigger] listing(t, id)[l]) && t.arena@[listing(t, id)[k] as int].on_disk
                    >= t.arena@[listing(t, id)[l] as int].on_disk
        },
{
    if t.is_live_folder(id) {
        assert(t.slice_ordered(id));
        assert forall|x: u32| 0 < x < t.arena@.len() implies (#[trigger] listing(t, id).contains(x)
            <==> t.arena@[x as int].parent == id && !t.arena@[x as int].removed) by {
            assert(t.slice(id).contains((x as int) as u32) <==> t.is_child(id, x as int)
                && !t.arena@[x as int].removed);
        }
    }
}

/// The size of a listed node counts once among the sizes of its siblings.
pub proof fn law_sibling_sizes_count_once(t: Tree, ids: Seq<u32>, k: int)
    requires
        0 <= k < ids.len(),
    ensures
        sum(sizes_of(t, ids), 0, 0) == 0,
        sum(sizes_of(t, ids), 0, k + 1) == sum(sizes_of(t, ids), 0, k)
            + t.arena@[ids[k] as int].on_disk,
{
}

} // verus!
