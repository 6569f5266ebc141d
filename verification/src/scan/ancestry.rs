//! Facts about ancestors in the arena tree.

use crate::scan::node::{under, Node, Tree};
use vstd::prelude::*;

verus! {

/// Ancestors do not come behind their descendants.
pub proof fn lemma_under_bound(arena: Seq<Node>, id: int, anc: int)
    requires
        0 <= id,
        under(arena, id, anc),
    ensures
        0 <= anc <= id,
    decreases id,
{
    if id != anc {
        lemma_under_bound(arena, arena[id].parent as int, anc);
    }
}

/// An ancestor's ancestor is an ancestor.
pub proof fn lemma_under_transitive(arena: Seq<Node>, a: int, b: int, c: int)
    requires
        0 <= a,
        under(arena, a, b),
        under(arena, b, c),
    ensures
        under(arena, a, c),
    decreases a,
{
    if a != b {
        lemma_under_transitive(arena, arena[a].parent as int, b, c);
    }
}

/// The ancestors of one node lie on one line.
pub proof fn lemma_under_chain(arena: Seq<Node>, id: int, a: int, b: int)
    requires
        0 <= id,
        under(arena, id, a),
        under(arena, id, b),
        a <= b,
    ensures
        under(arena, b, a),
    decreases id,
{
    if id == b {
    } else if id == a {
        lemma_under_bound(arena, id, b);
    } else {
        lemma_under_chain(arena, arena[id].parent as int, a, b);
    }
}

/// Ancestry depends on the parents alone.
pub proof fn lemma_under_congruent(a: Seq<Node>, b: Seq<Node>, id: int, anc: int)
    requires
        a.len() == b.len(),
        forall|i: int| 0 <= i < a.len() ==> (#[trigger] b[i]).parent == a[i].parent,
    ensures
        under(a, id, anc) == under(b, id, anc),
    decreases id,
{
    if id != anc && 0 < id < a.len() {
        assert(b[id].parent == a[id].parent);
        if a[id].parent < id {
            lemma_under_congruent(a, b, a[id].parent as int, anc);
        }
    }
}

/// The root is above every node.
pub proof fn lemma_under_root(t: Tree, id: int)
    requires
        t.shaped(),
        0 <= id < t.count(),
    ensures
        under(t.arena@, id, 0),
    decreases id,
{
    if id > 0 {
        assert(t.linked(id));
        lemma_under_root(t, t.arena@[id].parent as int);
    }
}

/// The child of `anc` on the way down to `id`.
pub open spec fn branch_to(arena: Seq<Node>, id: int, anc: int) -> int
    decreases id,
{
    if 0 < id < arena.len() && arena[id].parent < id && arena[id].parent != anc {
        branch_to(arena, arena[id].parent as int, anc)
    } else {
        id
    }
}

/// What lies below a node lies below exactly one of its children.
pub proof fn lemma_branch(t: Tree, id: int, anc: int)
    requires
        t.shaped(),
        0 <= id < t.count(),
        0 <= anc < t.count(),
        id != anc,
        under(t.arena@, id, anc),
    ensures
        t.is_child(anc, branch_to(t.arena@, id, anc)),
        under(t.arena@, id, branch_to(t.arena@, id, anc)),
        forall|kid: int|
            t.is_child(anc, kid) ==> (#[trigger] under(t.arena@, id, kid) <==> kid == branch_to(
                t.arena@,
                id,
                anc,
            )),
    decreases id,
{
    assert(t.linked(id));
    let p = t.arena@[id].parent as int;
    let branch = branch_to(t.arena@, id, anc);
    if p != anc {
        lemma_branch(t, p, anc);
    }
    assert forall|kid: int| t.is_child(anc, kid) implies (#[trigger] under(t.arena@, id, kid)
        <==> kid == branch) by {
        if under(t.arena@, id, kid) && kid != branch {
            assert(t.linked(kid));
            assert(t.linked(branch));
            lemma_under_bound(t.arena@, id, kid);
            if kid < branch {
                lemma_under_chain(t.arena@, id, kid, branch);
                lemma_under_bound(t.arena@, anc, kid);
            } else {
                lemma_under_chain(t.arena@, id, branch, kid);
                lemma_under_bound(t.arena@, anc, branch);
            }
        }
    }
}

/// What lies below a removed folder is removed.
pub proof fn lemma_removed_below(t: Tree, id: int, anc: int)
    requires
        t.shaped(),
        t.removal_closed(),
        0 <= id < t.count(),
        under(t.arena@, id, anc),
        t.arena@[anc].removed,
    ensures
        t.arena@[id].removed,
    decreases id,
{
    if id != anc {
        assert(t.linked(id));
        lemma_removed_below(t, t.arena@[id].parent as int, anc);
        assert(t.inherits_removal(id));
    }
}

} // verus!
