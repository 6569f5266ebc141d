//! Names and paths of nodes.

use crate::scan::node::{Node, RootPath, Tree};
use crate::text::{from_utf16, utf16_text};
use vstd::prelude::*;

verus! {

/// The path under which root `id` is shown: the first one that was named.
pub open spec fn shown_as(roots: Seq<RootPath>, id: u32) -> Option<Seq<char>>
    decreases roots.len(),
{
    if roots.len() == 0 {
        None
    } else if roots[0].id == id {
        Some(roots[0].path@)
    } else {
        shown_as(roots.skip(1), id)
    }
}

/// A name behind a path: one separator stands between them, and none where the
/// path is empty.
pub open spec fn joined(path: Seq<char>, separator: char, name: Seq<char>) -> Seq<char> {
    if path.len() == 0 || path.last() == separator {
        path + name
    } else {
        path.push(separator) + name
    }
}

impl Tree {
    /// The name of node `id` as UTF-16 units.
    pub open spec fn name_units(&self, id: int) -> Seq<u16> {
        if 0 <= id < self.count() && self.arena@[id].name_start <= self.arena@[id].name_end
            <= self.names@.len() {
            self.names@.subrange(
                self.arena@[id].name_start as int,
                self.arena@[id].name_end as int,
            )
        } else {
            Seq::empty()
        }
    }

    /// The path of node `id`: that of the nearest named root at or above it,
    /// and the names below that root.
    pub open spec fn path_text(&self, id: int, separator: char) -> Seq<char>
        decreases id,
    {
        match shown_as(self.roots@, id as u32) {
            Some(path) => path,
            None => if 0 < id < self.count() && self.arena@[id].parent < id {
                joined(
                    self.path_text(self.arena@[id].parent as int, separator),
                    separator,
                    utf16_text(self.name_units(id)),
                )
            } else {
                utf16_text(self.name_units(id))
            },
        }
    }

    /// The name of a node as UTF-16 units; nothing for unknown ids.
    pub fn name_u16(&self, id: u32) -> (units: &[u16])
        ensures
            units@ == self.name_units(id as int),
    {
        if (id as usize) < self.arena.len() {
            let node: &Node = &self.arena[id as usize];
            if node.name_start <= node.name_end && node.name_end <= self.names.len() {
                return vstd::slice::slice_subrange(
                    self.names.as_slice(),
                    node.name_start,
                    node.name_end,
                );
            }
        }
        let none: &[u16] = vstd::slice::slice_subrange(self.names.as_slice(), 0, 0);
        assert(none@ =~= Seq::<u16>::empty());
        none
    }

    /// The name of a node; empty for unknown ids.
    pub fn name(&self, id: u32) -> (name: String)
        ensures
            name@ == utf16_text(self.name_units(id as int)),
    {
        from_utf16(self.name_u16(id))
    }

    fn root_path(&self, id: u32) -> (path: Option<&String>)
        ensures
            match path {
                Some(p) => shown_as(self.roots@, id) == Some(p@),
                None => shown_as(self.roots@, id) is None,
            },
    {
        let mut k: usize = 0;
        assert(self.roots@.skip(0) =~= self.roots@);
        while k < self.roots.len()
            invariant
                k <= self.roots@.len(),
                shown_as(self.roots@, id) == shown_as(self.roots@.skip(k as int), id),
            decreases self.roots@.len() - k,
        {
            if self.roots[k].id == id {
                return Some(&self.roots[k].path);
            }
            assert(self.roots@.skip(k as int).skip(1) =~= self.roots@.skip(k + 1));
            k = k + 1;
        }
        None
    }

    /// The path of a node as shown.
    pub fn node_path(&self, id: u32, separator: char) -> (path: String)
        ensures
            path@ == self.path_text(id as int, separator),
        decreases id,
    {
        match self.root_path(id) {
            Some(path) => path.clone(),
            None => {
                let name: String = self.name(id);
                if 0 < id && (id as usize) < self.arena.len() && self.arena[id as usize].parent
                    < id {
                    let mut path: String = self.node_path(
                        self.arena[id as usize].parent,
                        separator,
                    );
                    let len: usize = path.as_str().unicode_len();
                    if len > 0 && path.as_str().get_char(len - 1) != separator {
                        path.push(separator);
                    }
                    path.append(name.as_str());
                    path
                } else {
                    name
                }
            },
        }
    }
}

} // verus!
