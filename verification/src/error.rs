//! What can go wrong.

use vstd::prelude::*;

verus! {

/// An error of the core.
#[derive(Debug, Clone, PartialEq, Eq)]
pub enum CoreError {
    /// The canvas has no area.
    InvalidGeometry,
    /// The tree has no node with this id.
    NodeNotFound(u32),
    /// More cells than the canvas takes.
    TooManyCells,
    /// A snapshot file could not be read, parsed, written or deleted.
    SnapshotParse(String),
}

} // verus!
