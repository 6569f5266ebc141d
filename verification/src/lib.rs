//! The disk-usage core: an arena tree of a scanned volume with its roll-up
//! and surgery, snapshots and their comparison, the run-list decoder of the
//! direct volume reader, and the decisions behind the canvas layouts and the
//! shell commands.

pub mod error;
pub mod layout;
pub mod lexical;
pub mod scan;
pub mod shell;
pub mod snapshots;
pub mod sorting;
pub mod text;
pub mod turbo;
