//! The scanned tree: its arena, its roll-up and its surgery.

pub mod ancestry;
pub mod categories;
pub mod dates;
pub mod growth;
pub mod listing_laws;
pub mod names;
pub mod node;
pub mod order;
pub mod ranking;
pub mod rollup;
pub mod subtree_laws;
pub mod sums;
pub mod surgery;
pub mod surgery_laws;
pub mod totals;
pub mod weights;
