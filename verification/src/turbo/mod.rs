//! The direct volume reader.

pub mod run_laws;
pub mod runs;
