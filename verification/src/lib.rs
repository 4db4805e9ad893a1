//! Static deadlock detection for Rust programs: a lock graph built from
//! lock acquisitions, searched for cycles, and the source analysis that
//! produces those acquisitions.

pub mod text;
pub mod lock_graph;
pub mod detector;
pub mod symbol_table;
pub mod syntax;
pub mod items;
pub mod project;
pub mod report;

