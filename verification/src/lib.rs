//! A process-tree viewer library.
//!
//! Builds a forest of process nodes from flat (pid, parent-pid) records,
//! filters it with a short-circuit depth-first search, and renders the
//! result as an indented tree with box-drawing connectors, wrapping long
//! command lines to a column budget.

pub mod ingest;
pub mod render;
pub mod search;
pub mod text;
pub mod tree;
pub mod wrap;
