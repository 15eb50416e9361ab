//! Directed acyclic graphs of nodes with parents.
pub mod dag;
