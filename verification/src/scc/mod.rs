//! Dependency analysis of a compilation unit.

pub mod hir;
pub mod order;
pub mod tarjan;
