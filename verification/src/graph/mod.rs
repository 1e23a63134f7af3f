//! The dependency graph.
pub mod cycles;
pub mod dag;
pub mod dag_laws;
pub mod dot;
pub mod picture_laws;
pub mod walk;
