//! The database of a project: nodes, links between them, and pending work.
pub mod commands;
pub mod entry;
pub mod entry_laws;
pub mod errors;
pub mod ghosts;
pub mod gone_laws;
pub mod laws;
pub mod link_laws;
pub mod links;
pub mod lookup;
pub mod lookup_laws;
pub mod node_laws;
pub mod nodes;
pub mod output_tracking;
pub mod path_resolve;
pub mod rows;
pub mod snapshot;
pub mod store_laws;
pub mod sweep;
pub mod sweep_laws;
pub mod sync;
pub mod sync_laws;
pub mod sync_step_laws;
pub mod tables;
pub mod vardb;
pub mod variant;
