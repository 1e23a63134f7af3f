//! What an update of a project does.
pub mod config;
pub mod dirs;
pub mod expand;
pub mod expand_laws;
pub mod order_laws;
pub mod place_laws;
pub mod rule_laws;
pub mod run;
pub mod run_laws;
pub mod spread;
pub mod update;
pub mod update_laws;
pub mod vars;
