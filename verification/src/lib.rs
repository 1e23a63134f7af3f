pub mod build;
pub mod db;
pub mod graph;
pub mod ids;
pub mod monitor;
pub mod monitor_laws;
pub mod numbers;
pub mod ordmap;
pub mod parser;
pub mod path_chain_laws;
pub mod path_laws;
pub mod paths;
pub mod platform;
pub mod sorting;
pub mod text;
pub mod text_laws;
pub mod types;
