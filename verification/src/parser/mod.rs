//! The Tupfile language.
pub mod bang;
pub mod errors;
pub mod glob;
pub mod glob_laws;
pub mod line;
pub mod lua;
pub mod lua_laws;
pub mod percent;
pub mod percent_laws;
pub mod reader;
pub mod reader_laws;
pub mod rule;
pub mod script_laws;
pub mod syntax_laws;
pub mod var_laws;
pub mod vardb;
pub mod varsed;
