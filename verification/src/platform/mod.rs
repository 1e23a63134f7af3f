//! The machine, the options, and the files of a project.
pub mod init;
pub mod locks;
pub mod names;
pub mod options;
pub mod scan_laws;
pub mod scanner;
