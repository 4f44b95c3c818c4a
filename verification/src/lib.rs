//! Filesystem helpers: shell-style glob patterns, recursive directory
//! traversal and per-user base directories.

pub mod dirs;
pub mod glob;
pub mod glob_laws;
pub mod paths;
pub mod walk;
