//! A declarative package manager's core: the declaration tree, the package
//! and category model, the diff against the installed set, and the
//! structural editor that keeps the declaration files in step.

pub mod package;
pub mod text;
pub mod syntax;
pub mod tree;
pub mod diff;
pub mod log;
pub mod edit;
pub mod store;
pub mod catalog;
pub mod persist;
pub mod config;
pub mod cli;
