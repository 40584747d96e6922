//! Verified core of a Git hook manager.
//!
//! The crate models and verifies the logic of the tool: the flat
//! key/value configuration format with its parser and serializer, the
//! hook catalog with its trampoline scripts, repository discovery over
//! a directory tree, and the branch-name-to-commit-message formatter.
//! Filesystem access, process spawning and argument parsing live in the
//! unverified application layer around this crate.

pub mod commit_msg;
pub mod config;
pub mod git_hooks;
pub mod hook_manager;
pub mod text;
