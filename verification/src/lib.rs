//! File-guardian library: a lock policy over project paths, a backup vault,
//! a stash archive for denied writes, and the decision core of a filesystem
//! event monitor with revert / stash / notify enforcement.

pub mod animation;
pub mod git;
pub mod hashing;
pub mod monitor;
pub mod path;
pub mod pattern;
pub mod policy;
pub mod stash;
pub mod state;
pub mod strutil;
pub mod tree;
pub mod vault;
