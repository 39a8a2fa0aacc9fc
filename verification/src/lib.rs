//! Bootstrap layer of a content-addressable version-control repository.
//!
//! The crate resolves where a repository's metadata directory lives, decides
//! whether a target is freshly initialized or already set up, and materializes
//! the metadata substructure together with the initial symbolic reference.
//! Filesystem effects are expressed against an explicit in-memory filesystem
//! model, so every decision and every resulting layout is verified; a thin
//! unverified shell replays the same plan against the real filesystem.

pub mod command;
pub mod fs;
pub mod init;
pub mod paths;
