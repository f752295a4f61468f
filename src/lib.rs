//! An in-memory, incrementally maintained model of a directory tree: ordered
//! relative paths, an ordered entry store, snapshots with a replayable update
//! log, glob policies and git status summaries.

pub mod path;
pub mod entry;
pub mod store;
pub mod glob;
pub mod snapshot;
pub mod ignore;
pub mod worktree;
pub mod repository;
pub mod changes;
