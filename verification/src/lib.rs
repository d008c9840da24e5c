//! A verified model of the filesystem commands behind a note-taking
//! application's native backend: querying a path's last-modified time,
//! testing whether a path is a directory, renaming an entry, and the
//! relocation of a file or directory tree to a new path (creating the
//! missing ancestors of the destination and removing the emptied source).
//!
//! The filesystem is modelled as a finite map from paths (sequences of
//! component names) to entries; every operation's effect is stated against
//! that map and proved. The binary around the library performs the actual
//! system calls and keeps them faithful to the model by executing the
//! action plans that [`plan`] computes.

pub mod paths;
pub mod model;
pub mod laws;
pub mod plan;
