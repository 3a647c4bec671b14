//! Keeps a destination text in step with a source text: the two texts are
//! split into lines, an edit script is computed between them, and the script
//! is replayed on the destination with a check for conflicts.

pub mod lines;
pub mod patch;
pub mod diff;
pub mod config;
pub mod laws;
pub mod sync;
