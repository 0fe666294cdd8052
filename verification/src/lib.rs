//! A small faceted document index.
//!
//! Documents carry hierarchical facet paths such as `/subjects/history`.
//! Writes are staged in a batch and committed in one step into a new
//! snapshot; readers only ever see committed snapshots. A report counts,
//! for each child of a facet path, the live documents at or below it.
//!
//! The library does no input or output. Where an operation is to be
//! persisted, the caller writes what the operation is about to install and
//! tells the library how the write went; the library then installs the new
//! snapshot or leaves everything as it was.

pub mod document;
pub mod engine;
pub mod error;
pub mod laws;
pub mod path;
pub mod report;
pub mod search;
pub mod snapshot;
pub mod store;
mod tally;
pub mod taxonomy;
pub mod text;
