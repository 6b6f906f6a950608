//! In-memory state model of a small task-list editor.
//!
//! The library owns the ordered entry list, the active visibility filter and
//! the two text buffers, and exposes the fixed set of operations that mutate
//! them.  Every index-taking operation addresses the row as it is visible
//! under the current filter and resolves it back to the backing position
//! before acting.  A textual codec persists the entry list and is proved to
//! round-trip.

pub mod codec;
pub mod entry;
pub mod filter;
pub mod indexing;
pub mod state;
