//! A catalog of recorded video clips kept in step with the directories that
//! hold them: a relational store with cascades and migrations, the scan pass
//! that reconciles it with what is on disk, and the decision step of the
//! background watcher; with them, the arguments for the external media tool
//! and the parsing of requests for clip files.

pub mod adapters;
pub mod filename;
pub mod laws;
pub mod media;
pub mod model;
pub mod scan;
pub mod schema;
pub mod serve;
pub mod store;
pub mod text;
pub mod watcher;
