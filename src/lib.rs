//! A bounded, least-recently-used cache from directory paths to snapshots of
//! their entries.

pub mod entry;
pub mod lru_cache;
pub mod file_system;
pub mod laws;
