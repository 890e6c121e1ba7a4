//! The in-memory model of a credential database (a tree of groups and
//! entries keyed by permanent uuids, with per-entry revision history) and the
//! engine that merges two independently edited copies of one database.

pub mod ids;
pub mod times;
pub mod value;
pub mod keyed;
pub mod iconid;
pub mod color;
pub mod text;
pub mod entry;
pub mod log;
pub mod history;
pub mod group;
pub mod merge;
pub mod nodes;
pub mod format;
pub mod purge;
pub mod deleted;
