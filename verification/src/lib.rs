//! Chronicle: a verified indexing and retrieval core for a vault of
//! wiki-linked plain-text notes.
//!
//! The crate turns raw note text into a relational representation (notes,
//! links, tags, and a shadow full-text record per note) and keeps that
//! representation consistent as notes are created, edited, renamed and
//! removed. Parsing, change detection, indexing, search and link queries
//! are all verified; reading files and delivering change events is left to
//! the caller.

pub mod error;
pub mod fingerprint;
pub mod graph;
pub mod indexer;
pub mod links;
pub mod models;
pub mod notes;
pub mod parser;
pub mod search;
pub mod store;
pub mod sync;
pub mod tags;
pub mod text;
pub mod timefmt;
pub mod util;
pub mod watcher;
