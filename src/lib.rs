//! Clipboard history core: content classification, the capture decisions,
//! the substring index over recent history and the indexer that keeps it in
//! step with the history store.

pub mod capture;
pub mod classify;
pub mod config;
pub mod entry;
pub mod format;
pub mod index;
pub mod kind;
pub mod record;
pub mod supervisor;
pub mod text;
mod trie;
