//! A small note store: notes are CRDT documents with a time-ordered
//! identifier, kept in a repository and persisted as opaque records.
//!
//! - `engine`: what the document engine and the identifier generator are
//!   relied upon to do.
//! - `identity`: identifiers that strictly ascend.
//! - `crdt_note`: the note as a document.
//! - `notes`: the repository, listed in ascending order of identifier.
//! - `storage`: the content store.
//! - `service`: repository and store kept in step.

pub mod crdt_note;
pub mod engine;
pub mod error;
pub mod identity;
pub mod notes;
pub mod order;
pub mod service;
pub mod storage;
