//! A transactional document store for a flat-category project of small
//! markdown documents: atomic single-file persistence, front-matter
//! parsing and serialization, a reversible structural command log, a
//! crash-safe two-phase reorder of ordinal-prefixed chapters, and a
//! backup snapshot tree with retention.
//!
//! The store operates on an explicit in-memory directory model
//! ([`fs::Fs`]); a host mirrors each published operation onto a real
//! directory tree.

pub mod backup;
pub mod clock;
pub mod codec;
pub mod command;
pub mod domain;
pub mod fs;
pub mod index;
pub mod num;
pub mod reorder;
pub mod storage;
pub mod store;
pub mod text;
pub mod version;
