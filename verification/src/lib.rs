//! A small library for rotating through the files of a directory without
//! immediate repeats, with the already-used set persisted as a plain text
//! state file, and for finding byte-identical duplicates among those files
//! by their SHA-256 digest.
//!
//! All filesystem work (listing a directory, reading file bytes, writing
//! the state file, renaming duplicates) is left to the caller: this crate
//! only decides, on plain values, what to pick, what the state file holds,
//! and which files are duplicates.

pub mod outside;
pub mod lines;
pub mod strutil;
pub mod image_list;
pub mod dedupe;
