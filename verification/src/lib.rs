//! A verified catalog of short audio clips.
//!
//! The crate models the persistence and search layer of a voice-playback
//! bot: text normalization for search quality, a primary record table with
//! a search index that is kept synchronized with it, unique-key lookup,
//! existence checks, deletion by path, and cursor-based pagination.

pub mod db;
pub mod errors;
pub mod fts;
pub mod helpers;
pub mod strutil;
