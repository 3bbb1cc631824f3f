//! A content-addressed media store builder for game mods: discovers media
//! files of enabled mods, hashes them into stable content identifiers,
//! deduplicates by content, serializes a binary index, and plans the
//! materialization of each unique asset into an output directory.

pub mod asset;
pub mod canonical;
pub mod collect;
pub mod config;
pub mod error;
pub mod hashing;
pub mod index;
pub mod hex;
pub mod materialize;
pub mod pipeline;
pub mod strings;
