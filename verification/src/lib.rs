//! Core of a content-addressed object store: the packfile codec, the pack
//! index codec, the delta applier and the directory-tree builder.
//!
//! Everything here works on plain byte slices and plain values; reading files,
//! talking to a database or to the network is left to the caller.

pub mod errors;
pub mod utils;
pub mod git;
pub mod gust;
