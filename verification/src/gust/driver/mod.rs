//! The interface between the codecs and the store that keeps decoded objects.

pub mod structure;
pub mod utils;

use vstd::prelude::*;
use std::collections::HashMap;
use crate::errors::GitError;
use crate::git::hash;
use crate::git::object::Object;
use crate::git::pack::Pack;
use crate::git::protocol::RefCommand;

verus! {

/// The object id that stands for "no object": forty zeros.
pub const ZERO_ID: &'static str = "0000000000000000000000000000000000000000";

/// Whether a text is the id that stands for "no object".
pub open spec fn is_zero_id(id: Seq<char>) -> bool {
    id == ZERO_ID@
}

/// The store that keeps decoded objects and references. The codecs promise
/// nothing about an implementation and rely on nothing but the types.
pub trait ObjectStorage: Clone + Send + Sync {
    /// The id that the head of the repository at `path` points at.
    fn get_head_object_id(&self, path: &str) -> String;

    /// The references of the repository at `path`, each with the id it
    /// points at.
    fn get_ref_object_id(&self, path: &str) -> HashMap<String, String>;

    /// Applies one reference command to the repository at `path`.
    fn handle_refs(&self, command: &RefCommand, path: &str);

    /// Keeps the objects of a decoded pack.
    fn save_packfile(&self, decoded_pack: Pack, repo_path: &str) -> Result<(), GitError>;

    /// All objects of the repository at `repo_path`, as one pack.
    fn get_full_pack_data(&self, repo_path: &str) -> Vec<u8>;

    /// The pack that answers the pull in progress.
    fn handle_pull_pack_data(&self) -> Vec<u8>;

    /// The object with the given hash, for a hash delta whose base the pack
    /// lacks.
    fn get_hash_object(&self, h: &hash::Hash) -> Result<Object, GitError>;
}

} // verus!
