//! The object model and the two codecs.

pub mod hash;
pub mod hash_index;
pub mod idx;
pub mod object;
pub mod pack;
pub mod protocol;

pub use crate::git::object::base::ObjClass;
pub use crate::git::object::metadata::Metadata;
