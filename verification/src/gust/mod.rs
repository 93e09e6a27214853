//! What surrounds the codecs: the interface of the object store and the
//! directory-tree builder.

pub mod driver;
