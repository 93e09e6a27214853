//! The directory tree that the commits of a pack describe.

pub mod nodes;
