//! The four kinds of objects, parsed.

pub mod blob;
pub mod commit;
pub mod tag;
pub mod tree;

use vstd::prelude::*;
use crate::errors::{ErrorView, GitError};
use crate::git::object::base::blob::{blob_of, Blob, BlobView};
use crate::git::object::base::commit::{commit_of, Commit, CommitView};
use crate::git::object::base::tag::{tag_of, Tag, TagView};
use crate::git::object::base::tree::{tree_of, Tree, TreeView};
use crate::git::object::metadata::{metadata_of, Metadata};
use crate::git::object::types::ObjectType;
use crate::git::object::{Object, ObjectView};

verus! {

/// A parsed object of any of the four kinds.
#[derive(Debug, Clone)]
pub enum ObjClass {
    BLOB(Blob),
    COMMIT(Commit),
    TREE(Tree),
    TAG(Tag),
}

/// The model of a parsed object.
pub enum ObjClassView {
    BLOB(BlobView),
    COMMIT(CommitView),
    TREE(TreeView),
    TAG(TagView),
}

impl View for ObjClass {
    type V = ObjClassView;

    open spec fn view(&self) -> ObjClassView {
        match self {
            ObjClass::BLOB(b) => ObjClassView::BLOB(b@),
            ObjClass::COMMIT(c) => ObjClassView::COMMIT(c@),
            ObjClass::TREE(t) => ObjClassView::TREE(t@),
            ObjClass::TAG(t) => ObjClassView::TAG(t@),
        }
    }
}

/// What parsing an object yields, by its type.
pub open spec fn parsed(object: ObjectView) -> Result<ObjClassView, ErrorView> {
    let meta = metadata_of(object.object_type, object.contents);
    match object.object_type {
        ObjectType::Blob => Ok(ObjClassView::BLOB(blob_of(meta))),
        ObjectType::Commit => match commit_of(meta) {
            Ok(c) => Ok(ObjClassView::COMMIT(c)),
            Err(e) => Err(e),
        },
        ObjectType::Tree => match tree_of(meta) {
            Ok(t) => Ok(ObjClassView::TREE(t)),
            Err(e) => Err(e),
        },
        ObjectType::Tag => match tag_of(meta) {
            Ok(t) => Ok(ObjClassView::TAG(t)),
            Err(e) => Err(e),
        },
    }
}

impl ObjClass {
    /// Parses an object according to its type.
    pub fn parse(object: &Object) -> (r: Result<ObjClass, GitError>)
        ensures
            match r {
                Ok(class) => parsed(object@) == Ok::<_, ErrorView>(class@),
                Err(e) => parsed(object@) == Err::<ObjClassView, _>(e@),
            },
    {
        let metadata = Metadata::new(object.object_type, &object.contents);
        match object.object_type {
            ObjectType::Blob => Ok(ObjClass::BLOB(Blob::new(metadata))),
            ObjectType::Commit => match Commit::new(metadata) {
                Ok(c) => Ok(ObjClass::COMMIT(c)),
                Err(e) => Err(e),
            },
            ObjectType::Tree => match Tree::new(metadata) {
                Ok(t) => Ok(ObjClass::TREE(t)),
                Err(e) => Err(e),
            },
            ObjectType::Tag => match Tag::new(metadata) {
                Ok(t) => Ok(ObjClass::TAG(t)),
                Err(e) => Err(e),
            },
        }
    }
}

} // verus!
