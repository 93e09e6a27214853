//! Annotated tags. The contents of a tag open with a line that names the
//! object it points at.

use vstd::prelude::*;
use crate::errors::{ErrorView, GitError};
use crate::git::hash;
use crate::git::object::base::commit::{hash_line_at, hash_of_line, read_hash_line};
use crate::git::object::metadata::{Metadata, MetadataView};

verus! {

/// "object " in ASCII.
pub open spec fn object_word() -> Seq<u8> {
    seq![0x6fu8, 0x62, 0x6a, 0x65, 0x63, 0x74, 0x20]
}

/// The model of a tag.
pub struct TagView {
    pub meta: MetadataView,
    pub object_id: Seq<u8>,
}

/// A tag: the hash of the object it points at. The name of the tag, the
/// tagger and the message stay in the contents.
#[derive(Debug, Clone)]
pub struct Tag {
    pub meta: Metadata,
    pub object_id: hash::Hash,
}

impl View for Tag {
    type V = TagView;

    open spec fn view(&self) -> TagView {
        TagView { meta: self.meta@, object_id: self.object_id@ }
    }
}

/// The tag that an object stands for.
pub open spec fn tag_of(meta: MetadataView) -> Result<TagView, ErrorView> {
    if hash_line_at(meta.data, 0, object_word()) {
        Ok(TagView { meta, object_id: hash_of_line(meta.data, 0, object_word()) })
    } else {
        Err(ErrorView::CorruptObject)
    }
}

impl Tag {
    /// The tag that `metadata` stands for. Contents that do not open with the
    /// line of the target make a corrupt object.
    pub fn new(metadata: Metadata) -> (r: Result<Tag, GitError>)
        ensures
            match r {
                Ok(tag) => tag_of(metadata@) == Ok::<_, ErrorView>(tag@),
                Err(e) => tag_of(metadata@) == Err::<TagView, _>(e@),
            },
    {
        let word = [0x6fu8, 0x62, 0x6a, 0x65, 0x63, 0x74, 0x20];
        proof {
            assert(word@ =~= object_word());
        }
        match read_hash_line(metadata.data.as_slice(), 0, word.as_slice()) {
            Some(object_id) => Ok(Tag { meta: metadata, object_id }),
            None => Err(GitError::CorruptObject),
        }
    }
}

} // verus!
