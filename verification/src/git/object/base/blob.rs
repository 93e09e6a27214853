//! Blobs: the contents of files.

use vstd::prelude::*;
use crate::git::object::metadata::{Metadata, MetadataView};

verus! {

/// A blob: raw bytes.
#[derive(Debug, Clone)]
pub struct Blob {
    pub meta: Metadata,
    pub data: Vec<u8>,
}

/// The model of a blob.
pub struct BlobView {
    pub meta: MetadataView,
    pub data: Seq<u8>,
}

impl View for Blob {
    type V = BlobView;

    open spec fn view(&self) -> BlobView {
        BlobView { meta: self.meta@, data: self.data@ }
    }
}

/// The blob that an object stands for.
pub open spec fn blob_of(meta: MetadataView) -> BlobView {
    BlobView { meta, data: meta.data }
}

impl Blob {
    /// The blob that `metadata` stands for: its contents are the blob.
    pub fn new(metadata: Metadata) -> (blob: Blob)
        ensures
            blob@ == blob_of(metadata@),
    {
        let data = metadata.data.clone();
        Blob { meta: metadata, data }
    }
}

} // verus!
