//! The error taxonomy of the codecs.

use vstd::prelude::*;
use vstd::string::StringExecFns;
use crate::git::hash;

verus! {

/// Every way a codec can reject its input.
#[derive(Debug, Clone, PartialEq, Eq)]
pub enum GitError {
    /// The container does not start with the pack magic.
    InvalidPackHeader,
    /// The container announces a version other than 2.
    UnsupportedVersion,
    /// An object header carries a type code that names no object type.
    InvalidObjectType,
    /// A variable-length header cannot be represented.
    MalformedHeader,
    /// An object's materialized length disagrees with its announced length.
    CorruptObject,
    /// An offset delta points at or before the start of the container's objects,
    /// or at itself.
    InvalidOffsetDelta,
    /// A delta stream holds the reserved command or copies outside its base.
    InvalidDeltaCommand,
    /// A hash delta names a base that is neither in the cache nor known outside.
    MissingBaseObject(hash::Hash),
    /// A compressed stream is corrupt.
    DecompressionError,
    /// The input ends in the middle of a field.
    UnexpectedEof,
    /// An index file has a bad magic, version or length.
    InvalidIdxFile,
    /// An offset does not fit the 31 bits of an index entry.
    PackTooLarge,
    /// No further node id can be made.
    IdSpaceExhausted,
}

/// The model of an error: the same variants, with a missing hash as its bytes.
pub enum ErrorView {
    InvalidPackHeader,
    UnsupportedVersion,
    InvalidObjectType,
    MalformedHeader,
    CorruptObject,
    InvalidOffsetDelta,
    InvalidDeltaCommand,
    MissingBaseObject(Seq<u8>),
    DecompressionError,
    UnexpectedEof,
    InvalidIdxFile,
    PackTooLarge,
    IdSpaceExhausted,
}

impl View for GitError {
    type V = ErrorView;

    open spec fn view(&self) -> ErrorView {
        match *self {
            GitError::InvalidPackHeader => ErrorView::InvalidPackHeader,
            GitError::UnsupportedVersion => ErrorView::UnsupportedVersion,
            GitError::InvalidObjectType => ErrorView::InvalidObjectType,
            GitError::MalformedHeader => ErrorView::MalformedHeader,
            GitError::CorruptObject => ErrorView::CorruptObject,
            GitError::InvalidOffsetDelta => ErrorView::InvalidOffsetDelta,
            GitError::InvalidDeltaCommand => ErrorView::InvalidDeltaCommand,
            GitError::MissingBaseObject(h) => ErrorView::MissingBaseObject(h@),
            GitError::DecompressionError => ErrorView::DecompressionError,
            GitError::UnexpectedEof => ErrorView::UnexpectedEof,
            GitError::InvalidIdxFile => ErrorView::InvalidIdxFile,
            GitError::PackTooLarge => ErrorView::PackTooLarge,
            GitError::IdSpaceExhausted => ErrorView::IdSpaceExhausted,
        }
    }
}

/// The message of an error. A missing base is named by the hexadecimal
/// rendering of its hash.
pub open spec fn error_text(e: ErrorView) -> Seq<char> {
    match e {
        ErrorView::InvalidPackHeader => "invalid pack header"@,
        ErrorView::UnsupportedVersion => "unsupported pack version"@,
        ErrorView::InvalidObjectType => "invalid object type"@,
        ErrorView::MalformedHeader => "malformed object header"@,
        ErrorView::CorruptObject => "corrupt object"@,
        ErrorView::InvalidOffsetDelta => "invalid offset delta"@,
        ErrorView::InvalidDeltaCommand => "invalid delta command"@,
        ErrorView::MissingBaseObject(h) => "missing base object "@ + hash::hex_of(h),
        ErrorView::DecompressionError => "decompression error"@,
        ErrorView::UnexpectedEof => "unexpected end of input"@,
        ErrorView::InvalidIdxFile => "invalid idx file"@,
        ErrorView::PackTooLarge => "pack too large"@,
        ErrorView::IdSpaceExhausted => "no node id left"@,
    }
}

impl GitError {
    /// The message of the error.
    pub fn message(&self) -> (text: String)
        ensures
            text@ == error_text(self@),
    {
        match self {
            GitError::InvalidPackHeader => "invalid pack header".to_owned(),
            GitError::UnsupportedVersion => "unsupported pack version".to_owned(),
            GitError::InvalidObjectType => "invalid object type".to_owned(),
            GitError::MalformedHeader => "malformed object header".to_owned(),
            GitError::CorruptObject => "corrupt object".to_owned(),
            GitError::InvalidOffsetDelta => "invalid offset delta".to_owned(),
            GitError::InvalidDeltaCommand => "invalid delta command".to_owned(),
            GitError::MissingBaseObject(h) => {
                let mut text = "missing base object ".to_owned();
                let hex = h.to_plain_str();
                text.append(hex.as_str());
                text
            },
            GitError::DecompressionError => "decompression error".to_owned(),
            GitError::UnexpectedEof => "unexpected end of input".to_owned(),
            GitError::InvalidIdxFile => "invalid idx file".to_owned(),
            GitError::PackTooLarge => "pack too large".to_owned(),
            GitError::IdSpaceExhausted => "no node id left".to_owned(),
        }
    }
}

} // verus!
