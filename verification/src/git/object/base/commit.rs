//! Commits. The contents of a commit open with a line that names its root
//! tree and one line for each of its parents.

use vstd::prelude::*;
use crate::errors::{ErrorView, GitError};
use crate::git::hash;
use crate::git::hash::{is_hash_text, unhex_codes};
use crate::git::object::metadata::{Metadata, MetadataView};

verus! {

/// "tree " in ASCII.
pub open spec fn tree_word() -> Seq<u8> {
    seq![0x74u8, 0x72, 0x65, 0x65, 0x20]
}

/// "parent " in ASCII.
pub open spec fn parent_word() -> Seq<u8> {
    seq![0x70u8, 0x61, 0x72, 0x65, 0x6e, 0x74, 0x20]
}

/// The model of a commit.
pub struct CommitView {
    pub meta: MetadataView,
    pub tree_id: Seq<u8>,
    pub parent_tree_ids: Seq<Seq<u8>>,
}

/// A commit: the hash of its root tree and the hashes of its parents. Author,
/// committer and message stay in the contents.
#[derive(Debug, Clone)]
pub struct Commit {
    pub meta: Metadata,
    pub tree_id: hash::Hash,
    pub parent_tree_ids: Vec<hash::Hash>,
}

/// The models of a sequence of hashes.
pub open spec fn hash_views(hashes: Seq<hash::Hash>) -> Seq<Seq<u8>> {
    Seq::new(hashes.len(), |i: int| hashes[i]@)
}

impl View for Commit {
    type V = CommitView;

    open spec fn view(&self) -> CommitView {
        CommitView {
            meta: self.meta@,
            tree_id: self.tree_id@,
            parent_tree_ids: hash_views(self.parent_tree_ids@),
        }
    }
}

/// Whether a line that consists of `word`, 40 hexadecimal digits and a line
/// feed starts at `pos`.
pub open spec fn hash_line_at(data: Seq<u8>, pos: int, word: Seq<u8>) -> bool {
    &&& 0 <= pos
    &&& pos + word.len() + 41 <= data.len()
    &&& data.subrange(pos, pos + word.len()) == word
    &&& is_hash_text(data.subrange(pos + word.len(), pos + word.len() + 40))
    &&& data[pos + word.len() + 40] == 0x0a
}

/// The hash that the line at `pos` names.
pub open spec fn hash_of_line(data: Seq<u8>, pos: int, word: Seq<u8>) -> Seq<u8> {
    unhex_codes(data.subrange(pos + word.len(), pos + word.len() + 40))
}

/// The hashes of the parent lines that follow one another from `pos` on.
pub open spec fn parents_at(data: Seq<u8>, pos: int) -> Seq<Seq<u8>>
    decreases data.len() - pos,
{
    if hash_line_at(data, pos, parent_word()) {
        seq![hash_of_line(data, pos, parent_word())] + parents_at(data, pos + 48)
    } else {
        Seq::empty()
    }
}

/// The commit that an object stands for.
pub open spec fn commit_of(meta: MetadataView) -> Result<CommitView, ErrorView> {
    if hash_line_at(meta.data, 0, tree_word()) {
        Ok(
            CommitView {
                meta,
                tree_id: hash_of_line(meta.data, 0, tree_word()),
                parent_tree_ids: parents_at(meta.data, 46),
            },
        )
    } else {
        Err(ErrorView::CorruptObject)
    }
}

/// Whether the bytes of `word` stand at `pos`.
pub fn starts_with_at(data: &[u8], pos: usize, word: &[u8]) -> (r: bool)
    ensures
        r == (pos + word@.len() <= data@.len() && data@.subrange(
            pos as int,
            pos + word@.len(),
        ) == word@),
{
    if data.len() < word.len() || pos > data.len() - word.len() {
        return false;
    }
    let mut i: usize = 0;
    while i < word.len()
        invariant
            i <= word@.len(),
            pos + word.len() <= data.len(),
            forall|k: int| 0 <= k < i ==> data@[pos + k] == word@[k],
        decreases word@.len() - i,
    {
        if data[pos + i] != word[i] {
            proof {
                let part = data@.subrange(pos as int, pos + word@.len());
                assert(part[i as int] == data@[pos + i]);
            }
            return false;
        }
        i += 1;
    }
    proof {
        assert(data@.subrange(pos as int, pos + word@.len()) =~= word@);
    }
    true
}

/// Reads a line that consists of `word`, 40 hexadecimal digits and a line
/// feed.
pub fn read_hash_line(data: &[u8], pos: usize, word: &[u8]) -> (r: Option<hash::Hash>)
    requires
        word@.len() <= 16,
    ensures
        r is Some <==> hash_line_at(data@, pos as int, word@),
        r matches Some(h) ==> h@ == hash_of_line(data@, pos as int, word@),
{
    let len = data.len();
    if !starts_with_at(data, pos, word) {
        return None;
    }
    let start = pos + word.len();
    let h = match hash::Hash::from_hex_bytes(data, start) {
        Some(h) => h,
        None => {
            return None;
        },
    };
    if start + 40 >= data.len() || data[start + 40] != 0x0a {
        return None;
    }
    Some(h)
}

impl Commit {
    /// The commit that `metadata` stands for. Contents that do not open with
    /// the line of the root tree make a corrupt object.
    pub fn new(metadata: Metadata) -> (r: Result<Commit, GitError>)
        ensures
            match r {
                Ok(commit) => commit_of(metadata@) == Ok::<_, ErrorView>(commit@),
                Err(e) => commit_of(metadata@) == Err::<CommitView, _>(e@),
            },
    {
        let data = metadata.data.as_slice();
        let tree = [0x74u8, 0x72, 0x65, 0x65, 0x20];
        let parent = [0x70u8, 0x61, 0x72, 0x65, 0x6e, 0x74, 0x20];
        proof {
            assert(tree@ =~= tree_word());
            assert(parent@ =~= parent_word());
        }
        let tree_id = match read_hash_line(data, 0, tree.as_slice()) {
            Some(h) => h,
            None => {
                return Err(GitError::CorruptObject);
            },
        };
        let mut parents: Vec<hash::Hash> = Vec::new();
        let mut pos: usize = 46;
        let mut more = true;
        let len = data.len();
        proof {
            assert(hash_views(parents@) + parents_at(data@, 46) =~= parents_at(data@, 46));
        }
        while more
            invariant
                data@ == metadata.data@,
                len == data@.len(),
                parent@ == parent_word(),
                pos <= data@.len(),
                more ==> parents_at(data@, 46) == hash_views(parents@) + parents_at(
                    data@,
                    pos as int,
                ),
                !more ==> parents_at(data@, 46) == hash_views(parents@),
            decreases data@.len() - pos + if more {
                1int
            } else {
                0int
            },
        {
            let ghost before = hash_views(parents@);
            match read_hash_line(data, pos, parent.as_slice()) {
                None => {
                    proof {
                        assert(before + Seq::<Seq<u8>>::empty() =~= before);
                    }
                    more = false;
                },
                Some(h) => {
                    parents.push(h);
                    proof {
                        assert(hash_views(parents@) =~= before.push(h@));
                        assert(before + (seq![h@] + parents_at(data@, pos + 48)) =~= before.push(h@)
                            + parents_at(data@, pos + 48));
                    }
                    pos = pos + 48;
                },
            }
        }
        Ok(Commit { meta: metadata, tree_id, parent_tree_ids: parents })
    }
}

} // verus!
