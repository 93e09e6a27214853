//! Trees: directories. A tree is a sequence of entries, each a mode in ASCII
//! digits, a space, a name, a NUL and the 20 bytes of a hash.

use vstd::prelude::*;
use crate::errors::{ErrorView, GitError};
use crate::git::hash;
use crate::git::object::metadata::{Metadata, MetadataView};
use crate::utils::{
    find_byte, first_at_or_after, lemma_first_at_or_after, read_hash, text_of, utf8_lossy,
};

verus! {

/// What an entry of a tree points at.
#[derive(Debug, Clone, Copy, PartialEq, Eq, Structural)]
pub enum TreeItemType {
    Blob,
    Tree,
}

/// The mode that marks an entry as a directory: "40000" in ASCII.
pub open spec fn tree_mode() -> Seq<u8> {
    seq![0x34u8, 0x30, 0x30, 0x30, 0x30]
}

/// What an entry with the given mode points at.
pub open spec fn item_kind(mode: Seq<u8>) -> TreeItemType {
    if mode == tree_mode() {
        TreeItemType::Tree
    } else {
        TreeItemType::Blob
    }
}

/// The model of an entry of a tree.
pub struct TreeItemView {
    pub mode: Seq<u8>,
    pub item_type: TreeItemType,
    pub id: Seq<u8>,
    pub filename: Seq<char>,
}

/// An entry of a tree: the mode, what the entry points at, the hash of that
/// object and the name under which it appears.
#[derive(Debug, Clone)]
pub struct TreeItem {
    pub mode: Vec<u8>,
    pub item_type: TreeItemType,
    pub id: hash::Hash,
    pub filename: String,
}

impl View for TreeItem {
    type V = TreeItemView;

    open spec fn view(&self) -> TreeItemView {
        TreeItemView {
            mode: self.mode@,
            item_type: self.item_type,
            id: self.id@,
            filename: self.filename@,
        }
    }
}

/// The models of a sequence of entries.
pub open spec fn tree_item_views(items: Seq<TreeItem>) -> Seq<TreeItemView> {
    Seq::new(items.len(), |i: int| items[i]@)
}

/// The model of a tree.
pub struct TreeView {
    pub meta: MetadataView,
    pub tree_items: Seq<TreeItemView>,
}

/// A tree: the entries of a directory, in the order in which they are stored.
#[derive(Debug, Clone)]
pub struct Tree {
    pub meta: Metadata,
    pub tree_items: Vec<TreeItem>,
}

impl View for Tree {
    type V = TreeView;

    open spec fn view(&self) -> TreeView {
        TreeView { meta: self.meta@, tree_items: tree_item_views(self.tree_items@) }
    }
}

/// The entry that starts at `pos`, with the position behind it.
pub open spec fn tree_item_at(data: Seq<u8>, pos: int) -> Result<(TreeItemView, int), ErrorView> {
    match first_at_or_after(data, pos, 0x20u8) {
        None => Err(ErrorView::CorruptObject),
        Some(space) => match first_at_or_after(data, space + 1, 0u8) {
            None => Err(ErrorView::CorruptObject),
            Some(nul) => if nul + 21 > data.len() {
                Err(ErrorView::CorruptObject)
            } else {
                Ok(
                    (
                        TreeItemView {
                            mode: data.subrange(pos, space),
                            item_type: item_kind(data.subrange(pos, space)),
                            id: data.subrange(nul + 1, nul + 21),
                            filename: utf8_lossy(data.subrange(space + 1, nul)),
                        },
                        nul + 21,
                    ),
                )
            },
        },
    }
}

/// The entries from `pos` to the end of the contents of a tree.
pub open spec fn tree_items_at(data: Seq<u8>, pos: int) -> Result<Seq<TreeItemView>, ErrorView>
    decreases data.len() - pos,
    via tree_items_end
{
    if pos < 0 || pos >= data.len() {
        Ok(Seq::empty())
    } else {
        match tree_item_at(data, pos) {
            Err(e) => Err(e),
            Ok((item, next)) => match tree_items_at(data, next) {
                Err(e) => Err(e),
                Ok(rest) => Ok(seq![item] + rest),
            },
        }
    }
}

/// Every entry is more than twenty bytes long, so the entries come to an end.
#[via_fn]
proof fn tree_items_end(data: Seq<u8>, pos: int) {
    lemma_tree_item_advances(data, pos);
}

/// An entry ends behind where it starts, within the contents.
pub proof fn lemma_tree_item_advances(data: Seq<u8>, pos: int)
    ensures
        tree_item_at(data, pos) matches Ok((_, next)) ==> pos < next <= data.len(),
{
    lemma_first_at_or_after(data, pos, 0x20u8);
    match first_at_or_after(data, pos, 0x20u8) {
        Some(space) => {
            lemma_first_at_or_after(data, space + 1, 0u8);
        },
        None => {},
    }
}

/// The tree that an object stands for.
pub open spec fn tree_of(meta: MetadataView) -> Result<TreeView, ErrorView> {
    match tree_items_at(meta.data, 0) {
        Err(e) => Err(e),
        Ok(items) => Ok(TreeView { meta, tree_items: items }),
    }
}

/// Reads the entry that starts at `pos`.
fn read_item(data: &[u8], pos: usize) -> (r: Result<(TreeItem, usize), GitError>)
    requires
        pos < data@.len(),
    ensures
        match r {
            Ok((item, next)) => tree_item_at(data@, pos as int) == Ok::<_, ErrorView>(
                (item@, next as int),
            ) && pos < next <= data@.len(),
            Err(e) => tree_item_at(data@, pos as int) == Err::<(TreeItemView, int), _>(e@),
        },
{
    let len = data.len();
    let space = match find_byte(data, pos, 0x20) {
        Some(i) => i,
        None => {
            return Err(GitError::CorruptObject);
        },
    };
    let nul = match find_byte(data, space + 1, 0) {
        Some(i) => i,
        None => {
            return Err(GitError::CorruptObject);
        },
    };
    let (id, next) = match read_hash(data, nul + 1) {
        Ok(x) => x,
        Err(_) => {
            return Err(GitError::CorruptObject);
        },
    };
    let mode = vstd::slice::slice_to_vec(vstd::slice::slice_subrange(data, pos, space));
    let is_tree = mode.len() == 5 && mode[0] == 0x34 && mode[1] == 0x30 && mode[2] == 0x30
        && mode[3] == 0x30 && mode[4] == 0x30;
    proof {
        if is_tree {
            assert(mode@ =~= tree_mode());
        } else if mode@ == tree_mode() {
            assert(mode@[0] == 0x34 && mode@[1] == 0x30 && mode@[2] == 0x30 && mode@[3] == 0x30
                && mode@[4] == 0x30);
        }
    }
    let item_type = if is_tree {
        TreeItemType::Tree
    } else {
        TreeItemType::Blob
    };
    let filename = text_of(data, space + 1, nul);
    Ok((TreeItem { mode, item_type, id, filename }, next))
}

impl Tree {
    /// The tree that `metadata` stands for. Contents that do not split into
    /// entries make a corrupt object.
    pub fn new(metadata: Metadata) -> (r: Result<Tree, GitError>)
        ensures
            match r {
                Ok(tree) => tree_of(metadata@) == Ok::<_, ErrorView>(tree@),
                Err(e) => tree_of(metadata@) == Err::<TreeView, _>(e@),
            },
    {
        let mut items: Vec<TreeItem> = Vec::new();
        let mut pos: usize = 0;
        let data = metadata.data.as_slice();
        while pos < data.len()
            invariant
                data@ == metadata.data@,
                match tree_items_at(data@, pos as int) {
                    Ok(rest) => tree_items_at(data@, 0) == Ok::<_, ErrorView>(
                        tree_item_views(items@) + rest,
                    ),
                    Err(e) => tree_items_at(data@, 0) == Err::<Seq<TreeItemView>, _>(e),
                },
            decreases data@.len() - pos,
        {
            let ghost before = tree_item_views(items@);
            match read_item(data, pos) {
                Err(e) => {
                    return Err(e);
                },
                Ok((item, next)) => {
                    let ghost view = item@;
                    items.push(item);
                    proof {
                        assert(tree_item_views(items@) =~= before.push(view));
                        match tree_items_at(data@, next as int) {
                            Ok(rest) => {
                                assert(before + (seq![view] + rest) =~= before.push(view) + rest);
                            },
                            Err(_) => {},
                        }
                    }
                    pos = next;
                },
            }
        }
        proof {
            assert(tree_item_views(items@) + Seq::<TreeItemView>::empty() =~= tree_item_views(
                items@,
            ));
        }
        Ok(Tree { meta: metadata, tree_items: items })
    }
}

} // verus!
