//! The nodes of the directory tree and the builder that makes them from the
//! trees and blobs of a pack.

use vstd::prelude::*;
use vstd::string::StringExecFns;
use crate::errors::{ErrorView, GitError};
use crate::git::hash;
use crate::git::hash::hex_of;
use crate::git::hash_index::{latest_index, lemma_latest_index, HashIndex};
use crate::git::object::base::blob::{Blob, BlobView};
use crate::git::object::base::commit::{hash_views, CommitView};
use crate::git::object::base::tree::{
    tree_item_views, Tree, TreeItem, TreeItemType, TreeItemView, TreeView,
};
use crate::git::pack::decode::{blob_views, commit_views, tree_views, ObjDecodedMap};
use crate::gust::driver::utils::id_generator::{lemma_ids_ascend, IdGenerator};

verus! {

/// The ten decimal digits, in order.
pub open spec fn decimal_digits() -> Seq<char> {
    seq!['0', '1', '2', '3', '4', '5', '6', '7', '8', '9']
}

/// The decimal digits of a number, as text.
pub open spec fn nat_text(n: nat) -> Seq<char>
    decreases n,
{
    if n < 10 {
        seq![decimal_digits()[n as int]]
    } else {
        nat_text(n / 10).push(decimal_digits()[(n % 10) as int])
    }
}

/// A number as text: its decimal digits, behind a minus sign where it is
/// negative.
pub open spec fn int_text(n: int) -> Seq<char> {
    if n < 0 {
        seq!['-'] + nat_text((-n) as nat)
    } else {
        nat_text(n as nat)
    }
}

/// `i64::to_string`: the number in decimal, with a minus sign where it is
/// negative.
#[verifier::external_body]
fn id_text(nid: i64) -> (text: String)
    ensures
        text@ == int_text(nid as int),
{
    nid.to_string()
}

/// The model of a node: whether it is a directory, its fields, and for a
/// directory its children in order.
pub struct NodeView {
    pub dir: bool,
    pub nid: i64,
    pub pid: Seq<char>,
    pub git_id: Seq<u8>,
    pub name: Seq<char>,
    pub path: Seq<char>,
    pub mode: Seq<u8>,
    pub data: Seq<u8>,
    pub children: Seq<NodeView>,
}

/// A directory.
#[derive(Debug)]
pub struct TreeNode {
    pub nid: i64,
    pub pid: String,
    pub git_id: hash::Hash,
    pub name: String,
    pub path: String,
    pub mode: Vec<u8>,
    pub children: Vec<Node>,
    pub data: Vec<u8>,
}

/// A file.
#[derive(Debug)]
pub struct FileNode {
    pub nid: i64,
    pub pid: String,
    pub git_id: hash::Hash,
    pub name: String,
    pub path: String,
    pub mode: Vec<u8>,
    pub data: Vec<u8>,
}

/// A node of the directory tree: a directory or a file.
#[derive(Debug)]
pub enum Node {
    Tree(TreeNode),
    File(FileNode),
}

/// The model of a node.
pub open spec fn node_view(node: Node) -> NodeView
    decreases node,
{
    match node {
        Node::File(f) => file_view(f),
        Node::Tree(t) => NodeView {
            dir: true,
            nid: t.nid,
            pid: t.pid@,
            git_id: t.git_id@,
            name: t.name@,
            path: t.path@,
            mode: t.mode@,
            data: t.data@,
            children: node_views(t.children@, t.children@.len() as int),
        },
    }
}

/// The model of a file.
pub open spec fn file_view(f: FileNode) -> NodeView {
    NodeView {
        dir: false,
        nid: f.nid,
        pid: f.pid@,
        git_id: f.git_id@,
        name: f.name@,
        path: f.path@,
        mode: f.mode@,
        data: f.data@,
        children: Seq::empty(),
    }
}

/// The models of the first `upto` of a sequence of nodes.
pub open spec fn node_views(nodes: Seq<Node>, upto: int) -> Seq<NodeView>
    decreases nodes, upto,
{
    if upto <= 0 || upto > nodes.len() {
        Seq::empty()
    } else {
        node_views(nodes, upto - 1).push(node_view(nodes[upto - 1]))
    }
}

/// The models of a sequence of nodes, one for each node, in order.
pub proof fn lemma_node_views(nodes: Seq<Node>, upto: int)
    requires
        0 <= upto <= nodes.len(),
    ensures
        node_views(nodes, upto).len() == upto,
        forall|i: int| 0 <= i < upto ==> (#[trigger] node_views(nodes, upto)[i]) == node_view(nodes[i]),
    decreases upto,
{
    if upto > 0 {
        lemma_node_views(nodes, upto - 1);
    }
}

/// The models of a sequence of nodes after one more was appended.
pub proof fn lemma_node_views_push(nodes: Seq<Node>, node: Node)
    ensures
        node_views(nodes.push(node), nodes.len() as int + 1) == node_views(
            nodes,
            nodes.len() as int,
        ).push(node_view(node)),
{
    let more = nodes.push(node);
    lemma_node_views(nodes, nodes.len() as int);
    lemma_node_views(more, more.len() as int);
    assert forall|i: int| 0 <= i < nodes.len() implies node_views(more, more.len() as int)[i]
        == node_views(nodes, nodes.len() as int)[i] by {
        assert(more[i] == nodes[i]);
    }
    assert(node_views(more, more.len() as int) =~= node_views(nodes, nodes.len() as int).push(
        node_view(node),
    ));
}

/// A record of a node as it is handed to the store: the id of the node, the
/// hash of its object in hexadecimal, "tree" or "blob", its name, its mode
/// and its data.
#[derive(Debug)]
pub struct NodeModel {
    pub node_id: i64,
    pub git_id: String,
    pub node_type: String,
    pub name: String,
    pub mode: Vec<u8>,
    pub data: Vec<u8>,
}

/// The model of a record.
pub struct ModelView {
    pub node_id: i64,
    pub git_id: Seq<char>,
    pub node_type: Seq<char>,
    pub name: Seq<char>,
    pub mode: Seq<u8>,
    pub data: Seq<u8>,
}

impl View for NodeModel {
    type V = ModelView;

    open spec fn view(&self) -> ModelView {
        ModelView {
            node_id: self.node_id,
            git_id: self.git_id@,
            node_type: self.node_type@,
            name: self.name@,
            mode: self.mode@,
            data: self.data@,
        }
    }
}

/// The models of a sequence of records.
pub open spec fn model_views(models: Seq<NodeModel>) -> Seq<ModelView> {
    Seq::new(models.len(), |i: int| models[i]@)
}

/// The record of a node.
pub open spec fn record_of(node: NodeView) -> ModelView {
    ModelView {
        node_id: node.nid,
        git_id: hex_of(node.git_id),
        node_type: if node.dir {
            "tree"@
        } else {
            "blob"@
        },
        name: node.name,
        mode: node.mode,
        data: node.data,
    }
}

/// The records of a node and of everything below it: the node first, then
/// its children in order, each with what is below it.
pub open spec fn records_of(node: NodeView) -> Seq<ModelView>
    decreases node,
{
    seq![record_of(node)] + records_of_all(node.children, node.children.len() as int)
}

/// The records of the first `upto` of a sequence of nodes.
pub open spec fn records_of_all(nodes: Seq<NodeView>, upto: int) -> Seq<ModelView>
    decreases nodes, upto,
{
    if upto <= 0 || upto > nodes.len() {
        Seq::empty()
    } else {
        records_of_all(nodes, upto - 1) + records_of(nodes[upto - 1])
    }
}

impl FileNode {
    pub fn get_id(&self) -> (nid: i64)
        ensures
            nid == self.nid,
    {
        self.nid
    }

    pub fn get_pid(&self) -> (pid: &str)
        ensures
            pid@ == self.pid@,
    {
        self.pid.as_str()
    }

    pub fn get_git_id(&self) -> (id: hash::Hash)
        ensures
            id == self.git_id,
    {
        self.git_id
    }

    pub fn get_name(&self) -> (name: &str)
        ensures
            name@ == self.name@,
    {
        self.name.as_str()
    }

    pub fn get_mode(&self) -> (mode: Vec<u8>)
        ensures
            mode@ == self.mode@,
    {
        self.mode.clone()
    }

    /// A file with the given name, parent and id, and nothing else.
    pub fn new(name: String, pid: String, nid: i64) -> (node: FileNode)
        ensures
            file_view(node) == (NodeView {
                dir: false,
                nid,
                pid: pid@,
                git_id: Seq::new(20, |i: int| 0u8),
                name: name@,
                path: Seq::<char>::empty(),
                mode: Seq::<u8>::empty(),
                data: Seq::<u8>::empty(),
                children: Seq::<NodeView>::empty(),
            }),
    {
        FileNode {
            nid,
            pid,
            path: String::new(),
            name,
            git_id: hash::Hash::zero(),
            mode: Vec::new(),
            data: Vec::new(),
        }
    }

    pub fn is_a_directory(&self) -> (dir: bool)
        ensures
            !dir,
    {
        false
    }

    /// The record of the file.
    pub fn convert_to_model(&self) -> (model: NodeModel)
        ensures
            model@ == record_of(file_view(*self)),
    {
        NodeModel {
            node_id: self.nid,
            git_id: self.git_id.to_plain_str(),
            node_type: "blob".to_owned(),
            name: self.name.clone(),
            mode: self.mode.clone(),
            data: self.data.clone(),
        }
    }
}

impl TreeNode {
    pub fn get_id(&self) -> (nid: i64)
        ensures
            nid == self.nid,
    {
        self.nid
    }

    pub fn get_pid(&self) -> (pid: &str)
        ensures
            pid@ == self.pid@,
    {
        self.pid.as_str()
    }

    pub fn get_git_id(&self) -> (id: hash::Hash)
        ensures
            id == self.git_id,
    {
        self.git_id
    }

    pub fn get_name(&self) -> (name: &str)
        ensures
            name@ == self.name@,
    {
        self.name.as_str()
    }

    pub fn get_mode(&self) -> (mode: Vec<u8>)
        ensures
            mode@ == self.mode@,
    {
        self.mode.clone()
    }

    pub fn get_children(&self) -> (children: &Vec<Node>)
        ensures
            children@ == self.children@,
    {
        &self.children
    }

    /// A directory with the given name, parent and id, and nothing in it.
    pub fn new(name: String, pid: String, nid: i64) -> (node: TreeNode)
        ensures
            node_view(Node::Tree(node)) == (NodeView {
                dir: true,
                nid,
                pid: pid@,
                git_id: Seq::new(20, |i: int| 0u8),
                name: name@,
                path: Seq::<char>::empty(),
                mode: Seq::<u8>::empty(),
                data: Seq::<u8>::empty(),
                children: Seq::<NodeView>::empty(),
            }),
    {
        TreeNode {
            nid,
            pid,
            name,
            path: String::new(),
            mode: Vec::new(),
            git_id: hash::Hash::zero(),
            children: Vec::new(),
            data: Vec::new(),
        }
    }

    /// The root of a directory tree: it has no name and no parent, and its
    /// path is "/".
    pub fn get_root_from_nid(nid: i64) -> (node: Node)
        ensures
            node_view(node) == (NodeView {
                dir: true,
                nid,
                pid: Seq::<char>::empty(),
                git_id: Seq::new(20, |i: int| 0u8),
                name: Seq::<char>::empty(),
                path: "/"@,
                mode: Seq::<u8>::empty(),
                data: Seq::<u8>::empty(),
                children: Seq::<NodeView>::empty(),
            }),
    {
        Node::Tree(
            TreeNode {
                nid,
                pid: String::new(),
                git_id: hash::Hash::zero(),
                name: String::new(),
                path: "/".to_owned(),
                mode: Vec::new(),
                children: Vec::new(),
                data: Vec::new(),
            },
        )
    }

    /// The position of the first child with the given name, if there is one.
    pub fn find_child(&self, name: &str) -> (r: Option<usize>)
        ensures
            match r {
                Some(i) => i < self.children@.len() && node_view(self.children@[i as int]).name
                    == name@ && forall|k: int|
                    0 <= k < i ==> node_view(#[trigger] self.children@[k]).name != name@,
                None => forall|k: int|
                    0 <= k < self.children@.len() ==> node_view(#[trigger] self.children@[k]).name
                        != name@,
            },
    {
        let wanted = name.to_owned();
        let mut i: usize = 0;
        while i < self.children.len()
            invariant
                i <= self.children@.len(),
                wanted@ == name@,
                forall|k: int| 0 <= k < i ==> node_view(#[trigger] self.children@[k]).name != name@,
            decreases self.children@.len() - i,
        {
            let same = match &self.children[i] {
                Node::Tree(t) => t.name == wanted,
                Node::File(f) => f.name == wanted,
            };
            if same {
                return Some(i);
            }
            i += 1;
        }
        None
    }

    /// Appends a child.
    pub fn add_child(&mut self, child: Node)
        ensures
            final(self).children@ == old(self).children@.push(child),
            node_view(Node::Tree(*final(self))).children == node_view(
                Node::Tree(*old(self)),
            ).children.push(node_view(child)),
            final(self).nid == old(self).nid,
            final(self).pid == old(self).pid,
            final(self).git_id == old(self).git_id,
            final(self).name == old(self).name,
            final(self).path == old(self).path,
            final(self).mode == old(self).mode,
            final(self).data == old(self).data,
    {
        proof {
            lemma_node_views_push(self.children@, child);
        }
        self.children.push(child);
    }

    pub fn is_a_directory(&self) -> (dir: bool)
        ensures
            dir,
    {
        true
    }

    /// The record of the directory itself, without what is below it.
    pub fn convert_to_model(&self) -> (model: NodeModel)
        ensures
            model@ == record_of(node_view(Node::Tree(*self))),
    {
        NodeModel {
            node_id: self.nid,
            git_id: self.git_id.to_plain_str(),
            node_type: "tree".to_owned(),
            name: self.name.clone(),
            mode: self.mode.clone(),
            data: self.data.clone(),
        }
    }
}

impl Node {
    pub fn get_id(&self) -> (nid: i64)
        ensures
            nid == node_view(*self).nid,
    {
        match self {
            Node::Tree(t) => t.nid,
            Node::File(f) => f.nid,
        }
    }

    pub fn get_pid(&self) -> (pid: &str)
        ensures
            pid@ == node_view(*self).pid,
    {
        match self {
            Node::Tree(t) => t.pid.as_str(),
            Node::File(f) => f.pid.as_str(),
        }
    }

    pub fn get_git_id(&self) -> (id: hash::Hash)
        ensures
            id@ == node_view(*self).git_id,
    {
        match self {
            Node::Tree(t) => t.git_id,
            Node::File(f) => f.git_id,
        }
    }

    pub fn get_name(&self) -> (name: &str)
        ensures
            name@ == node_view(*self).name,
    {
        match self {
            Node::Tree(t) => t.name.as_str(),
            Node::File(f) => f.name.as_str(),
        }
    }

    pub fn get_mode(&self) -> (mode: Vec<u8>)
        ensures
            mode@ == node_view(*self).mode,
    {
        match self {
            Node::Tree(t) => t.mode.clone(),
            Node::File(f) => f.mode.clone(),
        }
    }

    pub fn is_a_directory(&self) -> (dir: bool)
        ensures
            dir == node_view(*self).dir,
    {
        match self {
            Node::Tree(_) => true,
            Node::File(_) => false,
        }
    }

    /// The children of a directory. A file has none to ask for.
    pub fn get_children(&self) -> (children: &Vec<Node>)
        requires
            self is Tree,
        ensures
            children@ == self->Tree_0.children@,
    {
        match self {
            Node::Tree(t) => &t.children,
            Node::File(_) => vstd::pervasive::unreached(),
        }
    }

    /// The record of the node itself, without what is below it.
    pub fn convert_to_model(&self) -> (model: NodeModel)
        ensures
            model@ == record_of(node_view(*self)),
    {
        match self {
            Node::Tree(t) => t.convert_to_model(),
            Node::File(f) => f.convert_to_model(),
        }
    }
}

/// What the builder works with: the trees and the blobs that it may look up
/// by hash, and the hashes of the trees that it has built already.
pub struct Repo {
    pub tree_map: Vec<Tree>,
    pub blob_map: Vec<Blob>,
    pub tree_build_cache: Vec<hash::Hash>,
}

/// The hashes of a sequence of trees.
pub open spec fn tree_ids(trees: Seq<TreeView>) -> Seq<Seq<u8>> {
    Seq::new(trees.len(), |i: int| trees[i].meta.id)
}

/// The hashes of a sequence of blobs.
pub open spec fn blob_ids(blobs: Seq<BlobView>) -> Seq<Seq<u8>> {
    Seq::new(blobs.len(), |i: int| blobs[i].meta.id)
}

/// The position of the tree with hash `id`: the latest one, where several
/// have that hash.
pub open spec fn tree_with(trees: Seq<TreeView>, id: Seq<u8>) -> Option<int> {
    if latest_index(tree_ids(trees), id) >= 0 {
        Some(latest_index(tree_ids(trees), id))
    } else {
        None
    }
}

/// The position of the blob with hash `id`: the latest one, where several
/// have that hash.
pub open spec fn blob_with(blobs: Seq<BlobView>, id: Seq<u8>) -> Option<int> {
    if latest_index(blob_ids(blobs), id) >= 0 {
        Some(latest_index(blob_ids(blobs), id))
    } else {
        None
    }
}

/// What a build starts from: the hashes of the trees that have been built,
/// and the generator of node ids.
pub struct BuildState {
    pub built: Seq<Seq<u8>>,
    pub ids: IdGenerator,
}

/// What building some nodes came to: the hashes of the trees that were built
/// on the way, the generator as it is left, and the nodes or the error that
/// stopped the building.
pub struct Made {
    pub built: Seq<Seq<u8>>,
    pub ids: IdGenerator,
    pub result: Result<Seq<NodeView>, ErrorView>,
}

impl BuildState {
    /// The state after some nodes were built: the trees that were built on
    /// the way are remembered behind those that had been built before.
    pub open spec fn following(self, made: Made) -> BuildState {
        BuildState { built: self.built + made.built, ids: made.ids }
    }

    /// Building that stops at once with the error `e`.
    pub open spec fn stop(self, e: ErrorView) -> Made {
        Made { built: Seq::empty(), ids: self.ids, result: Err(e) }
    }
}

/// How many more trees can be built before every tree has been built once.
pub open spec fn room(trees: nat, built: nat) -> nat {
    if built >= trees {
        0
    } else {
        (trees - built) as nat
    }
}

/// The path of a child: the path of its parent and its name, and a slash
/// behind the name of a directory.
pub open spec fn child_path(parent_path: Seq<char>, name: Seq<char>, dir: bool) -> Seq<char> {
    if dir {
        parent_path + name + seq!['/']
    } else {
        parent_path + name
    }
}

/// The node of an entry of a tree, its fields taken from the entry.
pub open spec fn entry_node(
    item: TreeItemView,
    dir: bool,
    nid: i64,
    parent_nid: i64,
    parent_path: Seq<char>,
    data: Seq<u8>,
    children: Seq<NodeView>,
) -> NodeView {
    NodeView {
        dir,
        nid,
        pid: int_text(parent_nid as int),
        git_id: item.id,
        name: item.filename,
        path: child_path(parent_path, item.filename, dir),
        mode: item.mode,
        data,
        children,
    }
}

/// The nodes that one entry of a tree gives: a file for a blob; for a tree
/// that has not been built yet a directory with the nodes of its own entries;
/// nothing for a tree that has been built. The object that the entry names
/// must be known, and a new node takes the next id. A tree is remembered as
/// built before its entries are built, and no more trees are built than are
/// known, so that trees which name one another cannot go on for ever.
pub open spec fn item_node(
    trees: Seq<TreeView>,
    blobs: Seq<BlobView>,
    state: BuildState,
    item: TreeItemView,
    parent_nid: i64,
    parent_path: Seq<char>,
    now: u64,
) -> Made
    decreases room(trees.len(), state.built.len()), 0nat,
{
    match item.item_type {
        TreeItemType::Blob => match blob_with(blobs, item.id) {
            None => state.stop(ErrorView::MissingBaseObject(item.id)),
            Some(at) => match state.ids.next(now) {
                None => state.stop(ErrorView::IdSpaceExhausted),
                Some(nid) => Made {
                    built: Seq::empty(),
                    ids: state.ids.after(now),
                    result: Ok(
                        seq![
                            entry_node(
                                item,
                                false,
                                nid,
                                parent_nid,
                                parent_path,
                                blobs[at].data,
                                Seq::empty(),
                            ),
                        ],
                    ),
                },
            },
        },
        TreeItemType::Tree => if state.built.contains(item.id) {
            Made { built: Seq::empty(), ids: state.ids, result: Ok(Seq::empty()) }
        } else {
            match tree_with(trees, item.id) {
                None => state.stop(ErrorView::MissingBaseObject(item.id)),
                Some(at) => if state.built.len() >= trees.len() {
                    state.stop(ErrorView::CorruptObject)
                } else {
                    match state.ids.next(now) {
                        None => state.stop(ErrorView::IdSpaceExhausted),
                        Some(nid) => {
                            let inner = item_nodes(
                                trees,
                                blobs,
                                BuildState {
                                    built: state.built.push(item.id),
                                    ids: state.ids.after(now),
                                },
                                trees[at].tree_items,
                                0,
                                nid,
                                child_path(parent_path, item.filename, true),
                                now,
                            );
                            Made {
                                built: seq![item.id] + inner.built,
                                ids: inner.ids,
                                result: match inner.result {
                                    Err(e) => Err(e),
                                    Ok(children) => Ok(
                                        seq![
                                            entry_node(
                                                item,
                                                true,
                                                nid,
                                                parent_nid,
                                                parent_path,
                                                Seq::empty(),
                                                children,
                                            ),
                                        ],
                                    ),
                                },
                            }
                        },
                    }
                },
            }
        },
    }
}

/// The nodes that the entries of a tree give from entry `from` on, in the
/// order of the entries.
pub open spec fn item_nodes(
    trees: Seq<TreeView>,
    blobs: Seq<BlobView>,
    state: BuildState,
    items: Seq<TreeItemView>,
    from: int,
    parent_nid: i64,
    parent_path: Seq<char>,
    now: u64,
) -> Made
    decreases room(trees.len(), state.built.len()), items.len() - from + 1,
{
    if from < 0 || from >= items.len() {
        Made { built: Seq::empty(), ids: state.ids, result: Ok(Seq::empty()) }
    } else {
        let first = item_node(trees, blobs, state, items[from], parent_nid, parent_path, now);
        match first.result {
            Err(e) => first,
            Ok(nodes) => {
                let rest = item_nodes(
                    trees,
                    blobs,
                    state.following(first),
                    items,
                    from + 1,
                    parent_nid,
                    parent_path,
                    now,
                );
                Made {
                    built: first.built + rest.built,
                    ids: rest.ids,
                    result: match rest.result {
                        Err(e) => Err(e),
                        Ok(more) => Ok(nodes + more),
                    },
                }
            },
        }
    }
}

/// The state of a build, by the list of built trees and the generator.
pub open spec fn state_of(built: Seq<hash::Hash>, ids: IdGenerator) -> BuildState {
    BuildState { built: hash_views(built), ids }
}

/// The trees and blobs that the builder may look up, with the lists of
/// their hashes.
struct Lookup<'a> {
    trees: &'a Vec<Tree>,
    blobs: &'a Vec<Blob>,
    tree_index: HashIndex,
    blob_index: HashIndex,
}

impl<'a> Lookup<'a> {
    /// Whether the lists of hashes are those of the trees and blobs.
    spec fn wf(self) -> bool {
        self.tree_index@ == tree_ids(tree_views(self.trees@)) && self.blob_index@ == blob_ids(
            blob_views(self.blobs@),
        )
    }

    /// The trees and blobs with the lists of their hashes.
    fn new(trees: &'a Vec<Tree>, blobs: &'a Vec<Blob>) -> (look: Lookup<'a>)
        ensures
            look.wf(),
            look.trees == trees,
            look.blobs == blobs,
    {
        let mut tree_index = HashIndex::new();
        let mut i: usize = 0;
        proof {
            assert(tree_index@ =~= tree_ids(tree_views(trees@)).take(0));
        }
        while i < trees.len()
            invariant
                i <= trees@.len(),
                tree_index@ == tree_ids(tree_views(trees@)).take(i as int),
            decreases trees@.len() - i,
        {
            tree_index.push(trees[i].meta.id);
            proof {
                assert(tree_index@ =~= tree_ids(tree_views(trees@)).take(i + 1));
            }
            i += 1;
        }
        let mut blob_index = HashIndex::new();
        let mut j: usize = 0;
        proof {
            assert(tree_ids(tree_views(trees@)).take(i as int) =~= tree_ids(tree_views(trees@)));
            assert(blob_index@ =~= blob_ids(blob_views(blobs@)).take(0));
        }
        while j < blobs.len()
            invariant
                j <= blobs@.len(),
                blob_index@ == blob_ids(blob_views(blobs@)).take(j as int),
            decreases blobs@.len() - j,
        {
            blob_index.push(blobs[j].meta.id);
            proof {
                assert(blob_index@ =~= blob_ids(blob_views(blobs@)).take(j + 1));
            }
            j += 1;
        }
        proof {
            assert(blob_ids(blob_views(blobs@)).take(j as int) =~= blob_ids(blob_views(blobs@)));
        }
        Lookup { trees, blobs, tree_index, blob_index }
    }

    /// The position of the tree with hash `id`.
    fn find_tree(&self, id: &hash::Hash) -> (r: Option<usize>)
        requires
            self.wf(),
        ensures
            match r {
                Some(i) => i < self.trees@.len() && tree_with(tree_views(self.trees@), id@) == Some(
                    i as int,
                ),
                None => tree_with(tree_views(self.trees@), id@) is None,
            },
    {
        proof {
            lemma_latest_index(self.tree_index@, id@);
        }
        self.tree_index.find(id)
    }

    /// The position of the blob with hash `id`.
    fn find_blob(&self, id: &hash::Hash) -> (r: Option<usize>)
        requires
            self.wf(),
        ensures
            match r {
                Some(i) => i < self.blobs@.len() && blob_with(blob_views(self.blobs@), id@) == Some(
                    i as int,
                ),
                None => blob_with(blob_views(self.blobs@), id@) is None,
            },
    {
        proof {
            lemma_latest_index(self.blob_index@, id@);
        }
        self.blob_index.find(id)
    }
}

/// The list of the hashes of the trees that have been built.
fn index_of_built(built: &Vec<hash::Hash>) -> (index: HashIndex)
    ensures
        index@ == hash_views(built@),
{
    let mut index = HashIndex::new();
    let mut i: usize = 0;
    proof {
        assert(index@ =~= hash_views(built@).take(0));
    }
    while i < built.len()
        invariant
            i <= built@.len(),
            index@ == hash_views(built@).take(i as int),
        decreases built@.len() - i,
    {
        index.push(built[i]);
        proof {
            assert(index@ =~= hash_views(built@).take(i + 1));
        }
        i += 1;
    }
    proof {
        assert(hash_views(built@).take(i as int) =~= hash_views(built@));
    }
    index
}

/// Whether the tree with hash `id` has been built.
fn is_built(built_index: &HashIndex, id: &hash::Hash) -> (r: bool)
    ensures
        r == built_index@.contains(id@),
{
    proof {
        lemma_latest_index(built_index@, id@);
        if built_index@.contains(id@) {
            let k = choose|k: int| 0 <= k < built_index@.len() && built_index@[k] == id@;
            assert(k <= latest_index(built_index@, id@));
        }
    }
    built_index.find(id).is_some()
}

/// The path of a child of the directory at `parent_path`.
fn path_of_child(parent_path: &str, name: &str, dir: bool) -> (path: String)
    ensures
        path@ == child_path(parent_path@, name@, dir),
{
    let mut path = parent_path.to_owned();
    path.append(name);
    if dir {
        proof {
            reveal_strlit("/");
            assert("/"@ =~= seq!['/']);
        }
        path.append("/");
    }
    path
}

/// The nodes that an entry of a tree gave: one, or none.
spec fn given(node: Option<Node>) -> Seq<NodeView> {
    match node {
        Some(n) => seq![node_view(n)],
        None => Seq::empty(),
    }
}

/// Builds the node that one entry of a tree gives, if it gives one.
fn build_item(
    look: &Lookup,
    built: &mut Vec<hash::Hash>,
    built_index: &mut HashIndex,
    ids: &mut IdGenerator,
    item: &TreeItem,
    parent_nid: i64,
    parent_path: &str,
    now: u64,
) -> (r: Result<Option<Node>, GitError>)
    requires
        look.wf(),
        old(built_index)@ == hash_views(old(built)@),
    ensures
        final(built_index)@ == hash_views(final(built)@),
        state_of(final(built)@, *final(ids)) == state_of(old(built)@, *old(ids)).following(
            item_node(
                tree_views(look.trees@),
                blob_views(look.blobs@),
                state_of(old(built)@, *old(ids)),
                item@,
                parent_nid,
                parent_path@,
                now,
            ),
        ),
        match r {
            Ok(node) => item_node(
                tree_views(look.trees@),
                blob_views(look.blobs@),
                state_of(old(built)@, *old(ids)),
                item@,
                parent_nid,
                parent_path@,
                now,
            ).result == Ok::<_, ErrorView>(given(node)),
            Err(e) => item_node(
                tree_views(look.trees@),
                blob_views(look.blobs@),
                state_of(old(built)@, *old(ids)),
                item@,
                parent_nid,
                parent_path@,
                now,
            ).result == Err::<Seq<NodeView>, _>(e@),
        },
    decreases room(look.trees@.len(), old(built)@.len()), 0nat,
{
    let ghost start = hash_views(built@);
    proof {
        assert(start + Seq::<Seq<u8>>::empty() =~= start);
    }
    match item.item_type {
        TreeItemType::Blob => {
            let at = match look.find_blob(&item.id) {
                Some(at) => at,
                None => {
                    return Err(GitError::MissingBaseObject(item.id));
                },
            };
            let nid = match ids.next_id(now) {
                Some(nid) => nid,
                None => {
                    return Err(GitError::IdSpaceExhausted);
                },
            };
            Ok(
                Some(
                    Node::File(
                        FileNode {
                            nid,
                            pid: id_text(parent_nid),
                            git_id: item.id,
                            name: item.filename.clone(),
                            path: path_of_child(parent_path, item.filename.as_str(), false),
                            mode: item.mode.clone(),
                            data: look.blobs[at].data.clone(),
                        },
                    ),
                ),
            )
        },
        TreeItemType::Tree => {
            if is_built(built_index, &item.id) {
                return Ok(None);
            }
            let at = match look.find_tree(&item.id) {
                Some(at) => at,
                None => {
                    return Err(GitError::MissingBaseObject(item.id));
                },
            };
            if built.len() >= look.trees.len() {
                return Err(GitError::CorruptObject);
            }
            let nid = match ids.next_id(now) {
                Some(nid) => nid,
                None => {
                    return Err(GitError::IdSpaceExhausted);
                },
            };
            built.push(item.id);
            built_index.push(item.id);
            proof {
                assert(hash_views(built@) =~= start.push(item.id@));
            }
            let path = path_of_child(parent_path, item.filename.as_str(), true);
            let ghost inner = item_nodes(
                tree_views(look.trees@),
                blob_views(look.blobs@),
                state_of(built@, *ids),
                tree_item_views(look.trees@[at as int].tree_items@),
                0,
                nid,
                path@,
                now,
            );
            proof {
                assert(start.push(item.id@) + inner.built =~= start + (seq![item.id@]
                    + inner.built));
            }
            let children = match build_items(
                look,
                built,
                built_index,
                ids,
                &look.trees[at].tree_items,
                nid,
                path.as_str(),
                now,
            ) {
                Ok(children) => children,
                Err(e) => {
                    return Err(e);
                },
            };
            Ok(
                Some(
                    Node::Tree(
                        TreeNode {
                            nid,
                            pid: id_text(parent_nid),
                            git_id: item.id,
                            name: item.filename.clone(),
                            path,
                            mode: item.mode.clone(),
                            children,
                            data: Vec::new(),
                        },
                    ),
                ),
            )
        },
    }
}

/// Builds the nodes that the entries of a tree give, in the order of the
/// entries.
fn build_items(
    look: &Lookup,
    built: &mut Vec<hash::Hash>,
    built_index: &mut HashIndex,
    ids: &mut IdGenerator,
    items: &Vec<TreeItem>,
    parent_nid: i64,
    parent_path: &str,
    now: u64,
) -> (r: Result<Vec<Node>, GitError>)
    requires
        look.wf(),
        old(built_index)@ == hash_views(old(built)@),
    ensures
        final(built_index)@ == hash_views(final(built)@),
        state_of(final(built)@, *final(ids)) == state_of(old(built)@, *old(ids)).following(
            item_nodes(
                tree_views(look.trees@),
                blob_views(look.blobs@),
                state_of(old(built)@, *old(ids)),
                tree_item_views(items@),
                0,
                parent_nid,
                parent_path@,
                now,
            ),
        ),
        match r {
            Ok(nodes) => item_nodes(
                tree_views(look.trees@),
                blob_views(look.blobs@),
                state_of(old(built)@, *old(ids)),
                tree_item_views(items@),
                0,
                parent_nid,
                parent_path@,
                now,
            ).result == Ok::<_, ErrorView>(node_views(nodes@, nodes@.len() as int)),
            Err(e) => item_nodes(
                tree_views(look.trees@),
                blob_views(look.blobs@),
                state_of(old(built)@, *old(ids)),
                tree_item_views(items@),
                0,
                parent_nid,
                parent_path@,
                now,
            ).result == Err::<Seq<NodeView>, _>(e@),
        },
    decreases room(look.trees@.len(), old(built)@.len()), items@.len() + 1,
{
    let ghost tv = tree_views(look.trees@);
    let ghost bv = blob_views(look.blobs@);
    let ghost iv = tree_item_views(items@);
    let ghost start = state_of(built@, *ids);
    let ghost whole = item_nodes(tv, bv, start, iv, 0, parent_nid, parent_path@, now);
    let mut nodes: Vec<Node> = Vec::new();
    let mut k: usize = 0;
    proof {
        match whole.result {
            Ok(more) => {
                assert(node_views(nodes@, 0) + more =~= more);
            },
            Err(_) => {},
        }
    }
    while k < items.len()
        invariant
            k <= items@.len(),
            look.wf(),
            built_index@ == hash_views(built@),
            tv == tree_views(look.trees@),
            bv == blob_views(look.blobs@),
            iv == tree_item_views(items@),
            start == state_of(old(built)@, *old(ids)),
            built@.len() >= old(built)@.len(),
            whole == item_nodes(tv, bv, start, iv, 0, parent_nid, parent_path@, now),
            start.following(whole) == state_of(built@, *ids).following(
                item_nodes(
                    tv,
                    bv,
                    state_of(built@, *ids),
                    iv,
                    k as int,
                    parent_nid,
                    parent_path@,
                    now,
                ),
            ),
            match item_nodes(
                tv,
                bv,
                state_of(built@, *ids),
                iv,
                k as int,
                parent_nid,
                parent_path@,
                now,
            ).result {
                Ok(more) => whole.result == Ok::<_, ErrorView>(
                    node_views(nodes@, nodes@.len() as int) + more,
                ),
                Err(e) => whole.result == Err::<Seq<NodeView>, _>(e),
            },
        decreases items@.len() - k,
    {
        let ghost here = state_of(built@, *ids);
        let ghost so_far = node_views(nodes@, nodes@.len() as int);
        let ghost first = item_node(tv, bv, here, iv[k as int], parent_nid, parent_path@, now);
        let made = match build_item(
            look,
            built,
            built_index,
            ids,
            &items[k],
            parent_nid,
            parent_path,
            now,
        ) {
            Ok(made) => made,
            Err(e) => {
                return Err(e);
            },
        };
        proof {
            let rest = item_nodes(
                tv,
                bv,
                state_of(built@, *ids),
                iv,
                k + 1,
                parent_nid,
                parent_path@,
                now,
            );
            assert(state_of(built@, *ids) == here.following(first));
            assert(here.built + (first.built + rest.built) =~= (here.built + first.built)
                + rest.built);
            match rest.result {
                Ok(more) => {
                    assert(so_far + (given(made) + more) =~= (so_far + given(made)) + more);
                },
                Err(_) => {},
            }
        }
        match made {
            Some(node) => {
                proof {
                    lemma_node_views_push(nodes@, node);
                    assert(so_far + given(made) =~= so_far.push(node_view(node)));
                }
                nodes.push(node);
            },
            None => {
                proof {
                    assert(so_far + given(made) =~= so_far);
                }
            },
        }
        k += 1;
    }
    proof {
        assert(node_views(nodes@, nodes@.len() as int) + Seq::<NodeView>::empty() =~= node_views(
            nodes@,
            nodes@.len() as int,
        ));
        assert(hash_views(built@) + Seq::<Seq<u8>>::empty() =~= hash_views(built@));
    }
    Ok(nodes)
}

/// The models of two lists of nodes, one behind the other.
proof fn lemma_node_views_append(one: Seq<Node>, other: Seq<Node>)
    ensures
        node_views(one + other, (one.len() + other.len()) as int) == node_views(one, one.len() as int)
            + node_views(other, other.len() as int),
{
    let both = one + other;
    lemma_node_views(one, one.len() as int);
    lemma_node_views(other, other.len() as int);
    lemma_node_views(both, both.len() as int);
    assert forall|i: int| 0 <= i < both.len() implies node_views(both, both.len() as int)[i] == (
    node_views(one, one.len() as int) + node_views(other, other.len() as int))[i] by {
        if i < one.len() {
            assert(both[i] == one[i]);
        } else {
            assert(both[i] == other[i - one.len()]);
        }
    }
    assert(node_views(both, both.len() as int) =~= node_views(one, one.len() as int) + node_views(
        other,
        other.len() as int,
    ));
}

/// Appends the records of a node and of everything below it.
#[verifier::loop_isolation(false)]
fn push_records(node: &Node, out: &mut Vec<NodeModel>)
    ensures
        model_views(final(out)@) == model_views(old(out)@) + records_of(node_view(*node)),
    decreases node,
{
    let ghost start = model_views(out@);
    match node {
        Node::File(f) => {
            out.push(f.convert_to_model());
            proof {
                assert(records_of_all(Seq::<NodeView>::empty(), 0) =~= Seq::<ModelView>::empty());
                assert(model_views(out@) =~= start + records_of(node_view(*node)));
            }
        },
        Node::Tree(t) => {
            out.push(t.convert_to_model());
            let ghost views = node_view(*node).children;
            proof {
                lemma_node_views(t.children@, t.children@.len() as int);
                assert(model_views(out@) =~= start + seq![record_of(node_view(*node))]
                    + records_of_all(views, 0));
            }
            let mut i: usize = 0;
            while i < t.children.len()
                invariant
                    i <= t.children@.len(),
                    model_views(out@) == start + seq![record_of(node_view(*node))]
                        + records_of_all(views, i as int),
                decreases t.children@.len() - i,
            {
                proof {
                    vstd::std_specs::vec::axiom_vec_index_decreases(t.children, i as int);
                }
                let ghost before = model_views(out@);
                push_records(&t.children[i], out);
                proof {
                    assert(views[i as int] == node_view(t.children@[i as int]));
                    assert(model_views(out@) =~= start + seq![record_of(node_view(*node))]
                        + records_of_all(views, i + 1));
                }
                i += 1;
            }
            proof {
                assert(model_views(out@) =~= start + records_of(node_view(*node)));
            }
        },
    }
}

/// What building the directory trees of some commits came to: the hashes of
/// the trees that were built on the way, the generator as it is left, and the
/// records or the error that stopped the building.
pub struct Records {
    pub built: Seq<Seq<u8>>,
    pub ids: IdGenerator,
    pub result: Result<Seq<ModelView>, ErrorView>,
}

/// The records of the directory trees of the commits from commit `from` on:
/// for every commit a root directory without name and parent, with the nodes
/// of the entries of the commit's root tree below it.
pub open spec fn commit_records(
    trees: Seq<TreeView>,
    blobs: Seq<BlobView>,
    state: BuildState,
    commits: Seq<CommitView>,
    from: int,
    now: u64,
) -> Records
    decreases commits.len() - from,
{
    if from < 0 || from >= commits.len() {
        Records { built: Seq::empty(), ids: state.ids, result: Ok(Seq::empty()) }
    } else {
        match tree_with(trees, commits[from].tree_id) {
            None => Records {
                built: Seq::empty(),
                ids: state.ids,
                result: Err(ErrorView::MissingBaseObject(commits[from].tree_id)),
            },
            Some(at) => match state.ids.next(now) {
                None => Records {
                    built: Seq::empty(),
                    ids: state.ids,
                    result: Err(ErrorView::IdSpaceExhausted),
                },
                Some(nid) => {
                    let inner = item_nodes(
                        trees,
                        blobs,
                        BuildState { built: state.built, ids: state.ids.after(now) },
                        trees[at].tree_items,
                        0,
                        nid,
                        "/"@,
                        now,
                    );
                    match inner.result {
                        Err(e) => Records { built: inner.built, ids: inner.ids, result: Err(e) },
                        Ok(children) => {
                            let rest = commit_records(
                                trees,
                                blobs,
                                state.following(inner),
                                commits,
                                from + 1,
                                now,
                            );
                            Records {
                                built: inner.built + rest.built,
                                ids: rest.ids,
                                result: match rest.result {
                                    Err(e) => Err(e),
                                    Ok(more) => Ok(
                                        records_of(root_node(nid, trees[at].meta.id, children))
                                            + more,
                                    ),
                                },
                            }
                        },
                    }
                },
            },
        }
    }
}

/// The root directory of a commit.
pub open spec fn root_node(nid: i64, git_id: Seq<u8>, children: Seq<NodeView>) -> NodeView {
    NodeView {
        dir: true,
        nid,
        pid: Seq::empty(),
        git_id,
        name: Seq::empty(),
        path: "/"@,
        mode: Seq::empty(),
        data: Seq::empty(),
        children,
    }
}

impl Repo {
    /// Builds the nodes of the entries of `tree` and appends them to the
    /// children of `node`. Trees that have been built before give no node;
    /// the trees that are built are remembered. Where the building fails,
    /// `node` is left as it was.
    pub fn build_node_tree(
        &mut self,
        tree: &Tree,
        node: &mut TreeNode,
        ids: &mut IdGenerator,
        now: u64,
    ) -> (r: Result<(), GitError>)
        ensures
            final(self).tree_map == old(self).tree_map,
            final(self).blob_map == old(self).blob_map,
            state_of(final(self).tree_build_cache@, *final(ids)) == state_of(
                old(self).tree_build_cache@,
                *old(ids),
            ).following(
                item_nodes(
                    tree_views(old(self).tree_map@),
                    blob_views(old(self).blob_map@),
                    state_of(old(self).tree_build_cache@, *old(ids)),
                    tree@.tree_items,
                    0,
                    old(node).nid,
                    old(node).path@,
                    now,
                ),
            ),
            match r {
                Ok(()) => item_nodes(
                    tree_views(old(self).tree_map@),
                    blob_views(old(self).blob_map@),
                    state_of(old(self).tree_build_cache@, *old(ids)),
                    tree@.tree_items,
                    0,
                    old(node).nid,
                    old(node).path@,
                    now,
                ).result matches Ok(added) && node_view(Node::Tree(*final(node))) == (NodeView {
                    children: node_view(Node::Tree(*old(node))).children + added,
                    ..node_view(Node::Tree(*old(node)))
                }),
                Err(e) => item_nodes(
                    tree_views(old(self).tree_map@),
                    blob_views(old(self).blob_map@),
                    state_of(old(self).tree_build_cache@, *old(ids)),
                    tree@.tree_items,
                    0,
                    old(node).nid,
                    old(node).path@,
                    now,
                ).result == Err::<Seq<NodeView>, _>(e@) && *final(node) == *old(node),
            },
    {
        let nid = node.nid;
        let look = Lookup::new(&self.tree_map, &self.blob_map);
        let mut built_index = index_of_built(&self.tree_build_cache);
        let mut made = match build_items(
            &look,
            &mut self.tree_build_cache,
            &mut built_index,
            ids,
            &tree.tree_items,
            nid,
            node.path.as_str(),
            now,
        ) {
            Ok(made) => made,
            Err(e) => {
                return Err(e);
            },
        };
        proof {
            lemma_node_views_append(node.children@, made@);
        }
        node.children.append(&mut made);
        Ok(())
    }

    /// The records of a node and of everything below it: the node first,
    /// then its children in order, each with what is below it.
    pub fn convert_node_to_model(&self, node: &Node) -> (models: Vec<NodeModel>)
        ensures
            model_views(models@) == records_of(node_view(*node)),
    {
        let mut models: Vec<NodeModel> = Vec::new();
        push_records(node, &mut models);
        proof {
            assert(model_views(Seq::<NodeModel>::empty()) + records_of(node_view(*node))
                =~= records_of(node_view(*node)));
        }
        models
    }
}

/// Builds the directory trees of the commits of `result` and returns their
/// records, commit by commit. The trees and blobs are looked up among those
/// of `result`; a subtree that occurs a second time gives no nodes.
pub fn build_node_tree(result: ObjDecodedMap, ids: &mut IdGenerator, now: u64) -> (r: Result<
    Vec<NodeModel>,
    GitError,
>)
    ensures
        *final(ids) == commit_records(
            result@.trees,
            result@.blobs,
            state_of(Seq::empty(), *old(ids)),
            result@.commits,
            0,
            now,
        ).ids,
        match r {
            Ok(models) => commit_records(
                result@.trees,
                result@.blobs,
                state_of(Seq::empty(), *old(ids)),
                result@.commits,
                0,
                now,
            ).result == Ok::<_, ErrorView>(model_views(models@)),
            Err(e) => commit_records(
                result@.trees,
                result@.blobs,
                state_of(Seq::empty(), *old(ids)),
                result@.commits,
                0,
                now,
            ).result == Err::<Seq<ModelView>, _>(e@),
        },
{
    let ghost input = result@;
    let ObjDecodedMap { trees, blobs, commits, tags: _ } = result;
    let ghost tv = tree_views(trees@);
    let ghost bv = blob_views(blobs@);
    let ghost cv = commit_views(commits@);
    let ghost start = state_of(Seq::empty(), *ids);
    let ghost whole = commit_records(tv, bv, start, cv, 0, now);
    let look = Lookup::new(&trees, &blobs);
    let mut built: Vec<hash::Hash> = Vec::new();
    let mut built_index = HashIndex::new();
    let mut models: Vec<NodeModel> = Vec::new();
    let mut k: usize = 0;
    proof {
        assert(input.trees == tv && input.blobs == bv && input.commits == cv);
        assert(hash_views(built@) =~= Seq::<Seq<u8>>::empty());
        match whole.result {
            Ok(more) => {
                assert(model_views(models@) + more =~= more);
            },
            Err(_) => {},
        }
    }
    while k < commits.len()
        invariant
            k <= commits@.len(),
            look.wf(),
            look.trees == &trees,
            look.blobs == &blobs,
            built_index@ == hash_views(built@),
            tv == tree_views(trees@),
            bv == blob_views(blobs@),
            cv == commit_views(commits@),
            start == state_of(Seq::empty(), *old(ids)),
            whole == commit_records(tv, bv, start, cv, 0, now),
            input.trees == tv && input.blobs == bv && input.commits == cv,
            input == result@,
            whole.ids == commit_records(tv, bv, state_of(built@, *ids), cv, k as int, now).ids,
            match commit_records(tv, bv, state_of(built@, *ids), cv, k as int, now).result {
                Ok(more) => whole.result == Ok::<_, ErrorView>(model_views(models@) + more),
                Err(e) => whole.result == Err::<Seq<ModelView>, _>(e),
            },
        decreases commits@.len() - k,
    {
        let ghost so_far = model_views(models@);
        let ghost here = state_of(built@, *ids);
        proof {
            assert(cv[k as int] == commits@[k as int]@);
        }
        let at = match look.find_tree(&commits[k].tree_id) {
            Some(at) => at,
            None => {
                return Err(GitError::MissingBaseObject(commits[k].tree_id));
            },
        };
        let nid = match ids.next_id(now) {
            Some(nid) => nid,
            None => {
                return Err(GitError::IdSpaceExhausted);
            },
        };
        let children = match build_items(
            &look,
            &mut built,
            &mut built_index,
            ids,
            &trees[at].tree_items,
            nid,
            "/",
            now,
        ) {
            Ok(children) => children,
            Err(e) => {
                return Err(e);
            },
        };
        let root = Node::Tree(
            TreeNode {
                nid,
                pid: String::new(),
                git_id: trees[at].meta.id,
                name: String::new(),
                path: "/".to_owned(),
                mode: Vec::new(),
                children,
                data: Vec::new(),
            },
        );
        push_records(&root, &mut models);
        proof {
            let rest = commit_records(tv, bv, state_of(built@, *ids), cv, k + 1, now);
            match rest.result {
                Ok(more) => {
                    assert(so_far + (records_of(node_view(root)) + more) =~= (so_far + records_of(
                        node_view(root),
                    )) + more);
                },
                Err(_) => {},
            }
        }
        k += 1;
    }
    proof {
        assert(model_views(models@) + Seq::<ModelView>::empty() =~= model_views(models@));
    }
    Ok(models)
}

/// Whether the ids of `records` ascend strictly and lie above `low` and at
/// or below `high`.
pub open spec fn ascending_between(records: Seq<ModelView>, low: int, high: int) -> bool {
    &&& forall|i: int| 0 <= i < records.len() ==> low < (#[trigger] records[i]).node_id <= high
    &&& forall|i: int, j: int|
        0 <= i < j < records.len() ==> (#[trigger] records[i]).node_id < (
        #[trigger] records[j]).node_id
}

/// Records whose ids ascend, followed by records whose ids ascend above
/// them, have ids that ascend.
proof fn lemma_ascending_concat(
    one: Seq<ModelView>,
    other: Seq<ModelView>,
    low: int,
    mid: int,
    high: int,
)
    requires
        ascending_between(one, low, mid),
        ascending_between(other, mid, high),
        low <= mid <= high,
    ensures
        ascending_between(one + other, low, high),
{
    let both = one + other;
    assert forall|i: int| 0 <= i < both.len() implies low < (#[trigger] both[i]).node_id
        <= high by {
        if i < one.len() {
            assert(both[i] == one[i]);
        } else {
            assert(both[i] == other[i - one.len()]);
        }
    }
    assert forall|i: int, j: int| 0 <= i < j < both.len() implies (#[trigger] both[i]).node_id < (
    #[trigger] both[j]).node_id by {
        if j < one.len() {
            assert(both[i] == one[i] && both[j] == one[j]);
        } else if i >= one.len() {
            assert(both[i] == other[i - one.len()] && both[j] == other[j - one.len()]);
        } else {
            assert(both[i] == one[i] && both[j] == other[j - one.len()]);
        }
    }
}

/// The records of two lists of nodes, one behind the other.
proof fn lemma_records_of_all_concat(one: Seq<NodeView>, other: Seq<NodeView>, upto: int)
    requires
        0 <= upto <= other.len(),
    ensures
        records_of_all(one + other, one.len() + upto) == records_of_all(one, one.len() as int)
            + records_of_all(other, upto),
    decreases upto,
{
    let both = one + other;
    if upto == 0 {
        lemma_records_of_all_same(both, one, one.len() as int);
        assert(records_of_all(one, one.len() as int) + records_of_all(other, 0) =~= records_of_all(
            one,
            one.len() as int,
        ));
    } else {
        lemma_records_of_all_concat(one, other, upto - 1);
        assert(both[one.len() + upto - 1] == other[upto - 1]);
        assert(records_of_all(one, one.len() as int) + (records_of_all(other, upto - 1)
            + records_of(other[upto - 1])) =~= (records_of_all(one, one.len() as int)
            + records_of_all(other, upto - 1)) + records_of(other[upto - 1]));
    }
}

/// The records of the first nodes of a list depend on those nodes only.
proof fn lemma_records_of_all_same(one: Seq<NodeView>, other: Seq<NodeView>, upto: int)
    requires
        0 <= upto <= one.len(),
        upto <= other.len(),
        forall|i: int| 0 <= i < upto ==> one[i] == other[i],
    ensures
        records_of_all(one, upto) == records_of_all(other, upto),
    decreases upto,
{
    if upto > 0 {
        lemma_records_of_all_same(one, other, upto - 1);
    }
}

/// No node of a directory tree shares its id with another: the ids of the
/// records of the nodes that the entries of a tree give ascend in the order
/// of the records, above every id that the generator made before and up to
/// the last id that it made for them.
pub proof fn lemma_node_ids_ascend(
    trees: Seq<TreeView>,
    blobs: Seq<BlobView>,
    state: BuildState,
    items: Seq<TreeItemView>,
    from: int,
    parent_nid: i64,
    parent_path: Seq<char>,
    now: u64,
)
    requires
        state.ids.wf(),
    ensures
        ({
            let out = item_nodes(trees, blobs, state, items, from, parent_nid, parent_path, now);
            &&& out.ids.wf()
            &&& state.ids.last_id() <= out.ids.last_id()
            &&& out.result matches Ok(nodes) ==> ascending_between(
                records_of_all(nodes, nodes.len() as int),
                state.ids.last_id(),
                out.ids.last_id(),
            )
        }),
        0 <= from < items.len() ==> ({
            let one = item_node(trees, blobs, state, items[from], parent_nid, parent_path, now);
            &&& one.ids.wf()
            &&& state.ids.last_id() <= one.ids.last_id()
            &&& one.result matches Ok(nodes) ==> ascending_between(
                records_of_all(nodes, nodes.len() as int),
                state.ids.last_id(),
                one.ids.last_id(),
            )
        }),
    decreases room(trees.len(), state.built.len()), items.len() - from + 1,
{
    lemma_ids_ascend(state.ids, now);
    let low = state.ids.last_id();
    if 0 <= from < items.len() {
        let item = items[from];
        let one = item_node(trees, blobs, state, item, parent_nid, parent_path, now);
        // the node of the entry itself
        match item.item_type {
            TreeItemType::Blob => {
                if blob_with(blobs, item.id) is Some && state.ids.next(now) is Some {
                    let nodes = one.result->Ok_0;
                    assert(records_of_all(nodes, 1) =~= seq![record_of(nodes[0])]) by {
                        assert(nodes.len() == 1);
                        assert(nodes[0].children.len() == 0);
                        assert(records_of_all(nodes, 0) =~= Seq::<ModelView>::empty());
                        assert(records_of_all(nodes[0].children, 0) =~= Seq::<ModelView>::empty());
                        assert(records_of(nodes[0]) == seq![record_of(nodes[0])] + records_of_all(
                            nodes[0].children,
                            0,
                        ));
                        assert(records_of_all(nodes, 1) == records_of_all(nodes, 0) + records_of(
                            nodes[0],
                        ));
                    }
                }
            },
            TreeItemType::Tree => {
                if !state.built.contains(item.id) && tree_with(trees, item.id) is Some
                    && state.built.len() < trees.len() && state.ids.next(now) is Some {
                    let at = tree_with(trees, item.id)->Some_0;
                    let nid = state.ids.next(now)->Some_0;
                    let inner_state = BuildState {
                        built: state.built.push(item.id),
                        ids: state.ids.after(now),
                    };
                    lemma_latest_index(tree_ids(trees), item.id);
                    lemma_node_ids_ascend(
                        trees,
                        blobs,
                        inner_state,
                        trees[at].tree_items,
                        0,
                        nid,
                        child_path(parent_path, item.filename, true),
                        now,
                    );
                    let inner = item_nodes(
                        trees,
                        blobs,
                        inner_state,
                        trees[at].tree_items,
                        0,
                        nid,
                        child_path(parent_path, item.filename, true),
                        now,
                    );
                    match inner.result {
                        Ok(children) => {
                            let nodes = one.result->Ok_0;
                            let below = records_of_all(children, children.len() as int);
                            assert(records_of_all(nodes, 1) =~= seq![record_of(nodes[0])] + below) by {
                                assert(nodes.len() == 1);
                                assert(nodes[0].children == children);
                                assert(records_of_all(nodes, 0) =~= Seq::<ModelView>::empty());
                                assert(records_of(nodes[0]) == seq![record_of(nodes[0])] + below);
                                assert(records_of_all(nodes, 1) == records_of_all(nodes, 0)
                                    + records_of(nodes[0]));
                            }
                            assert(ascending_between(seq![record_of(nodes[0])], low, nid as int));
                            lemma_ascending_concat(
                                seq![record_of(nodes[0])],
                                below,
                                low,
                                nid as int,
                                inner.ids.last_id(),
                            );
                        },
                        Err(_) => {},
                    }
                } else if state.built.contains(item.id) {
                    assert(records_of_all(Seq::<NodeView>::empty(), 0) =~= Seq::<ModelView>::empty());
                }
            },
        }
        // and the nodes of the entries that follow
        match one.result {
            Ok(nodes) => {
                lemma_node_ids_ascend(
                    trees,
                    blobs,
                    state.following(one),
                    items,
                    from + 1,
                    parent_nid,
                    parent_path,
                    now,
                );
                let rest = item_nodes(
                    trees,
                    blobs,
                    state.following(one),
                    items,
                    from + 1,
                    parent_nid,
                    parent_path,
                    now,
                );
                match rest.result {
                    Ok(more) => {
                        lemma_records_of_all_concat(nodes, more, more.len() as int);
                        lemma_ascending_concat(
                            records_of_all(nodes, nodes.len() as int),
                            records_of_all(more, more.len() as int),
                            low,
                            one.ids.last_id(),
                            rest.ids.last_id(),
                        );
                    },
                    Err(_) => {},
                }
            },
            Err(_) => {},
        }
    } else {
        assert(records_of_all(Seq::<NodeView>::empty(), 0) =~= Seq::<ModelView>::empty());
    }
}

} // verus!
