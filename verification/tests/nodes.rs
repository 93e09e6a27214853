use gitcore::errors::GitError;
use gitcore::git::hash;
use gitcore::git::object::base::blob::Blob;
use gitcore::git::object::base::commit::Commit;
use gitcore::git::object::base::tag::Tag;
use gitcore::git::object::base::tree::{Tree, TreeItemType};
use gitcore::git::object::types::ObjectType;
use gitcore::git::pack::decode::ObjDecodedMap;
use gitcore::git::Metadata;
use gitcore::gust::driver::structure::nodes::{
    build_node_tree, FileNode, Node, Repo, TreeNode,
};
use gitcore::gust::driver::utils::id_generator;
use gitcore::gust::driver::utils::id_generator::IdGenerator;
use std::path::PathBuf;

fn build_tree(node: &mut TreeNode, path: &PathBuf, depth: usize, ids: &mut IdGenerator) {
    let parts: Vec<&str> = path.to_str().unwrap().split("/").collect();

    if depth < parts.len() {
        let child_name = parts[depth];

        let at = match node.find_child(&child_name) {
            Some(at) => at,
            None => {
                let nid = ids.next_id(0).unwrap();
                if path.is_file() {
                    node.add_child(Node::File(FileNode::new(
                        child_name.to_owned(),
                        "".to_owned(),
                        nid,
                    )));
                } else {
                    node.add_child(Node::Tree(TreeNode::new(
                        child_name.to_owned(),
                        "".to_owned(),
                        nid,
                    )));
                };
                match node.find_child(&child_name) {
                    Some(at) => at,
                    None => panic!("Something wrong!:{}, {}", &child_name, depth),
                }
            }
        };
        if let Node::Tree(child) = &mut node.children[at] {
            build_tree(child, path, depth + 1, ids);
        }
    }
}

#[test]
pub fn main() {
    // Form our INPUT:  a list of paths.
    let paths = vec![
        PathBuf::from("child1/grandchild1.txt"),
        PathBuf::from("child1/grandchild2.txt"),
        PathBuf::from("child2/grandchild3.txt"),
        PathBuf::from("child3"),
    ];
    println!("Input Paths:\n{:#?}\n", paths);
    let mut ids = id_generator::set_up_options().unwrap();
    let mut root = match TreeNode::get_root_from_nid(ids.next_id(0).unwrap()) {
        Node::Tree(root) => root,
        Node::File(_) => unreachable!(),
    };
    for path in paths.iter() {
        build_tree(&mut root, path, 0, &mut ids);
    }
    let names: Vec<&str> = root.children.iter().map(|c| c.get_name()).collect();
    assert_eq!(names, vec!["child1", "child2", "child3"]);
    assert_eq!(root.children[0].get_children().len(), 2);
    assert_eq!(root.children[0].get_children()[1].get_name(), "grandchild2.txt");
    assert_eq!(root.find_child("child2"), Some(1));
    assert_eq!(root.find_child("child4"), None);
    assert_eq!(root.path, "/");
    assert!(root.is_a_directory());
}

#[test]
fn ids_are_never_handed_out_twice() {
    let mut ids = IdGenerator::new(1).unwrap();
    let mut last = -1i64;
    // the clock stands still, moves on, and goes back
    for now in [5u64, 5, 5, 6, 6, 3, 3, 1_000, 999, 1_000] {
        let id = ids.next_id(now).unwrap();
        assert!(id > last);
        last = id;
    }
    assert!(IdGenerator::new(1024).is_none());
    assert!(IdGenerator::new(1023).is_some());
}

#[test]
fn an_id_is_made_of_time_worker_and_sequence() {
    let mut ids = IdGenerator::new(3).unwrap();
    assert_eq!(ids.next_id(10), Some((10 << 22) | (3 << 12)));
    assert_eq!(ids.next_id(10), Some((10 << 22) | (3 << 12) | 1));
    assert_eq!(ids.next_id(11), Some((11 << 22) | (3 << 12)));
    // a clock that goes back does not take the ids back
    assert_eq!(ids.next_id(2), Some((11 << 22) | (3 << 12) | 1));
    // the sequence numbers of a millisecond run out into the next one
    let mut busy = IdGenerator::new(0).unwrap();
    for n in 0..4096i64 {
        assert_eq!(busy.next_id(7), Some((7 << 22) | n));
    }
    assert_eq!(busy.next_id(7), Some(8 << 22));
    // time ends at 2^41 milliseconds
    let mut late = IdGenerator::new(0).unwrap();
    assert_eq!(late.next_id((1 << 41) - 1), Some(((1i64 << 41) - 1) << 22));
    assert_eq!(late.next_id(1 << 41), None);
    assert_eq!(late.next_id(0), Some((((1i64 << 41) - 1) << 22) | 1));
}

fn tree_item(mode: &str, name: &str, id: &hash::Hash) -> Vec<u8> {
    let mut e = format!("{} {}", mode, name).into_bytes();
    e.push(0);
    e.extend_from_slice(&id.0);
    e
}

fn blob(contents: &[u8]) -> Blob {
    Blob::new(Metadata::new(ObjectType::Blob, &contents.to_vec()))
}

fn tree(entries: &[Vec<u8>]) -> Tree {
    Tree::new(Metadata::new(ObjectType::Tree, &entries.concat())).unwrap()
}

fn commit(tree_id: &hash::Hash) -> Commit {
    let text = format!("tree {}\nauthor a <a@b.c> 0 +0000\n\nmessage\n", tree_id.to_plain_str());
    Commit::new(Metadata::new(ObjectType::Commit, &text.into_bytes())).unwrap()
}

#[test]
fn a_tree_is_built_with_names_paths_and_parents() {
    let a = blob(b"a\n");
    let b = blob(b"b\n");
    let inner = tree(&[tree_item("100644", "b.txt", &b.meta.id)]);
    let outer = tree(&[
        tree_item("100644", "a.txt", &a.meta.id),
        tree_item("40000", "dir", &inner.meta.id),
        // the same directory under another name is not built again
        tree_item("40000", "dir2", &inner.meta.id),
        // the same file under another name is
        tree_item("100755", "a2.txt", &a.meta.id),
    ]);
    assert_eq!(outer.tree_items[1].item_type, TreeItemType::Tree);
    assert_eq!(outer.tree_items[3].item_type, TreeItemType::Blob);
    let mut repo = Repo {
        tree_map: vec![inner, tree(&[])],
        blob_map: vec![a, b],
        tree_build_cache: Vec::new(),
    };
    let mut ids = IdGenerator::new(1).unwrap();
    let mut root = match TreeNode::get_root_from_nid(77) {
        Node::Tree(root) => root,
        Node::File(_) => unreachable!(),
    };
    repo.build_node_tree(&outer, &mut root, &mut ids, 1).unwrap();
    let names: Vec<&str> = root.children.iter().map(|c| c.get_name()).collect();
    assert_eq!(names, vec!["a.txt", "dir", "a2.txt"]);
    assert_eq!(repo.tree_build_cache.len(), 1);
    for child in &root.children {
        assert_eq!(child.get_pid(), "77");
    }
    let dir = match &root.children[1] {
        Node::Tree(dir) => dir,
        Node::File(_) => panic!("a directory"),
    };
    assert_eq!(dir.path, "/dir/");
    assert_eq!(dir.mode, b"40000".to_vec());
    assert_eq!(dir.children.len(), 1);
    assert_eq!(dir.children[0].get_name(), "b.txt");
    assert_eq!(dir.children[0].get_pid(), dir.nid.to_string());
    match &dir.children[0] {
        Node::File(f) => {
            assert_eq!(f.path, "/dir/b.txt");
            assert_eq!(f.data, b"b\n".to_vec());
            assert!(!f.is_a_directory());
        }
        Node::Tree(_) => panic!("a file"),
    }
    match &root.children[2] {
        Node::File(f) => {
            assert_eq!(f.path, "/a2.txt");
            assert_eq!(f.mode, b"100755".to_vec());
            assert_eq!(f.data, b"a\n".to_vec());
        }
        Node::Tree(_) => panic!("a file"),
    }
    let records = repo.convert_node_to_model(&Node::Tree(root));
    let lines: Vec<String> = records.iter().map(|r| format!("{} {}", r.node_type, r.name)).collect();
    assert_eq!(lines, vec!["tree ", "blob a.txt", "tree dir", "blob b.txt", "blob a2.txt"]);
    assert_eq!(records[0].node_id, 77);
}

#[test]
fn what_is_not_known_is_missing() {
    let a = blob(b"a\n");
    let gone = blob(b"gone\n");
    let outer = tree(&[
        tree_item("100644", "a.txt", &a.meta.id),
        tree_item("100644", "gone.txt", &gone.meta.id),
    ]);
    let mut repo = Repo { tree_map: Vec::new(), blob_map: vec![a], tree_build_cache: Vec::new() };
    let mut ids = IdGenerator::new(1).unwrap();
    let mut root = TreeNode::new("".to_owned(), "".to_owned(), 1);
    assert_eq!(
        repo.build_node_tree(&outer, &mut root, &mut ids, 1),
        Err(GitError::MissingBaseObject(gone.meta.id))
    );
    assert!(root.children.is_empty());
    let dir = tree(&[tree_item("40000", "dir", &hash::Hash([9; 20]))]);
    assert_eq!(
        repo.build_node_tree(&dir, &mut root, &mut ids, 1),
        Err(GitError::MissingBaseObject(hash::Hash([9; 20])))
    );
}

#[test]
fn a_tree_that_holds_itself_ends() {
    // no real tree holds itself, but a list of trees can say so
    let mut looped = tree(&[]);
    let id = looped.meta.id;
    looped.tree_items = tree(&[tree_item("40000", "again", &id)]).tree_items;
    let outer = tree(&[tree_item("40000", "start", &id)]);
    let mut repo = Repo { tree_map: vec![looped], blob_map: Vec::new(), tree_build_cache: Vec::new() };
    let mut ids = IdGenerator::new(1).unwrap();
    let mut root = TreeNode::new("".to_owned(), "".to_owned(), 1);
    repo.build_node_tree(&outer, &mut root, &mut ids, 1).unwrap();
    assert_eq!(root.children.len(), 1);
    assert!(root.children[0].get_children().is_empty());
}

#[test]
fn records_of_the_commits() {
    let a = blob(b"a\n");
    let root = tree(&[tree_item("100644", "a.txt", &a.meta.id)]);
    let c = commit(&root.meta.id);
    let map = ObjDecodedMap {
        trees: vec![root],
        blobs: vec![a],
        commits: vec![c],
        tags: Vec::<Tag>::new(),
    };
    let mut ids = IdGenerator::new(1).unwrap();
    let records = build_node_tree(map, &mut ids, 5).unwrap();
    assert_eq!(records.len(), 2);
    assert_eq!(records[0].node_type, "tree");
    assert_eq!(records[0].name, "");
    assert_eq!(records[0].node_id, (5 << 22) | (1 << 12));
    assert_eq!(records[1].node_type, "blob");
    assert_eq!(records[1].name, "a.txt");
    assert_eq!(records[1].node_id, (5 << 22) | (1 << 12) | 1);
    assert_eq!(records[1].mode, b"100644".to_vec());
    assert_eq!(records[1].data, b"a\n".to_vec());
    assert_eq!(records[1].git_id, "78981922613b2afb6025042ff6bd878ac1994e85");
    let lost = commit(&hash::Hash([3; 20]));
    let map = ObjDecodedMap {
        trees: Vec::new(),
        blobs: Vec::new(),
        commits: vec![lost],
        tags: Vec::new(),
    };
    assert_eq!(
        build_node_tree(map, &mut ids, 5).err(),
        Some(GitError::MissingBaseObject(hash::Hash([3; 20])))
    );
}

#[test]
fn building_stops_where_no_id_is_left() {
    let a = blob(b"a\n");
    let root = tree(&[tree_item("100644", "a.txt", &a.meta.id)]);
    let mut repo = Repo { tree_map: Vec::new(), blob_map: vec![a], tree_build_cache: Vec::new() };
    let mut ids = IdGenerator::new(1).unwrap();
    // the last millisecond that fits an id, and all of its sequence numbers
    for _ in 0..4096 {
        assert!(ids.next_id((1 << 41) - 1).is_some());
    }
    assert_eq!(ids.next_id(0), None);
    let mut node = TreeNode::new("".to_owned(), "".to_owned(), 1);
    assert_eq!(
        repo.build_node_tree(&root, &mut node, &mut ids, 0),
        Err(GitError::IdSpaceExhausted)
    );
    assert!(node.children.is_empty());
    assert_eq!(GitError::IdSpaceExhausted.message(), "no node id left");
}
