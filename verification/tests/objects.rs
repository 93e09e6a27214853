use gitcore::errors::GitError;
use gitcore::git::hash;
use gitcore::git::object::base::commit::Commit;
use gitcore::git::object::base::tag::Tag;
use gitcore::git::object::base::tree::{Tree, TreeItemType};
use gitcore::git::object::types::ObjectType;
use gitcore::git::object::Object;
use gitcore::git::pack::cache::PackObjectCache;
use gitcore::git::pack::decode::ObjDecodedMap;
use gitcore::git::{Metadata, ObjClass};

#[test]
pub fn test_map_new() {
    let mut _map = ObjDecodedMap::default();
    assert!(_map.trees.is_empty());
    assert!(_map.blobs.is_empty());
    assert!(_map.commits.is_empty());
    assert!(_map.tags.is_empty());
}

fn entry(mode: &str, name: &[u8], id: u8) -> Vec<u8> {
    let mut e = mode.as_bytes().to_vec();
    e.push(b' ');
    e.extend_from_slice(name);
    e.push(0);
    e.extend_from_slice(&[id; 20]);
    e
}

#[test]
fn a_tree_splits_into_its_entries() {
    let contents = [entry("100644", b"a b.txt", 1), entry("40000", b"dir", 2)].concat();
    let tree = Tree::new(Metadata::new(ObjectType::Tree, &contents)).unwrap();
    assert_eq!(tree.tree_items.len(), 2);
    assert_eq!(tree.tree_items[0].mode, b"100644".to_vec());
    assert_eq!(tree.tree_items[0].filename, "a b.txt");
    assert_eq!(tree.tree_items[0].id, hash::Hash([1; 20]));
    assert_eq!(tree.tree_items[0].item_type, TreeItemType::Blob);
    assert_eq!(tree.tree_items[1].filename, "dir");
    assert_eq!(tree.tree_items[1].item_type, TreeItemType::Tree);
    assert_eq!(tree.meta.data, contents);
    let empty = Tree::new(Metadata::new(ObjectType::Tree, &Vec::new())).unwrap();
    assert!(empty.tree_items.is_empty());
}

#[test]
fn a_tree_that_does_not_split_is_corrupt() {
    let parse = |contents: &[u8]| {
        Tree::new(Metadata::new(ObjectType::Tree, &contents.to_vec())).map(|t| t.tree_items.len())
    };
    let good = entry("100644", b"a", 1);
    assert_eq!(parse(&good), Ok(1));
    assert_eq!(parse(&good[..good.len() - 1]), Err(GitError::CorruptObject));
    assert_eq!(parse(b"100644"), Err(GitError::CorruptObject));
    assert_eq!(parse(b"100644 name"), Err(GitError::CorruptObject));
    let mut trailing = good.clone();
    trailing.push(b'x');
    assert_eq!(parse(&trailing), Err(GitError::CorruptObject));
}

#[test]
fn a_commit_names_its_tree_and_its_parents() {
    let text = format!(
        "tree {}\nparent {}\nparent {}\nauthor a <a@b.c> 0 +0000\n\nparent {}\n",
        "11".repeat(20),
        "22".repeat(20),
        "33".repeat(20),
        "44".repeat(20)
    );
    let commit = Commit::new(Metadata::new(ObjectType::Commit, &text.into_bytes())).unwrap();
    assert_eq!(commit.tree_id, hash::Hash([0x11; 20]));
    assert_eq!(commit.parent_tree_ids, vec![hash::Hash([0x22; 20]), hash::Hash([0x33; 20])]);
    let root = format!("tree {}\nauthor a <a@b.c> 0 +0000\n", "ab".repeat(20));
    let commit = Commit::new(Metadata::new(ObjectType::Commit, &root.into_bytes())).unwrap();
    assert!(commit.parent_tree_ids.is_empty());
    for bad in [
        "".to_owned(),
        format!("tree {}", "11".repeat(20)),
        format!("tree {}\n", "1g".repeat(20)),
        format!("tree  {}\n", "11".repeat(20)),
        format!("parent {}\n", "11".repeat(20)),
    ] {
        assert_eq!(
            Commit::new(Metadata::new(ObjectType::Commit, &bad.into_bytes())).err(),
            Some(GitError::CorruptObject)
        );
    }
}

#[test]
fn a_tag_names_its_target() {
    let text = format!("object {}\ntype commit\ntag v1\n", "5a".repeat(20));
    let tag = Tag::new(Metadata::new(ObjectType::Tag, &text.into_bytes())).unwrap();
    assert_eq!(tag.object_id, hash::Hash([0x5a; 20]));
    assert_eq!(
        Tag::new(Metadata::new(ObjectType::Tag, &b"type commit\n".to_vec())).err(),
        Some(GitError::CorruptObject)
    );
}

#[test]
fn objects_are_parsed_by_their_type() {
    let blob = Object { object_type: ObjectType::Blob, contents: b"anything".to_vec() };
    match ObjClass::parse(&blob).unwrap() {
        ObjClass::BLOB(b) => {
            assert_eq!(b.data, b"anything".to_vec());
            assert_eq!(b.meta.id, blob.hash());
        }
        _ => panic!("a blob"),
    }
    let tree = Object { object_type: ObjectType::Tree, contents: b"anything".to_vec() };
    assert_eq!(ObjClass::parse(&tree).err(), Some(GitError::CorruptObject));
}

#[test]
fn the_cache_keeps_objects_by_offset_and_by_hash() {
    let mut cache = PackObjectCache::new();
    assert_eq!(cache.len(), 0);
    let one = Object { object_type: ObjectType::Blob, contents: b"one".to_vec() };
    let two = Object { object_type: ObjectType::Blob, contents: b"two".to_vec() };
    let outside = Object { object_type: ObjectType::Blob, contents: b"outside".to_vec() };
    let (h1, h2, h3) = (one.hash(), two.hash(), outside.hash());
    assert_eq!(cache.update(one, 12, 30, 7), h1);
    assert_eq!(cache.update(two, 30, 50, 8), h2);
    assert_eq!(cache.update_outside(outside), h3);
    assert_eq!(cache.len(), 2);
    let entry = cache.offset_object(12).unwrap();
    assert_eq!(entry.hash, h1);
    assert_eq!(entry.end, 30);
    assert_eq!(entry.crc32, 7);
    assert_eq!(entry.object.contents, b"one".to_vec());
    assert!(cache.offset_object(13).is_none());
    // what is under an offset is under its hash too, and it is the same object
    for offset in [12u64, 30] {
        let entry = cache.offset_object(offset).unwrap();
        let by_hash = cache.hash_object(&entry.hash).unwrap();
        assert_eq!(by_hash.contents, entry.object.contents);
        assert_eq!(by_hash.hash(), entry.hash);
    }
    assert_eq!(cache.hash_object(&h3).unwrap().contents, b"outside".to_vec());
    assert!(cache.hash_object(&hash::Hash([0; 20])).is_none());
    let mut offsets: Vec<u64> = cache.entries().iter().map(|e| e.0).collect();
    offsets.sort();
    assert_eq!(offsets, vec![12, 30]);
    // an offset is entered once; the later object takes its place
    let three = Object { object_type: ObjectType::Tag, contents: b"three".to_vec() };
    let h = three.hash();
    cache.update(three, 12, 40, 9);
    assert_eq!(cache.len(), 2);
    assert_eq!(cache.offset_object(12).unwrap().hash, h);
    assert_eq!(cache.entries().len(), 2);
    // the earlier object is still found by its hash
    assert_eq!(cache.hash_object(&h1).unwrap().contents, b"one".to_vec());
}
