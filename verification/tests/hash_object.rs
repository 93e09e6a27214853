use gitcore::git::hash;
use gitcore::git::object::types::ObjectType;
use gitcore::git::object::Object;

#[test]
fn test_a_single_blob() {
    let blob = Object { object_type: ObjectType::Blob, contents: b"hello world\n".to_vec() };
    assert_eq!(blob.hash().to_plain_str(), "3b18e512dba79e4c8300dd08aeb37f8e728b8dad");
}

#[test]
fn empty_blob_has_the_well_known_hash() {
    let blob = Object { object_type: ObjectType::Blob, contents: Vec::new() };
    assert_eq!(blob.hash().to_plain_str(), "e69de29bb2d1d6434b8b29ae775ad8c2e48c5391");
}

#[test]
fn hash_of_bytes_is_sha1() {
    let h = hash::Hash::new(b"abc");
    assert_eq!(h.to_plain_str(), "a9993e364706816aba3e25717850c26c9cd0d89d");
}
