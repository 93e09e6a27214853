use gitcore::errors::GitError;
use gitcore::git::hash;
use gitcore::git::idx::Idx;
use gitcore::git::object::types::ObjectType;
use gitcore::git::pack::decode::ObjDecodedMap;
use gitcore::git::pack::Pack;
use gitcore::gust::driver::structure::nodes::build_node_tree;
use gitcore::gust::driver::utils::id_generator;

/// A pack of twelve objects, two of them offset deltas, as `git repack` wrote it.
fn pack_bytes() -> Vec<u8> {
    let text = [
        "5041434b000000020000000c970b789c85cd410e02210c00c03bafe06e624aa1501263fc0adb96e861770d8bff777d81",
        "f749660e331f1800b4b0a5da8985ad10024955538d182b5a054901ddbb0ddba66f840cdafb729a0c4520460da972c144",
        "da147b4a05b3a96b9ff9dc879f764c1bfed61ecb55ee3ee482140302f8cb1983937d5d5ff347fe497798ec9bba2f82d3",
        "32e2c307789c1dca410ac2301046e17d4e317b4132499a5a10f12a9399dfa250233a08debead6ff36d5e6f0fa893c172",
        "6695d42a6c40ad625527298c5b6913273d71c16816fcf702695f96bb079799bebc33e34d8e8f6f9ce5da8e7a21ae631a",
        "32a718e910b7c27fef4f84152d6822449608789c85cac109c3300c00c0bfa7d03f50a408bb2e9490556c49a6790483ad",
        "ee9f6682defb7c980199c64a222fe586912463d34c3921a74ca5b056366b9a42f9faa70f709b6e03de65af0fd980d273",
        "8d4c2b222cf813a49fe7e177f937433bc6f4700171b22622a304789c3334303033315108727574f175d5cb4d6198bfa5",
        "f8d3bac77fed5add9ad43ffebb64e09bb022dec40008148a8b92194e298464736555867d98f9f02ee7f6ce9023e7a2ee",
        "0100690b1c90a406789c333100028594d4d402068babfb2cd8b6b34c57bcaae2ecaef5af6336c77a0643030333131385",
        "9ccc24bda26286cf1a4f6e5ef031bc709d57ec9214fbc544eb9757cba12a721333f3702901002255275ca502789c3334",
        "3030333151c8cb2f492dd62ba92861d8bf2c545068327355680a47afd4ec3d4b4e9f77c90600e0980da0a304789c3334",
        "303033315108727574f175d5cb4d6170d6bcb4f2d7e35f9bd60abdf0d5e09d1f53bc791f93890110281417253354ddbe",
        "f6bdf3c96ff36b75a2e78ee58adecb0cdd1001005fdb1cb7678052789c4b719aa036d14306000a160252be8301789c9d",
        "d55b16c1500c46e177a3c810e40f2d66e37268397a68d56df41633b09fb3f653be95e4b64b365dd9ad49761ddbedc936",
        "7d7974b62f4f3b8ee7cb60e59efadf38afdf2fdb95c3247f1b078d4013a09981660e9a0a34356816a059929d22084482",
        "130a4e2c38c1e04483130e4e3c3801e144848808a1db40448888101121224244848808111122228288082222d0bb2022",
        "8288082222888820228288883f457c00d599e3f7e401802a789cdb27304b6083320b7b7246625e7a6aca663f960fcc00",
        "495d071936789ccbcb2f492de6020008b402343d789c4bcb53c84dccccd3d054a8aee502001e6a040d776f48582682ad",
        "68a7ae8f2ae11556db95cbabb8",
    ]
    .concat();
    hex::decode(text).unwrap()
}

/// The index that `git repack` wrote for that pack.
fn idx_bytes() -> Vec<u8> {
    let text = [
        "ff744f630000000200000000000000000000000000000000000000000000000000000000000000000000000000000000",
        "000000000000000000000000000000000000000000000000000000000000000000000000000000000000000000000000",
        "000000000000000000000001000000010000000100000001000000010000000100000002000000020000000200000002",
        "000000020000000200000002000000020000000200000002000000020000000200000002000000020000000200000002",
        "000000020000000200000002000000020000000200000002000000020000000200000002000000020000000300000003",
        "000000030000000300000003000000030000000300000003000000030000000300000003000000040000000400000004",
        "000000040000000400000004000000040000000400000004000000040000000400000004000000040000000400000004",
        "000000040000000400000004000000040000000400000004000000040000000400000004000000040000000400000004",
        "000000040000000400000004000000040000000400000004000000040000000400000004000000040000000400000004",
        "000000040000000400000004000000040000000400000004000000040000000400000004000000040000000400000004",
        "000000040000000400000004000000040000000500000005000000050000000500000005000000050000000500000005",
        "000000050000000500000005000000050000000500000005000000050000000500000005000000050000000500000005",
        "000000050000000500000005000000050000000500000005000000050000000500000005000000050000000500000005",
        "000000050000000600000006000000060000000600000007000000070000000700000007000000070000000700000008",
        "000000080000000800000008000000080000000800000008000000080000000800000008000000080000000800000008",
        "000000080000000800000008000000080000000800000008000000080000000800000008000000080000000800000008",
        "000000080000000900000009000000090000000900000009000000090000000900000009000000090000000900000009",
        "0000000a0000000a0000000a0000000a0000000a0000000a0000000a0000000a0000000a0000000a0000000a0000000a",
        "0000000a0000000a0000000a0000000a0000000a0000000a0000000a0000000a0000000b0000000b0000000b0000000b",
        "0000000b0000000b0000000b0000000b0000000b0000000b0000000b0000000b0000000b0000000b0000000b0000000b",
        "0000000b0000000b0000000b0000000b0000000b0000000c0000000c0000000c0000000c0000000c0000000c0000000c",
        "0000000c0000000c0000000c0000000c0000000c0000000c18000d78e49f58c8e75205c9dedd32392e90c4121ed5b1cc",
        "9d3f051c80fd818603681aa3db3eefd638d5be3806b7049721d52443472afe889b08af004329d2a9fae3fab2ad12e84d",
        "280d9f5c73b3be027adbd6f789e4fb37d67e15cec66d15de6955b0589b997847f0375d097698b68383f319bedd23e30a",
        "9fb473f2aee3fd3e85468227f1fed2304d60a85fa5280dffb5c9607c033d14987245dad2f44726edbfa655111293037a",
        "5564088d1a9bbca4cbcf446bca20546b0a6a7956f099e1dd09b78954c4ce5adeded331ca2b6ed5e66ad6c9a41ef4b912",
        "c814e7ddf328e4d9d04c31d0d70d16d21a07d1613be9d577afcafb2d881e9c570af242d1e547e9571142115327e2bf8d",
        "e7f52c53ab35fd9a5a1c761f6e0bb456c2cdb6cde6c322bb000001680000023a0000020a0000029a0000028800000092",
        "000003440000010000000364000001b60000000c00000373776f48582682ad68a7ae8f2ae11556db95cbabb8cba53b21",
        "29735f0c80f47fd57aa2a9698091d42d",
    ]
    .concat();
    hex::decode(text).unwrap()
}

const PACK_ID: &str = "776f48582682ad68a7ae8f2ae11556db95cbabb8";

/// Hash, type, length and offset of every object, as `git verify-pack` lists them.
fn listing() -> Vec<(&'static str, ObjectType, usize, u64)> {
    vec![
        ("ded331ca2b6ed5e66ad6c9a41ef4b912c814e7dd", ObjectType::Commit, 183, 12),
        ("9b997847f0375d097698b68383f319bedd23e30a", ObjectType::Tag, 115, 146),
        ("a5280dffb5c9607c033d14987245dad2f44726ed", ObjectType::Commit, 134, 256),
        ("18000d78e49f58c8e75205c9dedd32392e90c412", ObjectType::Tree, 67, 360),
        ("ca20546b0a6a7956f099e1dd09b78954c4ce5ade", ObjectType::Tree, 100, 438),
        ("38d5be3806b7049721d52443472afe889b08af00", ObjectType::Tree, 37, 522),
        ("1ed5b1cc9d3f051c80fd818603681aa3db3eefd6", ObjectType::Tree, 67, 570),
        ("7adbd6f789e4fb37d67e15cec66d15de6955b058", ObjectType::Tree, 66, 648),
        ("4329d2a9fae3fab2ad12e84d280d9f5c73b3be02", ObjectType::Blob, 2110, 666),
        ("9fb473f2aee3fd3e85468227f1fed2304d60a85f", ObjectType::Blob, 2074, 836),
        ("bfa655111293037a5564088d1a9bbca4cbcf446b", ObjectType::Blob, 6, 868),
        ("f328e4d9d04c31d0d70d16d21a07d1613be9d577", ObjectType::Blob, 13, 883),
    ]
}

#[test]
fn decodes_a_pack_that_git_wrote() {
    let data = pack_bytes();
    let pack = Pack::decode(&data, Vec::new()).unwrap();
    assert_eq!(pack.get_head(), *b"PACK");
    assert_eq!(pack.get_version(), 2);
    assert_eq!(pack.get_object_number(), 12);
    assert_eq!(pack.get_hash().to_plain_str(), PACK_ID);
    assert_eq!(pack.get_hash().0.to_vec(), data[data.len() - 20..].to_vec());
    assert_eq!(pack.get_cache().len(), 12);
    for (id, kind, _, offset) in listing() {
        let entry = pack.get_cache().offset_object(offset).unwrap();
        assert_eq!(entry.hash.to_plain_str(), id);
        assert_eq!(entry.object.object_type, kind);
        assert_eq!(entry.object.hash(), entry.hash);
        let by_hash = pack.get_cache().hash_object(&hash::Hash::from_hex(id).unwrap()).unwrap();
        assert_eq!(by_hash.contents, entry.object.contents);
    }
}

#[test]
fn deltas_that_git_wrote_are_applied() {
    let data = pack_bytes();
    let pack = Pack::decode(&data, Vec::new()).unwrap();
    let readme = pack.get_cache().offset_object(836).unwrap();
    let text = String::from_utf8(readme.object.contents.clone()).unwrap();
    assert_eq!(text.lines().count(), 40);
    assert_eq!(text.lines().nth(20), Some("line 20: changed"));
    assert_eq!(
        text.lines().nth(19),
        Some("line 19: the quick brown fox jumps over the lazy dog")
    );
    let tree = pack.get_cache().offset_object(648).unwrap();
    assert_eq!(tree.object.object_type, ObjectType::Tree);
    assert_eq!(tree.object.contents.len(), 66);
}

#[test]
fn decodes_an_index_that_git_wrote() {
    let mut idx = Idx::default();
    idx.decode(idx_bytes()).unwrap();
    assert_eq!(idx.version, 2);
    assert_eq!(idx.number_of_objects, 12);
    assert_eq!(idx.number_of_objects, idx.idx_items.len());
    assert_eq!(idx.pack_signature.to_plain_str(), PACK_ID);
    let file = idx_bytes();
    assert_eq!(idx.idx_signature, hash::Hash::new(&file[..file.len() - 20]));
    for w in idx.idx_items.windows(2) {
        assert!(w[0].id.0 < w[1].id.0);
    }
    for (id, _, _, offset) in listing() {
        let item = idx.idx_items.iter().find(|it| it.id.to_plain_str() == id).unwrap();
        assert_eq!(item.offset, offset);
    }
    // no hash starts with 0x00, one starts with 0x18
    assert_eq!(idx.map_of_prefix.get(&0x00), None);
    assert_eq!(idx.map_of_prefix.get(&0x18), Some(&1));
    let total: usize = idx.map_of_prefix.values().sum();
    assert_eq!(total, 12);
}

#[test]
fn writes_the_index_that_git_wrote() {
    let pack = Pack::decode(&pack_bytes(), Vec::new()).unwrap();
    let idx = Idx::encode(pack).unwrap();
    assert_eq!(idx.number_of_objects, 12);
    assert_eq!(idx._file_data, idx_bytes());
}

#[test]
fn decodes_a_pack_by_its_index() {
    let mut idx = Idx::default();
    idx.decode(idx_bytes()).unwrap();
    let pack = Pack::decode_by_idx(&idx, &pack_bytes(), Vec::new()).unwrap();
    assert_eq!(pack.get_head(), *b"PACK");
    assert_eq!(pack.get_version(), 2);
    assert_eq!(pack.get_hash().to_plain_str(), PACK_ID);
    assert_eq!(pack.get_cache().len(), idx.number_of_objects);
    assert_eq!(pack.get_object_number(), 12);
    for (id, kind, size, offset) in listing() {
        let entry = pack.get_cache().offset_object(offset).unwrap();
        assert_eq!(entry.hash.to_plain_str(), id);
        assert_eq!(entry.object.object_type, kind);
        assert_eq!(entry.object.contents.len(), size);
    }
}

#[test]
fn a_truncated_pack_is_rejected() {
    let data = pack_bytes();
    assert_eq!(Pack::decode(&data[..data.len() - 1], Vec::new()).err(), Some(GitError::UnexpectedEof));
    assert!(Pack::decode(&data[..700], Vec::new()).is_err());
    assert_eq!(Pack::decode(&data[..12], Vec::new()).err(), Some(GitError::UnexpectedEof));
}

#[test]
fn parses_the_objects_of_the_pack() {
    let pack = Pack::decode(&pack_bytes(), Vec::new()).unwrap();
    let mut map = ObjDecodedMap::default();
    map.update_from_cache(pack.get_cache()).unwrap();
    assert_eq!(map.commits.len(), 2);
    assert_eq!(map.trees.len(), 5);
    assert_eq!(map.blobs.len(), 4);
    assert_eq!(map.tags.len(), 1);
    let head = map.commits.iter().find(|c| c.meta.id.to_plain_str() == "ded331ca2b6ed5e66ad6c9a41ef4b912c814e7dd").unwrap();
    assert_eq!(head.tree_id.to_plain_str(), "18000d78e49f58c8e75205c9dedd32392e90c412");
    assert_eq!(head.parent_tree_ids.len(), 1);
    assert_eq!(head.parent_tree_ids[0].to_plain_str(), "a5280dffb5c9607c033d14987245dad2f44726ed");
    let first = map.commits.iter().find(|c| c.meta.id.to_plain_str() == "a5280dffb5c9607c033d14987245dad2f44726ed").unwrap();
    assert_eq!(first.tree_id.to_plain_str(), "1ed5b1cc9d3f051c80fd818603681aa3db3eefd6");
    assert!(first.parent_tree_ids.is_empty());
    assert_eq!(map.tags[0].object_id.to_plain_str(), "ded331ca2b6ed5e66ad6c9a41ef4b912c814e7dd");
    let root = map.trees.iter().find(|t| t.meta.id.to_plain_str() == "18000d78e49f58c8e75205c9dedd32392e90c412").unwrap();
    let names: Vec<&str> = root.tree_items.iter().map(|i| i.filename.as_str()).collect();
    assert_eq!(names, vec!["README.md", "src"]);
    assert_eq!(root.tree_items[0].mode, b"100644".to_vec());
    assert_eq!(root.tree_items[1].mode, b"40000".to_vec());
    assert_eq!(root.tree_items[1].id.to_plain_str(), "ca20546b0a6a7956f099e1dd09b78954c4ce5ade");
}

#[test]
fn builds_the_directory_trees_of_the_commits() {
    let pack = Pack::decode(&pack_bytes(), Vec::new()).unwrap();
    let mut map = ObjDecodedMap::default();
    map.update_from_cache(pack.get_cache()).unwrap();
    let mut ids = id_generator::set_up_options().unwrap();
    let records = build_node_tree(map, &mut ids, 1_000).unwrap();
    // the ids are handed out in the order of the records and never twice
    for w in records.windows(2) {
        assert!(w[0].node_id < w[1].node_id);
    }
    let lines: Vec<String> = records.iter().map(|r| format!("{} {}", r.node_type, r.name)).collect();
    // newest commit first: its root, README.md, src with deep/notes.txt, lib.rs and
    // main.rs; then the root of the first commit with its README.md and its own src,
    // below which deep has been built already
    assert_eq!(
        lines,
        vec![
            "tree ",
            "blob README.md",
            "tree src",
            "tree deep",
            "blob notes.txt",
            "blob lib.rs",
            "blob main.rs",
            "tree ",
            "blob README.md",
            "tree src",
            "blob main.rs",
        ]
    );
    assert_eq!(records[0].git_id, "18000d78e49f58c8e75205c9dedd32392e90c412");
    assert_eq!(records[1].git_id, "9fb473f2aee3fd3e85468227f1fed2304d60a85f");
    assert_eq!(records[1].data.len(), 2074);
    assert_eq!(records[4].data, b"notes\n".to_vec());
    assert_eq!(records[2].mode, b"40000".to_vec());
}
