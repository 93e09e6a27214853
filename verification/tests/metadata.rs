use gitcore::errors::GitError;
use gitcore::git::object::types::{ObjectType, PackObjectType};
use gitcore::git::object::Object;
use gitcore::git::Metadata;
use gitcore::utils;
use std::io::Write;

fn zlib(data: &[u8]) -> Vec<u8> {
    let mut encoder = flate2::write::ZlibEncoder::new(Vec::new(), flate2::Compression::default());
    encoder.write_all(data).unwrap();
    encoder.finish().unwrap()
}

#[test]
fn type_codes() {
    assert_eq!(ObjectType::Commit.type2_number(), 1);
    assert_eq!(ObjectType::Tree.type2_number(), 2);
    assert_eq!(ObjectType::Blob.type2_number(), 3);
    assert_eq!(ObjectType::Tag.type2_number(), 4);
    assert_eq!(PackObjectType::type_number2_type(0), None);
    assert_eq!(PackObjectType::type_number2_type(3), Some(PackObjectType::Base(ObjectType::Blob)));
    assert_eq!(PackObjectType::type_number2_type(5), None);
    assert_eq!(PackObjectType::type_number2_type(6), Some(PackObjectType::OffsetDelta));
    assert_eq!(PackObjectType::type_number2_type(7), Some(PackObjectType::HashDelta));
    assert_eq!(PackObjectType::type_number2_type(8), None);
    assert_eq!(ObjectType::Commit.keyword(), b"commit".to_vec());
    assert_eq!(ObjectType::from_keyword(b"a tree b", 2, 6), Some(ObjectType::Tree));
    assert_eq!(ObjectType::from_keyword(b"tags", 0, 4), None);
}

#[test]
fn an_object_with_its_identity() {
    let object = Object { object_type: ObjectType::Blob, contents: b"hello world\n".to_vec() };
    let m = object.to_metadata();
    assert_eq!(m.t, ObjectType::Blob);
    assert_eq!(m.size, 12);
    assert_eq!(m.data, b"hello world\n".to_vec());
    assert_eq!(m.id.to_plain_str(), "3b18e512dba79e4c8300dd08aeb37f8e728b8dad");
    let tree = Object { object_type: ObjectType::Tree, contents: Vec::new() };
    assert_eq!(tree.hash().to_plain_str(), "4b825dc642cb6eb9a060e54bf8d69288fbee4904");
}

#[test]
fn a_pack_entry_reads_back() {
    for size in [0usize, 1, 15, 16, 17, 2047, 2048, 100_000] {
        let m = Metadata::new(ObjectType::Commit, &vec![b'x'; size]);
        let entry = m.convert_to_vec().unwrap();
        let (code, announced, body) = utils::read_type_and_size(&entry, 0).unwrap();
        assert_eq!(code, 1);
        assert_eq!(announced, size as u64);
        let (bytes, end) = utils::read_zlib_stream_exact(&entry, body).unwrap();
        assert_eq!(bytes, vec![b'x'; size]);
        assert_eq!(end, entry.len());
    }
    let m = Metadata::new(ObjectType::Blob, &b"0123456789abcdefXYZ".to_vec());
    let entry = m.convert_to_vec().unwrap();
    // type 3, low nibble 3, one more byte that holds 1
    assert_eq!(&entry[..2], &[0x80 | (3 << 4) | 3, 1]);
}

#[test]
fn a_loose_object_reads_back() {
    let m = Metadata::new(ObjectType::Blob, &b"hello world\n".to_vec());
    let stream = m.to_loose();
    let (plain, _) = utils::read_zlib_stream_exact(&stream, 0).unwrap();
    assert_eq!(plain, b"blob 12\0hello world\n".to_vec());
    let back = Metadata::read_object(&stream).unwrap();
    assert_eq!(back.t, ObjectType::Blob);
    assert_eq!(back.size, 12);
    assert_eq!(back.data, m.data);
    assert_eq!(back.id, m.id);
}

#[test]
fn loose_objects_of_every_type() {
    for (word, t) in [
        ("blob", ObjectType::Blob),
        ("tree", ObjectType::Tree),
        ("commit", ObjectType::Commit),
        ("tag", ObjectType::Tag),
    ] {
        let mut plain = format!("{} 3", word).into_bytes();
        plain.push(0);
        plain.extend_from_slice(b"abc");
        let m = Metadata::read_object(&zlib(&plain)).unwrap();
        assert_eq!(m.t, t);
        assert_eq!(m.data, b"abc".to_vec());
        assert_eq!(m.id, Object { object_type: t, contents: b"abc".to_vec() }.hash());
    }
}

#[test]
fn malformed_loose_objects() {
    let parse = |plain: &[u8]| Metadata::parse(plain.to_vec()).map(|m| m.size);
    assert_eq!(parse(b"blob 3\0abc"), Ok(3));
    assert_eq!(parse(b"blob 0\0"), Ok(0));
    assert_eq!(parse(b"blob3\0abc"), Err(GitError::MalformedHeader));
    assert_eq!(parse(b"blob 3abc"), Err(GitError::MalformedHeader));
    assert_eq!(parse(b"blob\0 3abc"), Err(GitError::MalformedHeader));
    assert_eq!(parse(b"blob \0abc"), Err(GitError::MalformedHeader));
    assert_eq!(parse(b"blob x\0abc"), Err(GitError::MalformedHeader));
    assert_eq!(parse(b"blob 03\0abc"), Err(GitError::MalformedHeader));
    assert_eq!(parse(b"blob +3\0abc"), Err(GitError::MalformedHeader));
    assert_eq!(
        parse(b"blob 99999999999999999999999999\0abc"),
        Err(GitError::MalformedHeader)
    );
    assert_eq!(parse(b"blub 3\0abc"), Err(GitError::InvalidObjectType));
    assert_eq!(parse(b"blob 4\0abc"), Err(GitError::CorruptObject));
    assert_eq!(parse(b"blob 2\0abc"), Err(GitError::CorruptObject));
    assert_eq!(Metadata::read_object(b"not zlib").err(), Some(GitError::DecompressionError));
    let stream = zlib(b"blob 3\0abc");
    assert_eq!(
        Metadata::read_object(&stream[..stream.len() - 3]).err(),
        Some(GitError::UnexpectedEof)
    );
}
