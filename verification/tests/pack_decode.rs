use gitcore::errors::GitError;
use gitcore::git::object::types::ObjectType;
use gitcore::git::object::Object;
use gitcore::git::pack::cache::PackObjectCache;
use gitcore::git::pack::Pack;
use std::io::Write;

fn zlib(data: &[u8]) -> Vec<u8> {
    let mut encoder = flate2::write::ZlibEncoder::new(Vec::new(), flate2::Compression::default());
    encoder.write_all(data).unwrap();
    encoder.finish().unwrap()
}

fn header(code: u8, size: usize) -> Vec<u8> {
    let mut out = Vec::new();
    let mut first = (code << 4) | (size & 0x0f) as u8;
    let mut rest = size >> 4;
    if rest > 0 {
        first |= 0x80;
    }
    out.push(first);
    while rest > 0 {
        let mut b = (rest & 0x7f) as u8;
        rest >>= 7;
        if rest > 0 {
            b |= 0x80;
        }
        out.push(b);
    }
    out
}

fn pack_of(entries: &[Vec<u8>]) -> Vec<u8> {
    let mut out = b"PACK".to_vec();
    out.extend_from_slice(&[0, 0, 0, 2]);
    out.extend_from_slice(&(entries.len() as u32).to_be_bytes());
    for e in entries {
        out.extend_from_slice(e);
    }
    let trailer = gitcore::git::hash::Hash::new(&out);
    out.extend_from_slice(&trailer.0);
    out
}

fn base_entry(code: u8, contents: &[u8]) -> Vec<u8> {
    let mut e = header(code, contents.len());
    e.extend_from_slice(&zlib(contents));
    e
}

#[test]
fn decodes_a_pack_of_one_blob() {
    let data = pack_of(&[base_entry(3, b"hello world\n")]);
    let pack = Pack::decode(&data, Vec::new()).unwrap();
    assert_eq!(pack.get_object_number(), 1);
    assert_eq!(pack.get_head(), *b"PACK");
    assert_eq!(pack.get_version(), 2);
    assert_eq!(pack.get_hash().0.to_vec(), data[data.len() - 20..].to_vec());
    assert_eq!(pack.get_cache().len(), 1);
    let entry = pack.get_cache().offset_object(12).unwrap();
    assert_eq!(entry.object.object_type, ObjectType::Blob);
    assert_eq!(entry.object.contents, b"hello world\n".to_vec());
    assert_eq!(entry.hash.to_plain_str(), "3b18e512dba79e4c8300dd08aeb37f8e728b8dad");
    assert_eq!(entry.end as usize, data.len() - 20);
    assert_eq!(entry.crc32, gitcore::utils::crc32(&data[12..data.len() - 20]));
}

#[test]
fn offset_delta_is_applied_to_its_base() {
    let base = b"hello world\n";
    let first = base_entry(3, base);
    // copy 6 bytes from offset 0, then insert "there\n"
    let mut delta = vec![12u8, 12u8];
    delta.extend_from_slice(&[0x90, 6]);
    delta.push(6);
    delta.extend_from_slice(b"there\n");
    let mut second = header(6, delta.len());
    second.push(first.len() as u8);
    second.extend_from_slice(&zlib(&delta));
    let data = pack_of(&[first.clone(), second]);
    let pack = Pack::decode(&data, Vec::new()).unwrap();
    assert_eq!(pack.get_cache().len(), 2);
    let entry = pack.get_cache().offset_object(12 + first.len() as u64).unwrap();
    assert_eq!(entry.object.contents, b"hello there\n".to_vec());
    assert_eq!(entry.object.object_type, ObjectType::Blob);
}

#[test]
fn hash_delta_needs_its_base() {
    let base = Object { object_type: ObjectType::Blob, contents: b"hello world\n".to_vec() };
    let mut delta = vec![12u8, 5u8];
    delta.extend_from_slice(&[0x90, 5]);
    let mut only = header(7, delta.len());
    only.extend_from_slice(&base.hash().0);
    only.extend_from_slice(&zlib(&delta));
    let data = pack_of(&[only]);
    match Pack::decode(&data, Vec::new()) {
        Err(GitError::MissingBaseObject(h)) => assert_eq!(h, base.hash()),
        _ => panic!("the base is missing"),
    }
    let pack = Pack::decode(&data, vec![base]).unwrap();
    assert_eq!(pack.get_cache().len(), 1);
    assert_eq!(pack.get_cache().offset_object(12).unwrap().object.contents, b"hello".to_vec());
}

#[test]
fn header_errors() {
    assert_eq!(Pack::decode(b"PAC", Vec::new()).err(), Some(GitError::UnexpectedEof));
    assert_eq!(
        Pack::decode(b"KCAP\x00\x00\x00\x02\x00\x00\x00\x00", Vec::new()).err(),
        Some(GitError::InvalidPackHeader)
    );
    assert_eq!(
        Pack::decode(b"PACK\x00\x00\x00\x03\x00\x00\x00\x00", Vec::new()).err(),
        Some(GitError::UnsupportedVersion)
    );
}

#[test]
fn a_long_chain_of_deltas_is_followed_from_its_end() {
    let links = 20_000usize;
    let base = b"0123456789";
    let mut data = b"PACK".to_vec();
    data.extend_from_slice(&[0, 0, 0, 2]);
    data.extend_from_slice(&((links + 1) as u32).to_be_bytes());
    let mut offsets = vec![data.len()];
    data.extend_from_slice(&base_entry(3, base));
    // every further object copies the one before it
    let delta = zlib(&[10, 10, 0x90, 10]);
    for _ in 0..links {
        let at = data.len();
        let distance = at - offsets[offsets.len() - 1];
        assert!(distance < 128);
        offsets.push(at);
        data.extend_from_slice(&header(6, 4));
        data.push(distance as u8);
        data.extend_from_slice(&delta);
    }
    let trailer = gitcore::git::hash::Hash::new(&data);
    data.extend_from_slice(&trailer.0);
    // read the last object first: all the others are read on the way
    let mut cache = PackObjectCache::new();
    let last = *offsets.last().unwrap() as u64;
    let h = Pack::next_object(&data, last, &mut cache).unwrap();
    assert_eq!(cache.len(), links + 1);
    assert_eq!(cache.offset_object(last).unwrap().object.contents, base.to_vec());
    assert_eq!(cache.offset_object(last).unwrap().hash, h);
    assert_eq!(cache.offset_object(12).unwrap().hash, h);
    // in turn, the pack holds as many objects as it announces
    let pack = Pack::decode(&data, Vec::new()).unwrap();
    assert_eq!(pack.get_cache().len(), links + 1);
    assert!(Pack::check_trailer(&data));
    data[20] ^= 1;
    assert!(!Pack::check_trailer(&data));
}

#[test]
fn a_delta_may_not_point_at_itself_or_before_the_pack() {
    let mut to_itself = header(6, 4);
    to_itself.push(0);
    to_itself.extend_from_slice(&zlib(&[10, 10, 0x90, 10]));
    assert_eq!(
        Pack::decode(&pack_of(&[to_itself]), Vec::new()).err(),
        Some(GitError::InvalidOffsetDelta)
    );
    let mut too_far = header(6, 4);
    too_far.push(13);
    too_far.extend_from_slice(&zlib(&[10, 10, 0x90, 10]));
    assert_eq!(
        Pack::decode(&pack_of(&[too_far]), Vec::new()).err(),
        Some(GitError::InvalidOffsetDelta)
    );
}

#[test]
fn objects_that_are_not_what_they_announce() {
    // a type code that names nothing
    assert_eq!(
        Pack::decode(&pack_of(&[base_entry(5, b"abc")]), Vec::new()).err(),
        Some(GitError::InvalidObjectType)
    );
    // four bytes announced, three there
    let mut short = header(3, 4);
    short.extend_from_slice(&zlib(b"abc"));
    assert_eq!(
        Pack::decode(&pack_of(&[short]), Vec::new()).err(),
        Some(GitError::CorruptObject)
    );
    // no zlib stream
    let mut plain = header(3, 3);
    plain.extend_from_slice(b"abc");
    assert_eq!(
        Pack::decode(&pack_of(&[plain]), Vec::new()).err(),
        Some(GitError::DecompressionError)
    );
    // more objects announced than there are
    let mut data = pack_of(&[base_entry(3, b"abc")]);
    data[11] = 2;
    assert!(Pack::decode(&data, Vec::new()).is_err());
}

#[test]
fn a_base_outside_its_turn_is_read_first_and_counted() {
    // the second object is a delta against the bytes of the first object's
    // body, read as an object of their own: the cache then holds three
    let inner = base_entry(3, b"inner");
    let mut first = header(3, inner.len());
    let packed = {
        // stored, not deflated: the body holds the inner entry as it is
        let mut e = flate2::write::ZlibEncoder::new(Vec::new(), flate2::Compression::none());
        e.write_all(&inner).unwrap();
        e.finish().unwrap()
    };
    first.extend_from_slice(&packed);
    // the stored block starts 2 bytes of zlib header and 5 of block header in
    let inner_at = 12 + header(3, inner.len()).len() + 7;
    let second_at = 12 + first.len();
    let mut second = header(6, 3);
    second.push((second_at - inner_at) as u8);
    second.extend_from_slice(&zlib(&[5, 2, 0x90, 2]));
    let data = pack_of(&[first, second]);
    assert_eq!(&data[inner_at..inner_at + inner.len()], &inner[..]);
    let pack = Pack::decode(&data, Vec::new()).unwrap();
    assert_eq!(pack.get_object_number(), 2);
    assert_eq!(pack.get_cache().len(), 3);
    assert_eq!(
        pack.get_cache().offset_object(inner_at as u64).unwrap().object.contents,
        b"inner".to_vec()
    );
    assert_eq!(
        pack.get_cache().offset_object(second_at as u64).unwrap().object.contents,
        b"in".to_vec()
    );
}

#[test]
fn what_follows_the_trailer_is_not_read() {
    let mut data = pack_of(&[base_entry(3, b"abc")]);
    let trailer = data[data.len() - 20..].to_vec();
    data.push(0);
    let pack = Pack::decode(&data, Vec::new()).unwrap();
    assert_eq!(pack.get_hash().0.to_vec(), trailer);
    assert_ne!(pack.get_hash().0.to_vec(), data[data.len() - 20..].to_vec());
}
