use gitcore::errors::GitError;
use gitcore::git::idx::Idx;
use gitcore::git::pack::Pack;
use std::io::Write;

fn zlib(data: &[u8]) -> Vec<u8> {
    let mut encoder = flate2::write::ZlibEncoder::new(Vec::new(), flate2::Compression::default());
    encoder.write_all(data).unwrap();
    encoder.finish().unwrap()
}

fn blob_entry(contents: &[u8]) -> Vec<u8> {
    assert!(contents.len() < 16);
    let mut e = vec![(3u8 << 4) | contents.len() as u8];
    e.extend_from_slice(&zlib(contents));
    e
}

fn pack_of(entries: &[Vec<u8>]) -> Vec<u8> {
    let mut out = b"PACK".to_vec();
    out.extend_from_slice(&[0, 0, 0, 2]);
    out.extend_from_slice(&(entries.len() as u32).to_be_bytes());
    for e in entries {
        out.extend_from_slice(e);
    }
    let trailer = gitcore::git::hash::Hash::new(&out);
    out.extend_from_slice(&trailer.0);
    out
}

fn sample_pack() -> Vec<u8> {
    pack_of(&[
        blob_entry(b"one"),
        blob_entry(b"two"),
        blob_entry(b"three"),
        blob_entry(b"four"),
        blob_entry(b"two"),
    ])
}

#[test]
fn encoded_index_lists_every_hash_once_in_ascending_order() {
    let data = sample_pack();
    let pack = Pack::decode(&data, Vec::new()).unwrap();
    assert_eq!(pack.get_cache().len(), 5);
    let idx = Idx::encode(pack).unwrap();
    assert_eq!(idx.version, 2);
    assert_eq!(idx.number_of_objects, 4);
    assert_eq!(idx.idx_items.len(), 4);
    for w in idx.idx_items.windows(2) {
        assert!(w[0].id.0 < w[1].id.0);
    }
    assert_eq!(idx.pack_signature.0.to_vec(), data[data.len() - 20..].to_vec());
}

#[test]
fn decoding_an_encoded_index_gives_it_back() {
    let data = sample_pack();
    let pack = Pack::decode(&data, Vec::new()).unwrap();
    let written = Idx::encode(pack).unwrap();
    let mut read = Idx::default();
    read.decode(written._file_data.clone()).unwrap();
    assert_eq!(read.version, 2);
    assert_eq!(read.number_of_objects, written.number_of_objects);
    assert_eq!(read.idx_items, written.idx_items);
    assert_eq!(read.map_of_prefix, written.map_of_prefix);
    assert_eq!(read.pack_signature, written.pack_signature);
    assert_eq!(read.idx_signature, written.idx_signature);
    let body = &written._file_data[..written._file_data.len() - 20];
    assert_eq!(gitcore::git::hash::Hash::new(body), written.idx_signature);
}

#[test]
fn fan_out_counts_first_bytes() {
    let data = sample_pack();
    let pack = Pack::decode(&data, Vec::new()).unwrap();
    let idx = Idx::encode(pack).unwrap();
    let file = &idx._file_data;
    let mut previous = 0u32;
    for i in 0..256usize {
        let at = 8 + 4 * i;
        let entry = u32::from_be_bytes([file[at], file[at + 1], file[at + 2], file[at + 3]]);
        assert!(previous <= entry);
        let expected = idx.idx_items.iter().filter(|it| it.id.0[0] as usize <= i).count() as u32;
        assert_eq!(entry, expected);
        let delta = (entry - previous) as usize;
        assert_eq!(idx.map_of_prefix.get(&(i as u8)).copied().unwrap_or(0), delta);
        previous = entry;
    }
    assert_eq!(previous as usize, idx.number_of_objects);
}

#[test]
fn malformed_index_files_are_rejected() {
    let mut idx = Idx::default();
    assert_eq!(idx.decode(vec![0u8; 10]), Err(GitError::InvalidIdxFile));
    let data = sample_pack();
    let pack = Pack::decode(&data, Vec::new()).unwrap();
    let good = Idx::encode(pack).unwrap()._file_data;
    let mut bad_magic = good.clone();
    bad_magic[0] = 0;
    assert_eq!(idx.decode(bad_magic), Err(GitError::InvalidIdxFile));
    let mut bad_version = good.clone();
    bad_version[7] = 3;
    assert_eq!(idx.decode(bad_version), Err(GitError::InvalidIdxFile));
    let mut short = good.clone();
    short.pop();
    assert_eq!(idx.decode(short), Err(GitError::InvalidIdxFile));
    assert_eq!(idx.idx_items.len(), 0);
    assert_eq!(idx.decode(good), Ok(()));
}

/// An index file of the given entries, written by hand.
fn idx_file(items: &[([u8; 20], u32, u32)], large: &[u64]) -> Vec<u8> {
    let mut out = vec![0xff, 0x74, 0x4f, 0x63, 0, 0, 0, 2];
    for b in 0..256usize {
        let count = items.iter().filter(|it| it.0[0] as usize <= b).count() as u32;
        out.extend_from_slice(&count.to_be_bytes());
    }
    for it in items {
        out.extend_from_slice(&it.0);
    }
    for it in items {
        out.extend_from_slice(&it.1.to_be_bytes());
    }
    for it in items {
        out.extend_from_slice(&it.2.to_be_bytes());
    }
    for o in large {
        out.extend_from_slice(&o.to_be_bytes());
    }
    out.extend_from_slice(&[0x11; 20]);
    out.extend_from_slice(&[0x22; 20]);
    out
}

#[test]
fn large_offsets_are_looked_up_in_their_table() {
    let items = [([0x10; 20], 7, 12), ([0x20; 20], 8, 0x8000_0001), ([0x20 + 1; 20], 9, 0x8000_0000)];
    let mut idx = Idx::default();
    idx.decode(idx_file(&items, &[0x1_2345_6789, 0xffff_ffff_ffff])).unwrap();
    assert_eq!(idx.number_of_objects, 3);
    assert_eq!(idx.idx_items[0].offset, 12);
    assert_eq!(idx.idx_items[0].crc32, 7);
    assert_eq!(idx.idx_items[1].offset, 0xffff_ffff_ffff);
    assert_eq!(idx.idx_items[2].offset, 0x1_2345_6789);
    assert_eq!(idx.idx_items[2].id.0, [0x21; 20]);
    assert_eq!(idx.pack_signature.0, [0x11; 20]);
    assert_eq!(idx.idx_signature.0, [0x22; 20]);
    assert_eq!(idx.map_of_prefix.get(&0x20), Some(&1));
    assert_eq!(idx.map_of_prefix.len(), 3);
    // a large offset that the table lacks
    let mut lost = Idx::default();
    assert_eq!(lost.decode(idx_file(&items, &[5])), Err(GitError::InvalidIdxFile));
    // a table of a length that is no multiple of eight
    let mut odd = idx_file(&items, &[1, 2]);
    let at = odd.len() - 40;
    odd.insert(at, 0);
    assert_eq!(lost.decode(odd), Err(GitError::InvalidIdxFile));
}

#[test]
fn a_fan_out_table_that_decreases_is_rejected() {
    let items = [([0x10; 20], 7, 12), ([0x20; 20], 8, 40)];
    let mut file = idx_file(&items, &[]);
    let mut idx = Idx::default();
    assert_eq!(idx.decode(file.clone()), Ok(()));
    // entry 0x18 says 0 where entry 0x17 says 1
    file[8 + 4 * 0x18 + 3] = 0;
    assert_eq!(idx.decode(file), Err(GitError::InvalidIdxFile));
}

#[test]
fn prefixes_are_two_digits() {
    let idx = Idx::default();
    assert_eq!(idx.sha1_prefix(0), "00");
    assert_eq!(idx.sha1_prefix(0x7c), "7c");
    assert_eq!(idx.sha1_prefix(255), "ff");
}

#[test]
fn an_index_of_more_objects_than_a_pack_can_announce() {
    let mut idx = Idx::default();
    idx.decode(idx_file(&[([0x10; 20], 7, 32)], &[])).unwrap();
    let mut empty = b"PACK\x00\x00\x00\x02\x00\x00\x00\x00".to_vec();
    let trailer = gitcore::git::hash::Hash::new(&empty);
    empty.extend_from_slice(&trailer.0);
    // the entry points behind the end of the pack
    assert_eq!(
        Pack::decode_by_idx(&idx, &empty, Vec::new()).err(),
        Some(GitError::UnexpectedEof)
    );
    idx.idx_items.clear();
    let pack = Pack::decode_by_idx(&idx, &empty, Vec::new()).unwrap();
    assert_eq!(pack.get_object_number(), 1);
    assert_eq!(pack.get_cache().len(), 0);
    assert_eq!(pack.get_hash().0, [0x11; 20]);
    idx.number_of_objects = u32::MAX as usize + 1;
    assert_eq!(
        Pack::decode_by_idx(&idx, &empty, Vec::new()).err(),
        Some(GitError::PackTooLarge)
    );
}
