use gitcore::errors::GitError;
use gitcore::utils;
use std::io::Write;

#[test]
fn big_endian_numbers() {
    assert_eq!(utils::read_u32(&[0, 0, 1, 2], 0), Ok((258, 4)));
    assert_eq!(utils::read_u32(&[9, 0xff, 0xff, 0xff, 0xff], 1), Ok((u32::MAX, 5)));
    assert_eq!(utils::read_u32(&[0, 0, 1], 0), Err(GitError::UnexpectedEof));
    assert_eq!(utils::read_u32(&[0, 0, 1, 2], 1), Err(GitError::UnexpectedEof));
    assert_eq!(utils::u32_vec(0x0102_0304), vec![1, 2, 3, 4]);
    assert_eq!(utils::u32_vec(256 * 5), vec![0, 0, 5, 0]);
    for value in [0u32, 1, 255, 256, 65_535, 65_536, 0x7fff_ffff, u32::MAX] {
        assert_eq!(utils::read_u32(&utils::u32_vec(value), 0), Ok((value, 4)));
    }
}

#[test]
fn fan_out_of_256_buckets_of_five() {
    let mut sum = 0u32;
    let mut table = Vec::new();
    for _ in 0..256 {
        sum += 5;
        table.extend_from_slice(&utils::u32_vec(sum));
    }
    assert_eq!(utils::read_u32(&table, 0), Ok((5, 4)));
    assert_eq!(utils::read_u32(&table, 4), Ok((10, 8)));
    assert_eq!(utils::read_u32(&table, 4 * 255), Ok((256 * 5, 1024)));
}

#[test]
fn object_headers() {
    // blob of 12 bytes
    assert_eq!(utils::read_type_and_size(&[0x3c], 0), Ok((3, 12, 1)));
    // commit of 0x5e5 bytes: low nibble 5, then 0x5e
    assert_eq!(utils::read_type_and_size(&[0x95, 0x5e], 0), Ok((1, 0x5e5, 2)));
    // three bytes: 4 + 7 + 7 bits
    assert_eq!(
        utils::read_type_and_size(&[0xff, 0xff, 0x7f], 0),
        Ok((7, 0xf | (0x7f << 4) | (0x7f << 11), 3))
    );
    assert_eq!(utils::read_type_and_size(&[0, 0x6a], 1), Ok((6, 10, 2)));
    assert_eq!(utils::read_type_and_size(&[], 0), Err(GitError::UnexpectedEof));
    assert_eq!(utils::read_type_and_size(&[0x95], 0), Err(GitError::UnexpectedEof));
    // type codes 0 and 5 name nothing
    assert_eq!(utils::read_type_and_size(&[0x0c], 0), Err(GitError::MalformedHeader));
    assert_eq!(utils::read_type_and_size(&[0x5c], 0), Err(GitError::MalformedHeader));
}

#[test]
fn sizes_that_do_not_fit_64_bits_are_malformed() {
    // 4 + 8 * 7 = 60 bits fit
    let mut fits = vec![0xbf];
    fits.extend_from_slice(&[0xff; 7]);
    fits.push(0x7f);
    assert_eq!(utils::read_type_and_size(&fits, 0), Ok((3, (1u64 << 60) - 1, 9)));
    // 67 bits do not
    let mut wide = vec![0xbf];
    wide.extend_from_slice(&[0xff; 8]);
    wide.push(0x7f);
    assert_eq!(utils::read_type_and_size(&wide, 0), Err(GitError::MalformedHeader));
    // leading zeros may go on
    let mut zeros = vec![0x80u8; 20];
    zeros.push(0);
    assert_eq!(utils::read_size_encoding(&zeros, 0), Ok((0, 21)));
    let mut max = vec![0xff; 9];
    max.push(0x01);
    assert_eq!(utils::read_size_encoding(&max, 0), Ok((u64::MAX, 10)));
    let mut over = vec![0xff; 9];
    over.push(0x02);
    assert_eq!(utils::read_size_encoding(&over, 0), Err(GitError::MalformedHeader));
}

#[test]
fn size_encoding() {
    assert_eq!(utils::read_size_encoding(&[0x0c], 0), Ok((12, 1)));
    assert_eq!(utils::read_size_encoding(&[0x80, 0x01], 0), Ok((128, 2)));
    assert_eq!(utils::read_size_encoding(&[0xe5, 0x8e, 0x26], 0), Ok((624_485, 3)));
    assert_eq!(utils::read_size_encoding(&[0x80], 0), Err(GitError::UnexpectedEof));
}

#[test]
fn offset_encoding() {
    assert_eq!(utils::read_offset_encoding(&[0x00], 0), Ok((0, 1)));
    assert_eq!(utils::read_offset_encoding(&[0x7f], 0), Ok((127, 1)));
    // two bytes start at 128
    assert_eq!(utils::read_offset_encoding(&[0x80, 0x00], 0), Ok((128, 2)));
    assert_eq!(utils::read_offset_encoding(&[0x81, 0x00], 0), Ok((256, 2)));
    assert_eq!(utils::read_offset_encoding(&[0xff, 0x7f], 0), Ok((16_511, 2)));
    // three bytes start at 16512
    assert_eq!(utils::read_offset_encoding(&[0x80, 0x80, 0x00], 0), Ok((16_512, 3)));
    assert_eq!(utils::read_offset_encoding(&[0x80], 0), Err(GitError::UnexpectedEof));
    assert_eq!(utils::read_offset_encoding(&[0xff; 11], 0), Err(GitError::InvalidOffsetDelta));
}

#[test]
fn hashes_and_bytes() {
    let data: Vec<u8> = (0..30u8).collect();
    let (h, next) = utils::read_hash(&data, 5).unwrap();
    assert_eq!(h.0.to_vec(), data[5..25].to_vec());
    assert_eq!(next, 25);
    assert_eq!(utils::read_hash(&data, 11).err(), Some(GitError::UnexpectedEof));
    assert_eq!(utils::find_byte(b"foo bar baz", 0, b'z'), Some(10));
    assert_eq!(utils::find_byte(b"foo bar baz", 0, b'y'), None);
    assert_eq!(utils::find_byte(b"foo bar baz", 4, b' '), Some(7));
    assert_eq!(utils::find_byte(b"foo bar baz", 3, b' '), Some(3));
    assert_eq!(utils::find_byte(b"foo", 9, b'o'), None);
}

#[test]
fn zlib_streams_end_where_they_end() {
    let mut encoder = flate2::write::ZlibEncoder::new(Vec::new(), flate2::Compression::default());
    encoder.write_all(b"some bytes, some more bytes, and then some").unwrap();
    let stream = encoder.finish().unwrap();
    let mut data = vec![1, 2, 3];
    data.extend_from_slice(&stream);
    data.extend_from_slice(b"what follows");
    let (bytes, end) = utils::read_zlib_stream_exact(&data, 3).unwrap();
    assert_eq!(bytes, b"some bytes, some more bytes, and then some".to_vec());
    assert_eq!(end, 3 + stream.len());
    assert_eq!(&data[end..], b"what follows");
    assert_eq!(
        utils::read_zlib_stream_exact(&data[..3 + stream.len() - 2], 3),
        Err(GitError::UnexpectedEof)
    );
    assert_eq!(utils::read_zlib_stream_exact(&data, 0), Err(GitError::DecompressionError));
    assert_eq!(utils::read_zlib_stream_exact(&data, data.len() + 1), Err(GitError::UnexpectedEof));
}

#[test]
fn compressed_bytes_unpack_to_what_was_packed() {
    let text = b"the quick brown fox jumps over the lazy dog, and over the lazy dog again";
    let packed = utils::zlib_compress(text);
    assert_ne!(packed, text.to_vec());
    let (bytes, end) = utils::read_zlib_stream_exact(&packed, 0).unwrap();
    assert_eq!(bytes, text.to_vec());
    assert_eq!(end, packed.len());
}

#[test]
fn text_of_bytes() {
    assert_eq!(utils::text_of(b"a name.txt", 2, 10), "name.txt");
    assert_eq!(utils::text_of(&[b'a', 0xff, b'b'], 0, 3), "a\u{fffd}b");
}
