use gitcore::errors::GitError;
use gitcore::git::object::delta::apply_delta;

fn delta(source: u8, target: u8, commands: &[u8]) -> Vec<u8> {
    let mut d = vec![source, target];
    d.extend_from_slice(commands);
    d
}

#[test]
fn copy_and_insert_make_the_target() {
    let base = b"hello world\n";
    // copy 6 bytes from offset 0, insert "there\n"
    let d = delta(12, 12, &[0x90, 6, 6, b't', b'h', b'e', b'r', b'e', b'\n']);
    assert_eq!(apply_delta(base, &d), Ok(b"hello there\n".to_vec()));
}

#[test]
fn the_result_has_the_announced_length() {
    let base: Vec<u8> = (0..200u8).collect();
    // a base of 200 bytes takes two bytes to announce; copy 100 bytes from
    // offset 50, then 3 literal bytes
    let d = [&[0xc8, 0x01, 103][..], &[0x91, 50, 100, 3, 1, 2, 3][..]].concat();
    let out = apply_delta(&base, &d).unwrap();
    assert_eq!(out.len(), 103);
    assert_eq!(&out[..100], &base[50..150]);
    assert_eq!(&out[100..], &[1, 2, 3]);
}

#[test]
fn copy_arguments_are_little_endian_and_optional() {
    let base: Vec<u8> = (0..0x1_0200u32).map(|i| (i % 251) as u8).collect();
    // offset 0x0102 (two offset bytes), size 0x0203 (two size bytes)
    let mut d = Vec::new();
    d.extend_from_slice(&[0x80, 0x84, 0x04]); // source size 0x10200
    d.extend_from_slice(&[0x83, 0x04]); // target size 0x203
    d.extend_from_slice(&[0x80 | 0x01 | 0x02 | 0x10 | 0x20, 0x02, 0x01, 0x03, 0x02]);
    let out = apply_delta(&base, &d).unwrap();
    assert_eq!(out, base[0x0102..0x0102 + 0x0203].to_vec());
}

#[test]
fn a_copy_of_size_zero_copies_65536_bytes() {
    let base: Vec<u8> = (0..0x1_0000u32).map(|i| (i % 7) as u8).collect();
    let mut d = Vec::new();
    d.extend_from_slice(&[0x80, 0x80, 0x04]); // source size 0x10000
    d.extend_from_slice(&[0x80, 0x80, 0x04]); // target size 0x10000
    d.push(0x80); // copy, no arguments: offset 0, size 0
    let out = apply_delta(&base, &d).unwrap();
    assert_eq!(out.len(), 0x1_0000);
    assert_eq!(out, base);
}

#[test]
fn an_empty_command_stream_makes_an_empty_object() {
    assert_eq!(apply_delta(b"abc", &delta(3, 0, &[])), Ok(Vec::new()));
}

#[test]
fn the_reserved_command_is_rejected() {
    assert_eq!(apply_delta(b"abc", &delta(3, 1, &[0])), Err(GitError::InvalidDeltaCommand));
}

#[test]
fn a_copy_outside_the_base_is_rejected() {
    assert_eq!(
        apply_delta(b"abc", &delta(3, 4, &[0x90, 4])),
        Err(GitError::InvalidDeltaCommand)
    );
    assert_eq!(
        apply_delta(b"abc", &delta(3, 2, &[0x91, 2, 2])),
        Err(GitError::InvalidDeltaCommand)
    );
}

#[test]
fn a_wrong_length_is_a_corrupt_object() {
    // announces 5 bytes, makes 3
    assert_eq!(apply_delta(b"abc", &delta(3, 5, &[0x90, 3])), Err(GitError::CorruptObject));
    // announces 2 bytes, makes 3
    assert_eq!(apply_delta(b"abc", &delta(3, 2, &[0x90, 3])), Err(GitError::CorruptObject));
    // meant for a base of 4 bytes
    assert_eq!(apply_delta(b"abc", &delta(4, 3, &[0x90, 3])), Err(GitError::CorruptObject));
}

#[test]
fn a_stream_that_ends_early_is_rejected() {
    assert_eq!(apply_delta(b"abc", &[]), Err(GitError::UnexpectedEof));
    assert_eq!(apply_delta(b"abc", &[3]), Err(GitError::UnexpectedEof));
    assert_eq!(apply_delta(b"abc", &[0x83]), Err(GitError::UnexpectedEof));
    // insert of 4 bytes with 2 at hand
    assert_eq!(apply_delta(b"abc", &delta(3, 4, &[4, 1, 2])), Err(GitError::UnexpectedEof));
    // copy with a missing argument
    assert_eq!(apply_delta(b"abc", &delta(3, 1, &[0x91, 0])), Err(GitError::UnexpectedEof));
}
