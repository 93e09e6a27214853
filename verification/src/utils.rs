//! Readers for the fixed-width and variable-length fields of the two file
//! formats. Each reader takes the whole input and a position and hands back the
//! value together with the position just behind it.

use vstd::prelude::*;
use vstd::slice::slice_subrange;
use crate::errors::{ErrorView, GitError};
use crate::git::hash;

verus! {

/// The number that four bytes spell in network byte order.
pub open spec fn be_u32(bytes: Seq<u8>) -> int
    recommends
        bytes.len() >= 4,
{
    bytes[0] as int * 0x100_0000 + bytes[1] as int * 0x1_0000 + bytes[2] as int * 0x100
        + bytes[3] as int
}

/// The four bytes that spell `value` in network byte order.
pub open spec fn u32_bytes(value: u32) -> Seq<u8> {
    seq![
        (value / 0x100_0000) as u8,
        (value / 0x1_0000 % 0x100) as u8,
        (value / 0x100 % 0x100) as u8,
        (value % 0x100) as u8,
    ]
}

/// Reading back what `u32_bytes` wrote gives the number again.
pub proof fn lemma_u32_bytes_read_back(value: u32)
    ensures
        u32_bytes(value).len() == 4,
        be_u32(u32_bytes(value)) == value,
{
    let v = value as int;
    let b0 = v / 0x100_0000;
    let b1 = v / 0x1_0000 % 0x100;
    let b2 = v / 0x100 % 0x100;
    let b3 = v % 0x100;
    assert(v == (v / 0x100) * 0x100 + b3);
    assert(v / 0x100 == (v / 0x1_0000) * 0x100 + b2);
    assert(v / 0x1_0000 == b0 * 0x100 + b1);
}

/// Four bytes spell a number below 2^32, and writing that number gives the
/// bytes again.
pub proof fn lemma_be_u32_write_back(bytes: Seq<u8>)
    requires
        bytes.len() == 4,
    ensures
        0 <= be_u32(bytes) <= u32::MAX,
        u32_bytes(be_u32(bytes) as u32) == bytes,
{
    let v = be_u32(bytes);
    let b0 = bytes[0] as int;
    let b1 = bytes[1] as int;
    let b2 = bytes[2] as int;
    let b3 = bytes[3] as int;
    assert(v % 0x100 == b3);
    assert(v / 0x100 == b0 * 0x1_0000 + b1 * 0x100 + b2);
    assert(v / 0x100 % 0x100 == b2);
    assert(v / 0x1_0000 == b0 * 0x100 + b1);
    assert(v / 0x1_0000 % 0x100 == b1);
    assert(v / 0x100_0000 == b0);
    assert(u32_bytes(v as u32) =~= bytes);
}

/// `ByteOrder::read_u32` of `byteorder::BigEndian`: the first four bytes of
/// `buf`, most significant first. The outside function panics on a shorter
/// buffer, which the precondition rules out.
#[verifier::external_body]
fn be_read_u32(buf: &[u8]) -> (value: u32)
    requires
        buf@.len() >= 4,
    ensures
        value == be_u32(buf@),
{
    <byteorder::BigEndian as byteorder::ByteOrder>::read_u32(buf)
}

/// What reading a big-endian `u32` at `pos` yields.
pub open spec fn u32_at(data: Seq<u8>, pos: int) -> Result<(u32, int), ErrorView> {
    if 0 <= pos && pos + 4 <= data.len() {
        Ok((be_u32(data.subrange(pos, pos + 4)) as u32, pos + 4))
    } else {
        Err(ErrorView::UnexpectedEof)
    }
}

/// Reads a big-endian `u32` at `pos`.
pub fn read_u32(data: &[u8], pos: usize) -> (r: Result<(u32, usize), GitError>)
    ensures
        match r {
            Ok((value, next)) => u32_at(data@, pos as int) == Ok::<_, ErrorView>(
                (value, next as int),
            ),
            Err(e) => u32_at(data@, pos as int) == Err::<(u32, int), _>(e@),
        },
{
    if data.len() < 4 || pos > data.len() - 4 {
        return Err(GitError::UnexpectedEof);
    }
    let field = slice_subrange(data, pos, pos + 4);
    proof {
        lemma_be_u32_write_back(field@);
    }
    Ok((be_read_u32(field), pos + 4))
}

/// The four bytes of `value`, most significant first.
pub fn u32_vec(value: u32) -> (bytes: Vec<u8>)
    ensures
        bytes@ == u32_bytes(value),
        be_u32(bytes@) == value,
{
    let mut bytes: Vec<u8> = Vec::with_capacity(4);
    bytes.push((value / 0x100_0000) as u8);
    bytes.push((value / 0x1_0000 % 0x100) as u8);
    bytes.push((value / 0x100 % 0x100) as u8);
    bytes.push((value % 0x100) as u8);
    proof {
        assert(bytes@ =~= u32_bytes(value));
        lemma_u32_bytes_read_back(value);
    }
    bytes
}

/// What reading a 20-byte digest at `pos` yields.
pub open spec fn hash_at(data: Seq<u8>, pos: int) -> Result<(Seq<u8>, int), ErrorView> {
    if 0 <= pos && pos + 20 <= data.len() {
        Ok((data.subrange(pos, pos + 20), pos + 20))
    } else {
        Err(ErrorView::UnexpectedEof)
    }
}

/// Reads a raw 20-byte digest at `pos`.
pub fn read_hash(data: &[u8], pos: usize) -> (r: Result<(hash::Hash, usize), GitError>)
    ensures
        match r {
            Ok((h, next)) => hash_at(data@, pos as int) == Ok::<_, ErrorView>((h@, next as int)),
            Err(e) => hash_at(data@, pos as int) == Err::<(Seq<u8>, int), _>(e@),
        },
{
    if data.len() < 20 || pos > data.len() - 20 {
        return Err(GitError::UnexpectedEof);
    }
    let mut bytes: [u8; 20] = [0u8; 20];
    let mut i: usize = 0;
    while i < 20
        invariant
            i <= 20,
            pos + 20 <= data.len(),
            forall|k: int| 0 <= k < i ==> bytes@[k] == data@[pos + k],
        decreases 20 - i,
    {
        bytes[i] = data[pos + i];
        i += 1;
    }
    proof {
        assert(bytes@ =~= data@.subrange(pos as int, pos + 20));
    }
    Ok((hash::Hash(bytes), pos + 20))
}

/// The tail of a little-endian base-128 number: each byte adds its low seven
/// bits times `weight`, and a set high bit announces another byte, weighted 128
/// times as much. A number that does not fit 64 bits is malformed.
pub open spec fn varint_tail(data: Seq<u8>, pos: int, weight: nat, acc: nat) -> Result<
    (u64, int),
    ErrorView,
>
    decreases data.len() - pos,
{
    if pos < 0 || pos >= data.len() {
        Err(ErrorView::UnexpectedEof)
    } else {
        let b = data[pos];
        let sum = acc + (b % 128) * weight;
        if sum > u64::MAX {
            Err(ErrorView::MalformedHeader)
        } else if b < 128 {
            Ok((sum as u64, pos + 1))
        } else {
            varint_tail(data, pos + 1, weight * 128, sum as nat)
        }
    }
}

/// What reading a size in the delta-stream encoding at `pos` yields.
pub open spec fn size_encoding_at(data: Seq<u8>, pos: int) -> Result<(u64, int), ErrorView> {
    varint_tail(data, pos, 1, 0)
}

/// The type code in the first byte of an object header: bits 6 to 4.
pub open spec fn header_type_code(b: u8) -> u8 {
    (b / 16 % 8) as u8
}

/// Whether a type code names an object type or one of the two delta kinds.
pub open spec fn known_type_code(code: u8) -> bool {
    1 <= code <= 4 || code == 6 || code == 7
}

/// What reading an object header at `pos` yields: the type code, the size and
/// the position behind the header.
pub open spec fn type_and_size_at(data: Seq<u8>, pos: int) -> Result<(u8, u64, int), ErrorView> {
    if pos < 0 || pos >= data.len() {
        Err(ErrorView::UnexpectedEof)
    } else {
        let b = data[pos];
        if !known_type_code(header_type_code(b)) {
            Err(ErrorView::MalformedHeader)
        } else if b < 128 {
            Ok((header_type_code(b), (b % 16) as u64, pos + 1))
        } else {
            match varint_tail(data, pos + 1, 16, (b % 16) as nat) {
                Ok((size, next)) => Ok((header_type_code(b), size, next)),
                Err(e) => Err(e),
            }
        }
    }
}

/// Runs the base-128 tail from `pos` with the given starting weight and sum.
fn read_varint_tail(data: &[u8], pos: usize, weight: u64, acc: u64) -> (r: Result<
    (u64, usize),
    GitError,
>)
    requires
        weight >= 1,
    ensures
        match r {
            Ok((value, next)) => varint_tail(data@, pos as int, weight as nat, acc as nat) == Ok::<
                _,
                ErrorView,
            >((value, next as int)),
            Err(e) => varint_tail(data@, pos as int, weight as nat, acc as nat) == Err::<
                (u64, int),
                _,
            >(e@),
        },
{
    let mut value: u64 = acc;
    let mut w: u64 = weight;
    // set once the true weight no longer fits 64 bits
    let mut beyond: bool = false;
    let ghost mut true_weight: nat = weight as nat;
    let mut p: usize = pos;
    loop
        invariant
            pos <= p,
            true_weight >= 1,
            !beyond ==> w == true_weight && w >= 1,
            beyond ==> true_weight > u64::MAX,
            varint_tail(data@, pos as int, weight as nat, acc as nat) == varint_tail(
                data@,
                p as int,
                true_weight,
                value as nat,
            ),
        decreases data@.len() - p,
    {
        if p >= data.len() {
            return Err(GitError::UnexpectedEof);
        }
        let b = data[p];
        let low = (b % 128) as u64;
        if low != 0 {
            if beyond {
                proof {
                    assert(low * true_weight > u64::MAX) by (nonlinear_arith)
                        requires
                            low >= 1,
                            true_weight > u64::MAX,
                    ;
                }
                return Err(GitError::MalformedHeader);
            }
            match low.checked_mul(w) {
                None => {
                    return Err(GitError::MalformedHeader);
                },
                Some(term) => match value.checked_add(term) {
                    None => {
                        return Err(GitError::MalformedHeader);
                    },
                    Some(sum) => {
                        value = sum;
                    },
                },
            }
        } else {
            proof {
                assert(low * true_weight == 0) by (nonlinear_arith)
                    requires
                        low == 0,
                ;
            }
        }
        if b < 128 {
            return Ok((value, p + 1));
        }
        if !beyond {
            match w.checked_mul(128) {
                Some(next_weight) => {
                    w = next_weight;
                },
                None => {
                    beyond = true;
                },
            }
        } else {
            proof {
                assert(true_weight * 128 > u64::MAX) by (nonlinear_arith)
                    requires
                        true_weight > u64::MAX,
                ;
            }
        }
        proof {
            true_weight = true_weight * 128;
        }
        p += 1;
    }
}

/// Reads a size in the encoding that opens a delta stream: little-endian
/// base 128, the high bit of each byte announcing another one.
pub fn read_size_encoding(data: &[u8], pos: usize) -> (r: Result<(u64, usize), GitError>)
    ensures
        match r {
            Ok((value, next)) => size_encoding_at(data@, pos as int) == Ok::<_, ErrorView>(
                (value, next as int),
            ),
            Err(e) => size_encoding_at(data@, pos as int) == Err::<(u64, int), _>(e@),
        },
{
    read_varint_tail(data, pos, 1, 0)
}

/// Reads an object header: the type code in bits 6 to 4 of the first byte, the
/// size in its low nibble and in the low seven bits of every further byte.
pub fn read_type_and_size(data: &[u8], pos: usize) -> (r: Result<(u8, u64, usize), GitError>)
    ensures
        match r {
            Ok((code, size, next)) => type_and_size_at(data@, pos as int) == Ok::<_, ErrorView>(
                (code, size, next as int),
            ),
            Err(e) => type_and_size_at(data@, pos as int) == Err::<(u8, u64, int), _>(e@),
        },
{
    if pos >= data.len() {
        return Err(GitError::UnexpectedEof);
    }
    let b = data[pos];
    let code = b / 16 % 8;
    if !(1 <= code && code <= 4 || code == 6 || code == 7) {
        return Err(GitError::MalformedHeader);
    }
    if b < 128 {
        return Ok((code, (b % 16) as u64, pos + 1));
    }
    match read_varint_tail(data, pos + 1, 16, (b % 16) as u64) {
        Ok((size, next)) => Ok((code, size, next)),
        Err(e) => Err(e),
    }
}

/// The tail of the back-reference encoding: big-endian base 128, where every
/// byte that announces another one also adds one to the number so far. A number
/// that does not fit 64 bits can point at no object.
pub open spec fn offset_tail(data: Seq<u8>, pos: int, acc: nat) -> Result<(u64, int), ErrorView>
    decreases data.len() - pos,
{
    if pos < 0 || pos >= data.len() {
        Err(ErrorView::UnexpectedEof)
    } else {
        let b = data[pos];
        let shifted = acc * 128 + b % 128;
        if b < 128 {
            if shifted > u64::MAX {
                Err(ErrorView::InvalidOffsetDelta)
            } else {
                Ok((shifted as u64, pos + 1))
            }
        } else if shifted + 1 > u64::MAX {
            Err(ErrorView::InvalidOffsetDelta)
        } else {
            offset_tail(data, pos + 1, (shifted + 1) as nat)
        }
    }
}

/// What reading a back-reference at `pos` yields.
pub open spec fn offset_encoding_at(data: Seq<u8>, pos: int) -> Result<(u64, int), ErrorView> {
    offset_tail(data, pos, 0)
}

/// Reads the distance from a delta object back to its base.
pub fn read_offset_encoding(data: &[u8], pos: usize) -> (r: Result<(u64, usize), GitError>)
    ensures
        match r {
            Ok((value, next)) => offset_encoding_at(data@, pos as int) == Ok::<_, ErrorView>(
                (value, next as int),
            ),
            Err(e) => offset_encoding_at(data@, pos as int) == Err::<(u64, int), _>(e@),
        },
{
    let mut value: u64 = 0;
    let mut p: usize = pos;
    loop
        invariant
            pos <= p,
            offset_encoding_at(data@, pos as int) == offset_tail(data@, p as int, value as nat),
        decreases data@.len() - p,
    {
        if p >= data.len() {
            return Err(GitError::UnexpectedEof);
        }
        let b = data[p];
        let shifted = match value.checked_mul(128) {
            None => {
                return Err(GitError::InvalidOffsetDelta);
            },
            Some(high) => match high.checked_add((b % 128) as u64) {
                None => {
                    return Err(GitError::InvalidOffsetDelta);
                },
                Some(s) => s,
            },
        };
        if b < 128 {
            return Ok((shifted, p + 1));
        }
        match shifted.checked_add(1) {
            None => {
                return Err(GitError::InvalidOffsetDelta);
            },
            Some(s) => {
                value = s;
            },
        }
        p += 1;
    }
}

/// What inflating a zlib stream that starts a byte string comes to.
pub enum Inflated {
    /// The stream is complete: what it unpacks to, and how many bytes of the
    /// input it occupies.
    Done { bytes: Seq<u8>, consumed: nat },
    /// The input ends before the stream does.
    Truncated,
    /// The input is no zlib stream.
    Corrupt,
}

/// The outcome of inflating the zlib stream at the start of `stream`, as the
/// `flate2` crate computes it.
pub uninterp spec fn zlib_inflate(stream: Seq<u8>) -> Inflated;

/// The zlib stream that the `deflate` crate packs `data` into at its default
/// level.
pub uninterp spec fn zlib_deflate(data: Seq<u8>) -> Seq<u8>;

/// The CRC-32/ISO-HDLC checksum of `data`, as the `crc` crate computes it.
pub uninterp spec fn crc32_iso_hdlc(data: Seq<u8>) -> u32;

/// `flate2::bufread::ZlibDecoder` read to its end: the bytes that the zlib
/// stream at the start of `stream` unpacks to, with `total_in`, the number of
/// input bytes the stream occupies. The decoder reports an input that ends
/// early as `UnexpectedEof` and any other fault as a corrupt stream;
/// `Err(true)` stands for the first.
#[verifier::external_body]
fn inflate(stream: &[u8]) -> (r: Result<(Vec<u8>, usize), bool>)
    ensures
        match r {
            Ok((bytes, consumed)) => zlib_inflate(stream@) == (Inflated::Done {
                bytes: bytes@,
                consumed: consumed as nat,
            }),
            Err(truncated) => zlib_inflate(stream@) == if truncated {
                Inflated::Truncated
            } else {
                Inflated::Corrupt
            },
        },
{
    let mut decoder = flate2::bufread::ZlibDecoder::new(stream);
    let mut bytes = Vec::new();
    match std::io::Read::read_to_end(&mut decoder, &mut bytes) {
        Ok(_) => Ok((bytes, decoder.total_in() as usize)),
        Err(e) => Err(e.kind() == std::io::ErrorKind::UnexpectedEof),
    }
}

/// `deflate::deflate_bytes_zlib`: `data` packed into one zlib stream.
#[verifier::external_body]
fn deflate(data: &[u8]) -> (stream: Vec<u8>)
    ensures
        stream@ == zlib_deflate(data@),
{
    deflate::deflate_bytes_zlib(data)
}

/// `Crc::checksum` of `crc::Crc::<u32>::new(&crc::CRC_32_ISO_HDLC)`: the
/// checksum of `data` under that algorithm.
#[verifier::external_body]
fn crc32_of(data: &[u8]) -> (sum: u32)
    ensures
        sum == crc32_iso_hdlc(data@),
{
    crc::Crc::<u32>::new(&crc::CRC_32_ISO_HDLC).checksum(data)
}

/// `ByteSlice::find_byte` of `bstr`: the index of the first occurrence of
/// `byte` in `haystack`, or `None` where it does not occur.
#[verifier::external_body]
fn find_byte_in(haystack: &[u8], byte: u8) -> (r: Option<usize>)
    ensures
        match r {
            Some(i) => i < haystack@.len() && haystack@[i as int] == byte && forall|k: int|
                0 <= k < i ==> haystack@[k] != byte,
            None => forall|k: int| 0 <= k < haystack@.len() ==> haystack@[k] != byte,
        },
{
    bstr::ByteSlice::find_byte(haystack, byte)
}

/// What reading the zlib stream at `pos` yields: its contents and the position
/// just behind its last byte. A stream cannot occupy more than the input
/// holds.
pub open spec fn zlib_stream_at(data: Seq<u8>, pos: int) -> Result<(Seq<u8>, int), ErrorView> {
    if pos < 0 || pos > data.len() {
        Err(ErrorView::UnexpectedEof)
    } else {
        match zlib_inflate(data.subrange(pos, data.len() as int)) {
            Inflated::Done { bytes, consumed } => if pos + consumed > data.len() {
                Err(ErrorView::DecompressionError)
            } else {
                Ok((bytes, pos + consumed))
            },
            Inflated::Truncated => Err(ErrorView::UnexpectedEof),
            Inflated::Corrupt => Err(ErrorView::DecompressionError),
        }
    }
}

/// Unpacks the zlib stream that starts at `pos`, whose length is not known in
/// advance, and reports where it ends.
pub fn read_zlib_stream_exact(data: &[u8], pos: usize) -> (r: Result<(Vec<u8>, usize), GitError>)
    ensures
        match r {
            Ok((bytes, end)) => zlib_stream_at(data@, pos as int) == Ok::<_, ErrorView>(
                (bytes@, end as int),
            ) && pos <= end <= data@.len(),
            Err(e) => zlib_stream_at(data@, pos as int) == Err::<(Seq<u8>, int), _>(e@),
        },
{
    if pos > data.len() {
        return Err(GitError::UnexpectedEof);
    }
    let stream = slice_subrange(data, pos, data.len());
    match inflate(stream) {
        Ok((bytes, consumed)) => if consumed > stream.len() {
            Err(GitError::DecompressionError)
        } else {
            Ok((bytes, pos + consumed))
        },
        Err(truncated) => if truncated {
            Err(GitError::UnexpectedEof)
        } else {
            Err(GitError::DecompressionError)
        },
    }
}

/// Packs `data` into one zlib stream.
pub fn zlib_compress(data: &[u8]) -> (stream: Vec<u8>)
    ensures
        stream@ == zlib_deflate(data@),
{
    deflate(data)
}

/// The CRC-32/ISO-HDLC checksum of `data`, the one that index files carry.
pub fn crc32(data: &[u8]) -> (sum: u32)
    ensures
        sum == crc32_iso_hdlc(data@),
{
    crc32_of(data)
}

/// The index of the first occurrence of `byte` at or after `from`, if there
/// is one.
pub open spec fn first_at_or_after(data: Seq<u8>, from: int, byte: u8) -> Option<int> {
    if 0 <= from <= data.len() {
        match data.subrange(from, data.len() as int).index_of_first(byte) {
            Some(i) => Some(from + i),
            None => None,
        }
    } else {
        None
    }
}

/// What the first occurrence at or after a position is.
pub proof fn lemma_first_at_or_after(data: Seq<u8>, from: int, byte: u8)
    ensures
        match first_at_or_after(data, from, byte) {
            Some(i) => 0 <= from <= i < data.len() && data[i] == byte && forall|k: int|
                from <= k < i ==> data[k] != byte,
            None => forall|k: int| 0 <= from <= k < data.len() ==> data[k] != byte,
        },
{
    if 0 <= from <= data.len() {
        let tail = data.subrange(from, data.len() as int);
        tail.index_of_first_ensures(byte);
        match tail.index_of_first(byte) {
            Some(i) => {
                assert(tail[i] == data[from + i]);
                assert forall|k: int| from <= k < from + i implies data[k] != byte by {
                    assert(tail[k - from] == data[k]);
                }
            },
            None => {
                assert forall|k: int| from <= k < data.len() implies data[k] != byte by {
                    if data[k] == byte {
                        assert(tail[k - from] == byte);
                    }
                }
            },
        }
    }
}

/// The index of the first occurrence of `byte` at or after `from`.
pub fn find_byte(data: &[u8], from: usize, byte: u8) -> (r: Option<usize>)
    ensures
        match r {
            Some(i) => first_at_or_after(data@, from as int, byte) == Some(i as int) && from <= i
                < data@.len() && data@[i as int] == byte,
            None => first_at_or_after(data@, from as int, byte) is None,
        },
{
    proof {
        lemma_first_at_or_after(data@, from as int, byte);
    }
    if from > data.len() {
        return None;
    }
    let tail = slice_subrange(data, from, data.len());
    match find_byte_in(tail, byte) {
        Some(i) => {
            proof {
                assert(tail@[i as int] == data@[from + i]);
                tail@.index_of_first_ensures(byte);
                assert(tail@.contains(byte));
                let j = tail@.index_of_first(byte)->Some_0;
                if j < i {
                    assert(tail@[j] != byte);
                }
                if i < j {
                    assert(tail@[i as int] != byte);
                }
            }
            Some(from + i)
        },
        None => {
            proof {
                assert forall|k: int| from <= k < data@.len() implies data@[k] != byte by {
                    assert(tail@[k - from] == data@[k]);
                }
            }
            None
        },
    }
}

/// A reader that succeeds hands back a position behind the one it started at
/// and within the input.
pub proof fn lemma_varint_tail_advances(data: Seq<u8>, pos: int, weight: nat, acc: nat)
    ensures
        varint_tail(data, pos, weight, acc) matches Ok((_, next)) ==> pos < next <= data.len(),
    decreases data.len() - pos,
{
    if 0 <= pos < data.len() {
        let sum = acc + (data[pos] % 128) * weight;
        if sum <= u64::MAX && data[pos] >= 128 {
            lemma_varint_tail_advances(data, pos + 1, weight * 128, sum as nat);
        }
    }
}

/// An object header that reads well carries a known type code and ends behind
/// where it starts, within the input.
pub proof fn lemma_type_and_size_advances(data: Seq<u8>, pos: int)
    ensures
        type_and_size_at(data, pos) matches Ok((code, _, next)) ==> 0 <= pos < next <= data.len()
            && known_type_code(code),
{
    if 0 <= pos < data.len() {
        lemma_varint_tail_advances(data, pos + 1, 16, (data[pos] % 16) as nat);
    }
}

/// A back-reference that reads well ends behind where it starts, within the
/// input.
pub proof fn lemma_offset_tail_advances(data: Seq<u8>, pos: int, acc: nat)
    ensures
        offset_tail(data, pos, acc) matches Ok((_, next)) ==> pos < next <= data.len(),
    decreases data.len() - pos,
{
    if 0 <= pos < data.len() {
        let shifted = acc * 128 + data[pos] % 128;
        if data[pos] >= 128 && shifted + 1 <= u64::MAX {
            lemma_offset_tail_advances(data, pos + 1, (shifted + 1) as nat);
        }
    }
}

/// The text that a byte string stands for, as the standard library reads it:
/// UTF-8, with a replacement character for every sequence that is not.
pub uninterp spec fn utf8_lossy(bytes: Seq<u8>) -> Seq<char>;

/// `String::from_utf8_lossy`, made an owned `String`: the text of `bytes`,
/// with a replacement character wherever they are not UTF-8.
#[verifier::external_body]
fn lossy_text(bytes: &[u8]) -> (text: String)
    ensures
        text@ == utf8_lossy(bytes@),
{
    String::from_utf8_lossy(bytes).into_owned()
}

/// The text of the bytes `data[from..to]`.
pub fn text_of(data: &[u8], from: usize, to: usize) -> (text: String)
    requires
        from <= to <= data@.len(),
    ensures
        text@ == utf8_lossy(data@.subrange(from as int, to as int)),
{
    lossy_text(slice_subrange(data, from, to))
}

} // verus!
